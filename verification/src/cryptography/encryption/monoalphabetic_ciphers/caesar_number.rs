//! Encrypt with Caesar shifting encryption algorithm.

use crate::utils::alphabets::{
    codes, opcode_groups, same_opcodes, symbol_pairs, well_formed, Alphabet,
};
use crate::utils::canonical_order::{canonical, lemma_canonical_order};
use crate::utils::segmentation::{
    greedy, lemma_round_trip, split_bytes_by_characters_representation, uniffy_opcode_group,
};
use vstd::prelude::*;

verus! {

/// Each opcode moved `key` values up, past 254 starting again from 0.
pub open spec fn opcode_shift(plain: Seq<u8>, key: nat) -> Seq<u8> {
    plain.map_values(|opcode: u8| ((opcode + key) % 255) as u8)
}

/// The place in `ordered` of the symbol whose opcode sequence is `code`.
pub open spec fn place_of(ordered: Seq<(Seq<char>, Seq<u8>)>, code: Seq<u8>) -> int {
    choose|place: int| 0 <= place < ordered.len() && ordered[place].1 == code
}

/// The opcode sequence of the symbol that stands `key` places behind the one
/// of `code`, past the last starting again from the first.
pub open spec fn shifted(ordered: Seq<(Seq<char>, Seq<u8>)>, code: Seq<u8>, key: nat) -> Seq<u8> {
    ordered[(place_of(ordered, code) + key) % (ordered.len() as int)].1
}

/// The plain text cut into symbols, each symbol moved `key` places up in the
/// canonical order of the alphabet, and the whole put together again.
pub open spec fn alphabet_shift(symbols: Seq<(Seq<char>, Seq<u8>)>, plain: Seq<u8>, key: nat) -> Seq<
    u8,
> {
    greedy(codes(symbols), plain)->Ok_0.map_values(
        |code: Seq<u8>| shifted(canonical(symbols), code, key),
    ).flatten()
}

/// The Caesar cipher: every opcode, or every symbol, moved by the same
/// number of places.
pub struct CaesarNumberAlgorithm {
    /// Alphabet used by the caesar number encryption algorithm.
    pub alphabet: Alphabet,
}

/// The place in `ordered` of the symbol whose opcode sequence is `code`.
fn position(ordered: &Vec<(String, Vec<u8>)>, code: &Vec<u8>) -> (place: usize)
    requires
        exists|p: int| 0 <= p < ordered@.len() && (#[trigger] symbol_pairs(ordered@)[p]).1 == code@,
        well_formed(symbol_pairs(ordered@)),
    ensures
        place < ordered@.len(),
        place == place_of(symbol_pairs(ordered@), code@),
{
    let ghost pairs = symbol_pairs(ordered@);
    let mut place: usize = 0;
    while place < ordered.len()
        invariant
            place <= ordered@.len(),
            pairs == symbol_pairs(ordered@),
            well_formed(pairs),
            forall|p: int| 0 <= p < place ==> (#[trigger] pairs[p]).1 != code@,
            exists|p: int| 0 <= p < ordered@.len() && (#[trigger] pairs[p]).1 == code@,
        decreases ordered.len() - place,
    {
        if same_opcodes(&ordered[place].1, code) {
            proof {
                assert(pairs[place as int].1 == code@);
                let chosen = place_of(pairs, code@);
                if chosen < place {
                    assert(pairs[chosen].1 != pairs[place as int].1);
                } else if chosen > place {
                    assert(pairs[place as int].1 != pairs[chosen].1);
                }
            }
            return place;
        }
        place += 1;
    }
    proof {
        let p = choose|p: int| 0 <= p < ordered@.len() && (#[trigger] pairs[p]).1 == code@;
        assert(pairs[p].1 != code@);
    }
    place
}

impl CaesarNumberAlgorithm {
    /// The cipher over `alphabet`.
    pub fn new(alphabet: Alphabet) -> (algorithm: Self)
        ensures
            algorithm.alphabet == alphabet,
    {
        CaesarNumberAlgorithm { alphabet }
    }

    /// Encrypt the plain text with the caesar number encryption algorithm.
    ///
    /// Each opcode of the `plain_text` is shifted by `key` in its numeric
    /// value. Past 254 the cipher text continues from 0.
    pub fn encrypt_by_opcode_shift(&self, plain_text: Vec<u8>, key: u32) -> (cipher_text: Vec<u8>)
        ensures
            cipher_text@ == opcode_shift(plain_text@, key as nat),
    {
        let mut result: Vec<u8> = Vec::new();
        let mut i: usize = 0;
        while i < plain_text.len()
            invariant
                i <= plain_text.len(),
                result@ == opcode_shift(plain_text@.take(i as int), key as nat),
            decreases plain_text.len() - i,
        {
            let character: u8 = ((plain_text[i] as u64 + key as u64) % 255) as u8;
            result.push(character);
            assert(result@ =~= opcode_shift(plain_text@.take(i + 1), key as nat));
            i += 1;
        }
        assert(plain_text@.take(i as int) =~= plain_text@);
        result
    }

    /// Encrypt the plain text with the caesar number encryption algorithm.
    ///
    /// Each symbol of the `plain_text` is shifted by `key` places in the
    /// alphabet, taken in canonical order. Past the last symbol the cipher
    /// text continues from the start of the alphabet. The plain text has to
    /// be made of the alphabet's symbols.
    pub fn encrypt_by_alphabet_shift(&self, plain_text: Vec<u8>, key: u32) -> (cipher_text: Vec<u8>)
        requires
            greedy(codes(self.alphabet@), plain_text@) is Ok,
        ensures
            cipher_text@ == alphabet_shift(self.alphabet@, plain_text@, key as nat),
    {
        let ghost symbols = self.alphabet@;
        let plain_unified_opcodes = match split_bytes_by_characters_representation(
            &self.alphabet,
            &plain_text,
        ) {
            Ok(tokens) => tokens,
            Err(_) => Vec::new(),
        };
        let ordered_alphabet = self.alphabet.canonical_order();
        let ghost plain = opcode_groups(plain_unified_opcodes@);
        let ghost ordered = symbol_pairs(ordered_alphabet@);
        proof {
            use_type_invariant(&self.alphabet);
            lemma_canonical_order(symbols);
            lemma_round_trip(codes(symbols), plain_text@);
        }
        let size = ordered_alphabet.len();
        let mut cipher_unified_opcodes: Vec<Vec<u8>> = Vec::new();
        let mut i: usize = 0;
        while i < plain_unified_opcodes.len()
            invariant
                i <= plain_unified_opcodes.len(),
                size == ordered_alphabet@.len(),
                symbols == self.alphabet@,
                well_formed(symbols),
                plain == opcode_groups(plain_unified_opcodes@),
                ordered == symbol_pairs(ordered_alphabet@),
                ordered == canonical(symbols),
                well_formed(ordered),
                forall|k: int| 0 <= k < plain.len() ==> codes(symbols).contains(#[trigger] plain[k]),
                forall|k: int| 0 <= k < symbols.len() ==> ordered.contains(#[trigger] symbols[k]),
                opcode_groups(cipher_unified_opcodes@) == plain.take(i as int).map_values(
                    |code: Seq<u8>| shifted(ordered, code, key as nat),
                ),
            decreases plain_unified_opcodes.len() - i,
        {
            let opcode = &plain_unified_opcodes[i];
            proof {
                assert(codes(symbols).contains(plain[i as int]));
                let k = choose|k: int| 0 <= k < symbols.len() && codes(symbols)[k] == plain[i as int];
                assert(ordered.contains(symbols[k]));
                let p = choose|p: int| 0 <= p < ordered.len() && ordered[p] == symbols[k];
                assert(ordered[p].1 == opcode@);
            }
            let plain_text_position = position(&ordered_alphabet, opcode);
            let cipher_text_position = ((plain_text_position as u128 + key as u128) % (
            size as u128)) as usize;
            let shifted_opcode = ordered_alphabet[cipher_text_position].1.clone();
            let ghost before = opcode_groups(cipher_unified_opcodes@);
            cipher_unified_opcodes.push(shifted_opcode);
            proof {
                assert(shifted_opcode@ == shifted(ordered, plain[i as int], key as nat));
                assert(opcode_groups(cipher_unified_opcodes@) =~= before.push(shifted_opcode@));
                assert(plain.take(i + 1).map_values(
                    |code: Seq<u8>| shifted(ordered, code, key as nat),
                ) =~= before.push(shifted_opcode@));
            }
            i += 1;
        }
        assert(plain.take(i as int) =~= plain);
        uniffy_opcode_group(cipher_unified_opcodes)
    }
}

} // verus!
