//! The index of coincidence: the probability that two symbols drawn from a
//! text are the same.

use crate::cryptanalysis::general_cryptanalysis_methods::frequency_analysis::distribution_algorithms::statistical::{
    lemma_occurrences_bound, occurrences, occurrences_of,
};
use crate::cryptanalysis::general_cryptanalysis_methods::frequency_analysis::{
    AnalysisError, StatisticalError,
};
use crate::utils::alphabets::{codes, opcode_groups, symbol_pairs, well_formed, Alphabet};
use crate::utils::ratio::Ratio;
use crate::utils::segmentation::{
    greedy, split_bytes_by_characters_representation, SegmentationError,
};
use vstd::prelude::*;

verus! {

/// The number of ordered pairs of two of `n` tokens.
pub open spec fn pairs(n: nat) -> nat {
    (n * (n - 1)) as nat
}

/// The sum, over the symbols of the alphabet, of `n * (n - 1)`, where `n` is
/// the number of the symbol's occurrences among `tokens`.
pub open spec fn coincidences(codes: Seq<Seq<u8>>, tokens: Seq<Seq<u8>>) -> nat
    decreases codes.len(),
{
    if codes.len() == 0 {
        0
    } else {
        coincidences(codes.drop_last(), tokens) + pairs(occurrences(tokens, codes.last()))
    }
}

/// The number of tokens that are symbols of the alphabet: the sum of the
/// symbols' occurrences.
pub open spec fn covered(codes: Seq<Seq<u8>>, tokens: Seq<Seq<u8>>) -> nat
    decreases codes.len(),
{
    if codes.len() == 0 {
        0
    } else {
        covered(codes.drop_last(), tokens) + occurrences(tokens, codes.last())
    }
}

/// How many of `codes` are `symbol`.
pub open spec fn hits(codes: Seq<Seq<u8>>, symbol: Seq<u8>) -> nat
    decreases codes.len(),
{
    if codes.len() == 0 {
        0
    } else {
        hits(codes.drop_last(), symbol) + if codes.last() == symbol {
            1nat
        } else {
            0nat
        }
    }
}

/// `index` is the index of coincidence of `tokens` over the symbols `codes`:
/// the coincidences over the pairs of tokens.
pub open spec fn is_index_of(index: Ratio, codes: Seq<Seq<u8>>, tokens: Seq<Seq<u8>>) -> bool {
    &&& index.numerator == coincidences(codes, tokens)
    &&& index.denominator == pairs(tokens.len())
}

/// The opcode sequences of an alphabet are distinct.
pub proof fn lemma_codes_no_duplicates(symbols: Seq<(Seq<char>, Seq<u8>)>)
    requires
        well_formed(symbols),
    ensures
        codes(symbols).no_duplicates(),
{
    let cs = codes(symbols);
    assert forall|i: int, j: int| 0 <= i < cs.len() && 0 <= j < cs.len() && i != j implies cs[i]
        != cs[j] by {
        if i < j {
            assert(symbols[i].1 != symbols[j].1);
        } else {
            assert(symbols[j].1 != symbols[i].1);
        }
    }
}

proof fn lemma_hits(codes: Seq<Seq<u8>>, symbol: Seq<u8>)
    requires
        codes.no_duplicates(),
    ensures
        hits(codes, symbol) == if codes.contains(symbol) {
            1nat
        } else {
            0nat
        },
    decreases codes.len(),
{
    if codes.len() > 0 {
        let front = codes.drop_last();
        assert forall|i: int, j: int|
            0 <= i < front.len() && 0 <= j < front.len() && i != j implies front[i] != front[j] by {
            assert(front[i] == codes[i] && front[j] == codes[j]);
        }
        lemma_hits(front, symbol);
        if codes.last() == symbol {
            if front.contains(symbol) {
                let k = choose|k: int| 0 <= k < front.len() && front[k] == symbol;
                assert(codes[k] == codes[codes.len() - 1]);
            }
            assert(codes[codes.len() - 1] == symbol);
        } else if front.contains(symbol) {
            let k = choose|k: int| 0 <= k < front.len() && front[k] == symbol;
            assert(codes[k] == symbol);
        } else if codes.contains(symbol) {
            let k = choose|k: int| 0 <= k < codes.len() && codes[k] == symbol;
            assert(front[k] == symbol);
        }
    }
}

proof fn lemma_covered_step(codes: Seq<Seq<u8>>, tokens: Seq<Seq<u8>>)
    requires
        tokens.len() > 0,
    ensures
        covered(codes, tokens) == covered(codes, tokens.drop_last()) + hits(codes, tokens.last()),
    decreases codes.len(),
{
    if codes.len() > 0 {
        lemma_covered_step(codes.drop_last(), tokens);
    }
}

/// With distinct symbols, no token is counted twice; and where every token is
/// a symbol, each is counted.
pub proof fn lemma_covered(codes: Seq<Seq<u8>>, tokens: Seq<Seq<u8>>)
    requires
        codes.no_duplicates(),
    ensures
        covered(codes, tokens) <= tokens.len(),
        (forall|k: int| 0 <= k < tokens.len() ==> codes.contains(#[trigger] tokens[k])) ==> covered(
            codes,
            tokens,
        ) == tokens.len(),
    decreases tokens.len(),
{
    if tokens.len() == 0 {
        lemma_covered_empty(codes, tokens);
    } else {
        let front = tokens.drop_last();
        lemma_covered(codes, front);
        lemma_covered_step(codes, tokens);
        lemma_hits(codes, tokens.last());
        if forall|k: int| 0 <= k < tokens.len() ==> codes.contains(#[trigger] tokens[k]) {
            assert forall|k: int| 0 <= k < front.len() implies codes.contains(
                #[trigger] front[k],
            ) by {
                assert(front[k] == tokens[k]);
            }
            assert(codes.contains(tokens[tokens.len() - 1]));
        }
    }
}

proof fn lemma_covered_empty(codes: Seq<Seq<u8>>, tokens: Seq<Seq<u8>>)
    requires
        tokens.len() == 0,
    ensures
        covered(codes, tokens) == 0,
    decreases codes.len(),
{
    if codes.len() > 0 {
        lemma_covered_empty(codes.drop_last(), tokens);
    }
}

proof fn lemma_pairs_monotone(a: nat, b: nat)
    requires
        a <= b,
    ensures
        pairs(a) <= pairs(b),
{
    assert(0 <= a * (a - 1) <= b * (b - 1)) by (nonlinear_arith)
        requires
            0 <= a <= b,
    ;
}

proof fn lemma_pairs_sum(a: nat, b: nat)
    ensures
        pairs(a) + pairs(b) <= pairs(a + b),
{
    assert(a * (a - 1) + b * (b - 1) <= (a + b) * (a + b - 1)) by (nonlinear_arith)
        requires
            0 <= a,
            0 <= b,
    ;
    assert(a * (a - 1) >= 0) by (nonlinear_arith)
        requires
            0 <= a,
    ;
    assert(b * (b - 1) >= 0) by (nonlinear_arith)
        requires
            0 <= b,
    ;
}

proof fn lemma_coincidences_covered(codes: Seq<Seq<u8>>, tokens: Seq<Seq<u8>>)
    ensures
        coincidences(codes, tokens) <= pairs(covered(codes, tokens)),
    decreases codes.len(),
{
    if codes.len() > 0 {
        lemma_coincidences_covered(codes.drop_last(), tokens);
        lemma_pairs_sum(covered(codes.drop_last(), tokens), occurrences(tokens, codes.last()));
    }
}

/// The index of coincidence lies between 0 and 1: there are no more
/// coincidences than pairs of tokens, and of two tokens or more there is a
/// pair.
pub proof fn lemma_index_bounds(codes: Seq<Seq<u8>>, tokens: Seq<Seq<u8>>)
    requires
        codes.no_duplicates(),
    ensures
        coincidences(codes, tokens) <= pairs(tokens.len()),
        tokens.len() >= 2 ==> pairs(tokens.len()) > 0,
{
    lemma_coincidences_covered(codes, tokens);
    lemma_covered(codes, tokens);
    lemma_pairs_monotone(covered(codes, tokens), tokens.len());
    let n = tokens.len();
    assert(n >= 2 ==> n * (n - 1) > 0) by (nonlinear_arith);
}

/// A text has one index of coincidence only: the result of the analysis is
/// determined by the alphabet and the tokens.
pub proof fn lemma_index_unique(one: Ratio, other: Ratio, codes: Seq<Seq<u8>>, tokens: Seq<Seq<u8>>)
    requires
        is_index_of(one, codes, tokens),
        is_index_of(other, codes, tokens),
    ensures
        one == other,
{
}

/// In a text of one symbol of the alphabet, repeated, every pair of tokens
/// is a coincidence: where the text has two tokens or more, its index of
/// coincidence is 1.
pub proof fn lemma_index_of_one_symbol(codes: Seq<Seq<u8>>, tokens: Seq<Seq<u8>>, symbol: Seq<u8>)
    requires
        codes.no_duplicates(),
        codes.contains(symbol),
        forall|k: int| 0 <= k < tokens.len() ==> #[trigger] tokens[k] == symbol,
    ensures
        coincidences(codes, tokens) == pairs(tokens.len()),
{
    lemma_one_symbol(codes, tokens, symbol);
}

proof fn lemma_occurrences_of_one_symbol(tokens: Seq<Seq<u8>>, symbol: Seq<u8>, other: Seq<u8>)
    requires
        forall|k: int| 0 <= k < tokens.len() ==> #[trigger] tokens[k] == symbol,
    ensures
        occurrences(tokens, other) == if other == symbol {
            tokens.len()
        } else {
            0
        },
    decreases tokens.len(),
{
    if tokens.len() > 0 {
        let front = tokens.drop_last();
        assert forall|k: int| 0 <= k < front.len() implies #[trigger] front[k] == symbol by {
            assert(front[k] == tokens[k]);
        }
        lemma_occurrences_of_one_symbol(front, symbol, other);
        assert(tokens[tokens.len() - 1] == symbol);
    }
}

proof fn lemma_one_symbol(codes: Seq<Seq<u8>>, tokens: Seq<Seq<u8>>, symbol: Seq<u8>)
    requires
        codes.no_duplicates(),
        forall|k: int| 0 <= k < tokens.len() ==> #[trigger] tokens[k] == symbol,
    ensures
        coincidences(codes, tokens) == if codes.contains(symbol) {
            pairs(tokens.len())
        } else {
            0
        },
    decreases codes.len(),
{
    if codes.len() > 0 {
        let front = codes.drop_last();
        assert forall|i: int, j: int|
            0 <= i < front.len() && 0 <= j < front.len() && i != j implies front[i] != front[j] by {
            assert(front[i] == codes[i] && front[j] == codes[j]);
        }
        lemma_one_symbol(front, tokens, symbol);
        lemma_occurrences_of_one_symbol(tokens, symbol, codes.last());
        assert(pairs(0) == 0);
        if codes.last() == symbol {
            if front.contains(symbol) {
                let k = choose|k: int| 0 <= k < front.len() && front[k] == symbol;
                assert(codes[k] == codes[codes.len() - 1]);
            }
            assert(codes[codes.len() - 1] == symbol);
        } else if front.contains(symbol) {
            let k = choose|k: int| 0 <= k < front.len() && front[k] == symbol;
            assert(codes[k] == symbol);
        } else if codes.contains(symbol) {
            let k = choose|k: int| 0 <= k < codes.len() && codes[k] == symbol;
            assert(front[k] == symbol);
        }
    }
}

proof fn lemma_even_counts(codes: Seq<Seq<u8>>, tokens: Seq<Seq<u8>>, each: nat)
    requires
        forall|i: int| 0 <= i < codes.len() ==> occurrences(tokens, #[trigger] codes[i]) == each,
    ensures
        coincidences(codes, tokens) == codes.len() * pairs(each),
        covered(codes, tokens) == codes.len() * each,
    decreases codes.len(),
{
    if codes.len() > 0 {
        let front = codes.drop_last();
        assert forall|i: int| 0 <= i < front.len() implies occurrences(tokens, #[trigger] front[i])
            == each by {
            assert(front[i] == codes[i]);
        }
        lemma_even_counts(front, tokens, each);
        assert(occurrences(tokens, codes[codes.len() - 1]) == each);
        let m = codes.len();
        assert((m - 1) * pairs(each) + pairs(each) == m * pairs(each)) by (nonlinear_arith);
        assert((m - 1) * each + each == m * each) by (nonlinear_arith);
    }
}

/// In a text in which each of the `m` symbols of the alphabet occurs `each`
/// times and nothing else occurs, there are `m * each` tokens and
/// `m * each * (each - 1)` coincidences: the index of coincidence is
/// `(each - 1) / (m * each - 1)`, which comes as near to `1 / m` as one
/// likes when `each` grows.
pub proof fn lemma_index_of_even_text(codes: Seq<Seq<u8>>, tokens: Seq<Seq<u8>>, each: nat)
    requires
        codes.no_duplicates(),
        forall|k: int| 0 <= k < tokens.len() ==> codes.contains(#[trigger] tokens[k]),
        forall|i: int| 0 <= i < codes.len() ==> occurrences(tokens, #[trigger] codes[i]) == each,
    ensures
        tokens.len() == codes.len() * each,
        coincidences(codes, tokens) == codes.len() * pairs(each),
        coincidences(codes, tokens) * (tokens.len() - 1) == pairs(tokens.len()) * (each - 1),
{
    lemma_even_counts(codes, tokens, each);
    lemma_covered(codes, tokens);
    let m = codes.len();
    let n = tokens.len();
    assert((m * (each * (each - 1))) * (m * each - 1) == ((m * each) * (m * each - 1)) * (each - 1))
        by (nonlinear_arith);
    assert(each * (each - 1) >= 0) by (nonlinear_arith);
    assert(n * (n - 1) >= 0) by (nonlinear_arith);
}

/// The index of coincidence of a token sequence over the symbols of an
/// alphabet, as an exact fraction. There is none for fewer than two tokens.
pub fn index_of_coincidence(alphabet: &Alphabet, tokens: &Vec<Vec<u8>>) -> (r: Result<
    Ratio,
    StatisticalError,
>)
    ensures
        match r {
            Ok(index) => {
                &&& tokens@.len() >= 2
                &&& is_index_of(index, codes(alphabet@), opcode_groups(tokens@))
                &&& index.is_probability()
            },
            Err(error) => error == StatisticalError::InsufficientSample && tokens@.len() < 2,
        },
{
    let size = tokens.len();
    if size < 2 {
        return Err(StatisticalError::InsufficientSample);
    }
    let symbols = alphabet.symbols();
    let ghost cs = codes(alphabet@);
    let ghost toks = opcode_groups(tokens@);
    proof {
        lemma_codes_no_duplicates(alphabet@);
        assert(size * (size - 1) <= 0xFFFF_FFFF_FFFF_FFFF * 0xFFFF_FFFF_FFFF_FFFF)
            by (nonlinear_arith)
            requires
                2 <= size <= 0xFFFF_FFFF_FFFF_FFFF,
        ;
        assert(size * (size - 1) > 0) by (nonlinear_arith)
            requires
                2 <= size,
        ;
    }
    let all_pairs: u128 = (size as u128) * ((size - 1) as u128);
    let mut sum: u128 = 0;
    let mut i: usize = 0;
    while i < symbols.len()
        invariant
            i <= symbols.len(),
            size == tokens@.len(),
            size >= 2,
            cs == codes(alphabet@),
            cs.len() == symbols@.len(),
            symbol_pairs(symbols@) == alphabet@,
            cs.no_duplicates(),
            toks == opcode_groups(tokens@),
            all_pairs == pairs(size as nat),
            sum == coincidences(cs.take(i as int), toks),
        decreases symbols.len() - i,
    {
        let n = occurrences_of(tokens, &symbols[i].1);
        proof {
            let next = cs.take(i + 1);
            assert(next.drop_last() =~= cs.take(i as int));
            assert(next.last() == symbols@[i as int].1@);
            assert forall|a: int, b: int|
                0 <= a < next.len() && 0 <= b < next.len() && a != b implies next[a]
                != next[b] by {
                assert(next[a] == cs[a] && next[b] == cs[b]);
            }
            lemma_index_bounds(next, toks);
            lemma_occurrences_bound(toks, symbols@[i as int].1@);
            assert(n * (n - 1) >= 0) by (nonlinear_arith)
                requires
                    0 <= n,
            ;
        }
        let term: u128 = if n == 0 {
            0
        } else {
            (n as u128) * ((n - 1) as u128)
        };
        assert(term == pairs(n as nat)) by {
            assert(pairs(0) == 0);
        }
        assert(coincidences(cs.take(i + 1), toks) == sum + term);
        sum = sum + term;
        i += 1;
    }
    proof {
        assert(cs.take(i as int) =~= cs);
        lemma_index_bounds(cs, toks);
    }
    Ok(Ratio { numerator: sum, denominator: all_pairs })
}

/// The index of coincidence of cipher texts written in one alphabet.
pub struct CoincidenceIndexGuesser {
    /// Alphabet in which the cipher text is read.
    pub alphabet: Alphabet,
}

impl CoincidenceIndexGuesser {
    /// The guesser for texts written in `alphabet`.
    pub fn new(alphabet: Alphabet) -> (guesser: Self)
        ensures
            guesser.alphabet == alphabet,
    {
        CoincidenceIndexGuesser { alphabet }
    }

    /// The index of coincidence of the cipher text, as an exact fraction.
    /// Fails where the cipher text is not made of the alphabet's symbols or
    /// holds fewer than two of them.
    pub fn guess_coincidence_index(&self, cipher_text: Vec<u8>) -> (r: Result<Ratio, AnalysisError>)
        ensures
            match r {
                Ok(index) => {
                    &&& greedy(codes(self.alphabet@), cipher_text@) is Ok
                    &&& greedy(codes(self.alphabet@), cipher_text@)->Ok_0.len() >= 2
                    &&& is_index_of(
                        index,
                        codes(self.alphabet@),
                        greedy(codes(self.alphabet@), cipher_text@)->Ok_0,
                    )
                    &&& index.is_probability()
                },
                Err(AnalysisError::Segmentation(SegmentationError::UnmatchedOpcodeSequence { offset })) => greedy(
                    codes(self.alphabet@),
                    cipher_text@,
                ) == Err::<Seq<Seq<u8>>, nat>(offset as nat),
                Err(AnalysisError::Statistical(error)) => {
                    &&& error == StatisticalError::InsufficientSample
                    &&& greedy(codes(self.alphabet@), cipher_text@) is Ok
                    &&& greedy(codes(self.alphabet@), cipher_text@)->Ok_0.len() < 2
                },
            },
    {
        match split_bytes_by_characters_representation(&self.alphabet, &cipher_text) {
            Ok(tokens) => match index_of_coincidence(&self.alphabet, &tokens) {
                Ok(index) => Ok(index),
                Err(error) => Err(AnalysisError::Statistical(error)),
            },
            Err(error) => Err(AnalysisError::Segmentation(error)),
        }
    }
}

} // verus!
