//! The canonical order of an alphabet: its symbols sorted by name.

use crate::utils::alphabets::{symbol_pairs, well_formed, Alphabet};
use crate::utils::lexicographic::{
    byte_rank, char_rank, lemma_byte_rank_injective, lemma_char_rank_injective,
    lemma_lex_antisymmetric, lemma_lex_connected, lemma_lex_reflexive, lemma_lex_transitive,
    name_leq, opcodes_leq,
};
use itertools::Itertools;
use vstd::prelude::*;
use vstd::relations::{sorted_by, total_ordering};
use vstd::seq_lib::{group_to_multiset_ensures, lemma_sorted_unique};

verus! {

/// The order of symbols: by name, and by opcode sequence where the names are
/// the same.
pub open spec fn symbol_leq(a: (Seq<char>, Seq<u8>), b: (Seq<char>, Seq<u8>)) -> bool {
    if a.0 == b.0 {
        opcodes_leq(a.1, b.1)
    } else {
        name_leq(a.0, b.0)
    }
}

/// `symbol_leq` as a relation.
pub open spec fn symbol_order() -> spec_fn((Seq<char>, Seq<u8>), (Seq<char>, Seq<u8>)) -> bool {
    |a: (Seq<char>, Seq<u8>), b: (Seq<char>, Seq<u8>)| symbol_leq(a, b)
}

/// The symbols in canonical order: sorted by name.
pub open spec fn canonical(symbols: Seq<(Seq<char>, Seq<u8>)>) -> Seq<(Seq<char>, Seq<u8>)> {
    symbols.sort_by(symbol_order())
}

/// The order of symbols is total.
pub proof fn lemma_symbol_order_total()
    ensures
        total_ordering(symbol_order()),
{
    let r = symbol_order();
    lemma_byte_rank_injective();
    lemma_char_rank_injective();
    assert forall|x: (Seq<char>, Seq<u8>)| #[trigger] r(x, x) by {
        lemma_lex_reflexive(x.1, byte_rank());
    }
    assert forall|x: (Seq<char>, Seq<u8>), y: (Seq<char>, Seq<u8>)| #[trigger]
        r(x, y) && #[trigger] r(y, x) implies x == y by {
        if x.0 == y.0 {
            lemma_lex_antisymmetric(x.1, y.1, byte_rank());
        } else {
            lemma_lex_antisymmetric(x.0, y.0, char_rank());
        }
    }
    assert forall|x: (Seq<char>, Seq<u8>), y: (Seq<char>, Seq<u8>)| #[trigger]
        r(x, y) || #[trigger] r(y, x) by {
        lemma_lex_connected(x.1, y.1, byte_rank());
        lemma_lex_connected(x.0, y.0, char_rank());
    }
    assert forall|x: (Seq<char>, Seq<u8>), y: (Seq<char>, Seq<u8>), z: (Seq<char>, Seq<u8>)|
        #[trigger] r(x, y) && #[trigger] r(y, z) implies r(x, z) by {
        if x.0 == y.0 && y.0 == z.0 {
            lemma_lex_transitive(x.1, y.1, z.1, byte_rank());
        } else if x.0 != y.0 && y.0 != z.0 {
            lemma_lex_transitive(x.0, y.0, z.0, char_rank());
            if x.0 == z.0 {
                lemma_lex_antisymmetric(x.0, y.0, char_rank());
            }
        }
    }
}

/// The canonical order holds the symbols of the alphabet, each once, by
/// strictly ascending name; it is an alphabet again.
pub proof fn lemma_canonical_order(symbols: Seq<(Seq<char>, Seq<u8>)>)
    requires
        well_formed(symbols),
    ensures
        canonical(symbols).to_multiset() == symbols.to_multiset(),
        canonical(symbols).len() == symbols.len(),
        well_formed(canonical(symbols)),
        forall|i: int, j: int|
            0 <= i < j < symbols.len() ==> name_leq(
                #[trigger] canonical(symbols)[i].0,
                #[trigger] canonical(symbols)[j].0,
            ),
        forall|i: int| 0 <= i < symbols.len() ==> symbols.contains(#[trigger] canonical(symbols)[i]),
        forall|i: int| 0 <= i < symbols.len() ==> canonical(symbols).contains(#[trigger] symbols[i]),
{
    broadcast use group_to_multiset_ensures;

    let c = canonical(symbols);
    lemma_symbol_order_total();
    symbols.lemma_sort_by_ensures(symbol_order());
    assert(symbols.no_duplicates()) by {
        assert forall|i: int, j: int|
            0 <= i < symbols.len() && 0 <= j < symbols.len() && i != j implies symbols[i]
            != symbols[j] by {
            if i < j {
                assert(symbols[i].0 != symbols[j].0);
            } else {
                assert(symbols[j].0 != symbols[i].0);
            }
        }
    }
    symbols.lemma_multiset_has_no_duplicates();
    c.lemma_multiset_has_no_duplicates_conv();
    assert(c.len() == symbols.len()) by {
        vstd::seq_lib::to_multiset_len(c);
        vstd::seq_lib::to_multiset_len(symbols);
    }
    assert forall|i: int| 0 <= i < c.len() implies symbols.contains(#[trigger] c[i]) by {
        assert(c.to_multiset().contains(c[i]));
    }
    assert forall|i: int| 0 <= i < symbols.len() implies c.contains(#[trigger] symbols[i]) by {
        assert(symbols.to_multiset().contains(symbols[i]));
    }
    assert forall|i: int, j: int| 0 <= i < j < c.len() implies c[i].0 != c[j].0 && c[i].1
        != c[j].1 by {
        assert(symbols.contains(c[i]));
        assert(symbols.contains(c[j]));
        let a = choose|a: int| 0 <= a < symbols.len() && symbols[a] == c[i];
        let b = choose|b: int| 0 <= b < symbols.len() && symbols[b] == c[j];
        assert(c[i] != c[j]);
        if a < b {
            assert(symbols[a].0 != symbols[b].0 && symbols[a].1 != symbols[b].1);
        } else {
            assert(symbols[b].0 != symbols[a].0 && symbols[b].1 != symbols[a].1);
        }
    }
    assert forall|a: int| 0 <= a < c.len() implies (#[trigger] c[a]).1.len() > 0 by {
        assert(symbols.contains(c[a]));
        let k = choose|k: int| 0 <= k < symbols.len() && symbols[k] == c[a];
        assert(symbols[k].1.len() > 0);
    }
    assert forall|i: int, j: int| 0 <= i < j < symbols.len() implies name_leq(
        #[trigger] c[i].0,
        #[trigger] c[j].0,
    ) by {
        assert(symbol_order()(c[i], c[j]));
        assert(c[i].0 != c[j].0);
    }
}

/// The canonical order depends on which symbols an alphabet holds, not on
/// the order in which they were given.
pub proof fn lemma_canonical_order_unique(
    one: Seq<(Seq<char>, Seq<u8>)>,
    other: Seq<(Seq<char>, Seq<u8>)>,
)
    requires
        one.to_multiset() == other.to_multiset(),
    ensures
        canonical(one) == canonical(other),
{
    lemma_symbol_order_total();
    one.lemma_sort_by_ensures(symbol_order());
    other.lemma_sort_by_ensures(symbol_order());
    lemma_sorted_unique(canonical(one), canonical(other), symbol_order());
}

/// The symbols sorted by `itertools::Itertools::sorted`, which collects them
/// and sorts them with the order that `Ord` gives a pair of a `String` and a
/// `Vec<u8>`. Taken on trust: what comes back holds the same symbols as often,
/// and ascends in that order (strings lexicographically by code point, then
/// byte vectors lexicographically).
#[verifier::external_body]
fn sorted_symbols(symbols: &Vec<(String, Vec<u8>)>) -> (sorted: Vec<(String, Vec<u8>)>)
    ensures
        symbol_pairs(sorted@).to_multiset() == symbol_pairs(symbols@).to_multiset(),
        forall|i: int, j: int|
            0 <= i < j < sorted@.len() ==> symbol_leq(
                #[trigger] symbol_pairs(sorted@)[i],
                #[trigger] symbol_pairs(sorted@)[j],
            ),
{
    symbols.iter().cloned().sorted().collect()
}

impl Alphabet {
    /// The symbols in canonical order, each with its opcode sequence: the
    /// symbols of the alphabet, each once, by strictly ascending name.
    pub fn canonical_order(&self) -> (ordered: Vec<(String, Vec<u8>)>)
        ensures
            symbol_pairs(ordered@) == canonical(self@),
            ordered@.len() == self@.len(),
            symbol_pairs(ordered@).to_multiset() == self@.to_multiset(),
            forall|i: int, j: int|
                0 <= i < j < ordered@.len() ==> name_leq(
                    #[trigger] symbol_pairs(ordered@)[i].0,
                    #[trigger] symbol_pairs(ordered@)[j].0,
                ) && symbol_pairs(ordered@)[i].0 != symbol_pairs(ordered@)[j].0,
    {
        let ordered = sorted_symbols(self.symbols());
        proof {
            lemma_symbol_order_total();
            self@.lemma_sort_by_ensures(symbol_order());
            assert(sorted_by(symbol_pairs(ordered@), symbol_order()));
            lemma_sorted_unique(symbol_pairs(ordered@), canonical(self@), symbol_order());
            lemma_canonical_order(self@);
        }
        ordered
    }
}

} // verus!
