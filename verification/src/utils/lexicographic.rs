//! Lexicographic order on sequences, as `str` and `Vec<u8>` are ordered.

use vstd::prelude::*;
use vstd::relations::{injective, total_ordering};

verus! {

/// `a` comes before `b`, or equals it, when both are read front to back and
/// single elements are compared by `rank`.
pub open spec fn lex_leq<A>(a: Seq<A>, b: Seq<A>, rank: spec_fn(A) -> int) -> bool
    decreases a.len(),
{
    if a.len() == 0 {
        true
    } else if b.len() == 0 {
        false
    } else if rank(a[0]) != rank(b[0]) {
        rank(a[0]) < rank(b[0])
    } else {
        lex_leq(a.drop_first(), b.drop_first(), rank)
    }
}

/// A byte ranks by its value.
pub open spec fn byte_rank() -> spec_fn(u8) -> int {
    |b: u8| b as int
}

/// A character ranks by its code point.
pub open spec fn char_rank() -> spec_fn(char) -> int {
    |c: char| c as int
}

/// Order of opcode sequences: lexicographic by byte value.
pub open spec fn opcodes_leq(a: Seq<u8>, b: Seq<u8>) -> bool {
    lex_leq(a, b, byte_rank())
}

/// Strict order of opcode sequences.
pub open spec fn opcodes_lt(a: Seq<u8>, b: Seq<u8>) -> bool {
    opcodes_leq(a, b) && a != b
}

/// Order of symbol names: lexicographic by code point.
pub open spec fn name_leq(a: Seq<char>, b: Seq<char>) -> bool {
    lex_leq(a, b, char_rank())
}

pub proof fn lemma_lex_reflexive<A>(a: Seq<A>, rank: spec_fn(A) -> int)
    ensures
        lex_leq(a, a, rank),
    decreases a.len(),
{
    if a.len() > 0 {
        lemma_lex_reflexive(a.drop_first(), rank);
    }
}

pub proof fn lemma_lex_connected<A>(a: Seq<A>, b: Seq<A>, rank: spec_fn(A) -> int)
    ensures
        lex_leq(a, b, rank) || lex_leq(b, a, rank),
    decreases a.len(),
{
    if a.len() > 0 && b.len() > 0 && rank(a[0]) == rank(b[0]) {
        lemma_lex_connected(a.drop_first(), b.drop_first(), rank);
    }
}

pub proof fn lemma_lex_antisymmetric<A>(a: Seq<A>, b: Seq<A>, rank: spec_fn(A) -> int)
    requires
        injective(rank),
        lex_leq(a, b, rank),
        lex_leq(b, a, rank),
    ensures
        a == b,
    decreases a.len(),
{
    if a.len() == 0 || b.len() == 0 {
        assert(a =~= b);
    } else {
        lemma_lex_antisymmetric(a.drop_first(), b.drop_first(), rank);
        assert(rank(a[0]) == rank(b[0]));
        assert(a[0] == b[0]);
        assert(a =~= seq![a[0]] + a.drop_first());
        assert(b =~= seq![b[0]] + b.drop_first());
    }
}

pub proof fn lemma_lex_transitive<A>(a: Seq<A>, b: Seq<A>, c: Seq<A>, rank: spec_fn(A) -> int)
    requires
        lex_leq(a, b, rank),
        lex_leq(b, c, rank),
    ensures
        lex_leq(a, c, rank),
    decreases a.len(),
{
    if a.len() > 0 && b.len() > 0 && c.len() > 0 && rank(a[0]) == rank(b[0]) && rank(b[0]) == rank(
        c[0],
    ) {
        lemma_lex_transitive(a.drop_first(), b.drop_first(), c.drop_first(), rank);
    }
}

/// Two sequences that agree on their first `n` elements compare as their
/// remainders do.
pub proof fn lemma_lex_skip_common<A>(a: Seq<A>, b: Seq<A>, rank: spec_fn(A) -> int, n: nat)
    requires
        n <= a.len(),
        n <= b.len(),
        forall|k: int| 0 <= k < n ==> a[k] == b[k],
    ensures
        lex_leq(a, b, rank) == lex_leq(a.skip(n as int), b.skip(n as int), rank),
    decreases n,
{
    if n == 0 {
        assert(a.skip(0) =~= a);
        assert(b.skip(0) =~= b);
    } else {
        lemma_lex_skip_common(a.drop_first(), b.drop_first(), rank, (n - 1) as nat);
        assert(a.drop_first().skip(n - 1) =~= a.skip(n as int));
        assert(b.drop_first().skip(n - 1) =~= b.skip(n as int));
    }
}

pub proof fn lemma_byte_rank_injective()
    ensures
        injective(byte_rank()),
{
}

pub proof fn lemma_char_rank_injective()
    ensures
        injective(char_rank()),
{
}

/// The order of opcode sequences is total.
pub proof fn lemma_opcodes_order(a: Seq<u8>, b: Seq<u8>, c: Seq<u8>)
    ensures
        opcodes_leq(a, a),
        opcodes_leq(a, b) || opcodes_leq(b, a),
        opcodes_leq(a, b) && opcodes_leq(b, a) ==> a == b,
        opcodes_leq(a, b) && opcodes_leq(b, c) ==> opcodes_leq(a, c),
        opcodes_lt(a, b) && opcodes_lt(b, c) ==> opcodes_lt(a, c),
        opcodes_lt(a, b) <==> !opcodes_leq(b, a),
{
    lemma_byte_rank_injective();
    lemma_lex_reflexive(a, byte_rank());
    lemma_lex_reflexive(b, byte_rank());
    lemma_lex_connected(a, b, byte_rank());
    if opcodes_leq(a, b) && opcodes_leq(b, a) {
        lemma_lex_antisymmetric(a, b, byte_rank());
    }
    if opcodes_leq(a, b) && opcodes_leq(b, c) {
        lemma_lex_transitive(a, b, c, byte_rank());
        if opcodes_leq(c, b) {
            lemma_lex_antisymmetric(b, c, byte_rank());
        }
        if a == c {
            lemma_lex_antisymmetric(a, b, byte_rank());
        }
    }
}

/// Decides the order of two opcode sequences.
pub fn opcodes_before_or_equal(a: &Vec<u8>, b: &Vec<u8>) -> (r: bool)
    ensures
        r == opcodes_leq(a@, b@),
{
    let mut i: usize = 0;
    while i < a.len() && i < b.len()
        invariant
            i <= a.len(),
            i <= b.len(),
            forall|k: int| 0 <= k < i ==> a@[k] == b@[k],
        decreases a.len() - i,
    {
        if a[i] != b[i] {
            proof {
                lemma_lex_skip_common(a@, b@, byte_rank(), i as nat);
            }
            return a[i] < b[i];
        }
        i += 1;
    }
    proof {
        lemma_lex_skip_common(a@, b@, byte_rank(), i as nat);
    }
    a.len() <= b.len()
}

} // verus!
