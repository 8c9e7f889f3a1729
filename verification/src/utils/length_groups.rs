//! Opcode sequences grouped by their length, the longest first.

use crate::utils::alphabets::{codes, length_groups, opcode_groups, symbol_pairs, Alphabet};
use vstd::prelude::*;

verus! {

/// The opcode sequences of length `l` among `codes`, in the order of `codes`.
pub open spec fn codes_of_length(codes: Seq<Seq<u8>>, l: nat) -> Seq<Seq<u8>>
    decreases codes.len(),
{
    if codes.len() == 0 {
        Seq::empty()
    } else {
        let before = codes_of_length(codes.drop_last(), l);
        if codes.last().len() == l {
            before.push(codes.last())
        } else {
            before
        }
    }
}

/// The length of the longest opcode sequence among `codes`.
pub open spec fn longest(codes: Seq<Seq<u8>>) -> nat
    decreases codes.len(),
{
    if codes.len() == 0 {
        0
    } else if codes.last().len() > longest(codes.drop_last()) {
        codes.last().len()
    } else {
        longest(codes.drop_last())
    }
}

/// The groups of the lengths `l`, `l - 1`, .. 1 in this order, without those
/// that would be empty.
pub open spec fn groups_from(codes: Seq<Seq<u8>>, l: nat) -> Seq<Seq<Seq<u8>>>
    decreases l,
{
    if l == 0 {
        Seq::empty()
    } else {
        let group = codes_of_length(codes, l);
        let shorter = groups_from(codes, (l - 1) as nat);
        if group.len() > 0 {
            seq![group] + shorter
        } else {
            shorter
        }
    }
}

/// The opcode sequences in groups of one length each, by descending length.
pub open spec fn by_length(codes: Seq<Seq<u8>>) -> Seq<Seq<Seq<u8>>> {
    groups_from(codes, longest(codes))
}

/// The groups are not empty, each holds opcode sequences of one length taken
/// from `codes`, the lengths descend strictly from group to group, and every
/// opcode sequence of `codes` is in a group.
pub open spec fn is_length_partition(groups: Seq<Seq<Seq<u8>>>, codes: Seq<Seq<u8>>) -> bool {
    &&& forall|g: int| 0 <= g < groups.len() ==> (#[trigger] groups[g]).len() > 0
    &&& forall|g: int, k: int|
        0 <= g < groups.len() && 0 <= k < groups[g].len() ==> codes.contains(
            #[trigger] groups[g][k],
        ) && groups[g][k].len() == groups[g][0].len()
    &&& forall|g: int, h: int|
        0 <= g < h < groups.len() ==> (#[trigger] groups[g])[0].len() > (#[trigger] groups[h])[0].len()
    &&& forall|i: int|
        0 <= i < codes.len() ==> exists|g: int, k: int|
            0 <= g < groups.len() && 0 <= k < groups[g].len() && #[trigger] groups[g][k]
                == #[trigger] codes[i]
}

/// A group of one length holds exactly the opcode sequences of that length.
pub proof fn lemma_codes_of_length(codes: Seq<Seq<u8>>, l: nat)
    ensures
        forall|k: int|
            0 <= k < codes_of_length(codes, l).len() ==> (#[trigger] codes_of_length(
                codes,
                l,
            )[k]).len() == l && codes.contains(codes_of_length(codes, l)[k]),
        forall|i: int|
            0 <= i < codes.len() && (#[trigger] codes[i]).len() == l ==> codes_of_length(
                codes,
                l,
            ).contains(codes[i]),
    decreases codes.len(),
{
    if codes.len() > 0 {
        let front = codes.drop_last();
        lemma_codes_of_length(front, l);
        let group = codes_of_length(codes, l);
        let before = codes_of_length(front, l);
        assert forall|k: int| 0 <= k < group.len() implies (#[trigger] group[k]).len() == l
            && codes.contains(group[k]) by {
            if k < before.len() {
                assert(group[k] == before[k]);
                assert(front.contains(before[k]));
                let i = choose|i: int| 0 <= i < front.len() && front[i] == before[k];
                assert(codes[i] == before[k]);
            } else {
                assert(codes[codes.len() - 1] == group[k]);
            }
        }
        assert forall|i: int| 0 <= i < codes.len() && (#[trigger] codes[i]).len()
            == l implies group.contains(codes[i]) by {
            if i < codes.len() - 1 {
                assert(front[i] == codes[i]);
                assert(before.contains(front[i]));
                let k = choose|k: int| 0 <= k < before.len() && before[k] == front[i];
                assert(group[k] == codes[i]);
            } else {
                assert(group[group.len() - 1] == codes[i]);
            }
        }
    }
}

/// No opcode sequence is longer than the longest, and one is as long.
pub proof fn lemma_longest(codes: Seq<Seq<u8>>)
    ensures
        forall|i: int| 0 <= i < codes.len() ==> (#[trigger] codes[i]).len() <= longest(codes),
        codes.len() > 0 ==> exists|i: int|
            0 <= i < codes.len() && (#[trigger] codes[i]).len() == longest(codes),
        codes.len() == 0 ==> longest(codes) == 0,
    decreases codes.len(),
{
    if codes.len() > 0 {
        let front = codes.drop_last();
        lemma_longest(front);
        assert forall|i: int| 0 <= i < codes.len() implies (#[trigger] codes[i]).len() <= longest(
            codes,
        ) by {
            if i < codes.len() - 1 {
                assert(front[i] == codes[i]);
            }
        }
        if codes.last().len() > longest(front) || front.len() == 0 {
            assert(codes[codes.len() - 1].len() == longest(codes));
        } else {
            let i = choose|i: int| 0 <= i < front.len() && (#[trigger] front[i]).len() == longest(
                front,
            );
            assert(codes[i].len() == longest(codes));
        }
    }
}

/// Lengths that no opcode sequence has add no group.
pub proof fn lemma_groups_skip(codes: Seq<Seq<u8>>, hi: nat, lo: nat)
    requires
        lo <= hi,
        forall|i: int|
            0 <= i < codes.len() ==> (#[trigger] codes[i]).len() <= lo || codes[i].len() > hi,
    ensures
        groups_from(codes, hi) == groups_from(codes, lo),
    decreases hi,
{
    if lo < hi {
        lemma_groups_skip(codes, (hi - 1) as nat, lo);
        lemma_codes_of_length(codes, hi);
        let group = codes_of_length(codes, hi);
        if group.len() > 0 {
            assert(codes.contains(group[0]));
            let i = choose|i: int| 0 <= i < codes.len() && codes[i] == group[0];
            assert(codes[i].len() == hi);
        }
    }
}

proof fn lemma_groups_from(codes: Seq<Seq<u8>>, l: nat)
    ensures
        forall|g: int|
            0 <= g < groups_from(codes, l).len() ==> {
                let group = #[trigger] groups_from(codes, l)[g];
                &&& group.len() > 0
                &&& 1 <= group[0].len() <= l
                &&& group == codes_of_length(codes, group[0].len())
            },
        forall|g: int, h: int|
            0 <= g < h < groups_from(codes, l).len() ==> (#[trigger] groups_from(
                codes,
                l,
            )[g])[0].len() > (#[trigger] groups_from(codes, l)[h])[0].len(),
        forall|n: nat|
            1 <= n <= l && codes_of_length(codes, n).len() > 0 ==> groups_from(codes, l).contains(
                #[trigger] codes_of_length(codes, n),
            ),
    decreases l,
{
    if l > 0 {
        let groups = groups_from(codes, l);
        let shorter = groups_from(codes, (l - 1) as nat);
        let group = codes_of_length(codes, l);
        lemma_groups_from(codes, (l - 1) as nat);
        lemma_codes_of_length(codes, l);
        if group.len() > 0 {
            assert(groups[0] == group);
            assert(group[0].len() == l);
            assert forall|g: int| 1 <= g < groups.len() implies #[trigger] groups[g] == shorter[g
                - 1] by {}
            assert forall|g: int| 0 <= g < groups.len() implies {
                let gr = #[trigger] groups[g];
                &&& gr.len() > 0
                &&& 1 <= gr[0].len() <= l
                &&& gr == codes_of_length(codes, gr[0].len())
            } by {
                if g > 0 {
                    assert(groups[g] == shorter[g - 1]);
                }
            }
            assert forall|g: int, h: int| 0 <= g < h < groups.len() implies (#[trigger] groups[g])[0].len()
                > (#[trigger] groups[h])[0].len() by {
                assert(groups[h] == shorter[h - 1]);
                if g > 0 {
                    assert(groups[g] == shorter[g - 1]);
                }
            }
            assert forall|n: nat| 1 <= n <= l && codes_of_length(codes, n).len()
                > 0 implies groups.contains(#[trigger] codes_of_length(codes, n)) by {
                if n < l {
                    assert(shorter.contains(codes_of_length(codes, n)));
                    let g = choose|g: int|
                        0 <= g < shorter.len() && shorter[g] == codes_of_length(codes, n);
                    assert(groups[g + 1] == shorter[g]);
                } else {
                    assert(groups[0] == codes_of_length(codes, n));
                }
            }
        } else {
            assert(groups == shorter);
        }
    }
}

/// Grouping by length parts the opcode sequences of an alphabet.
pub proof fn lemma_by_length_partition(codes: Seq<Seq<u8>>)
    requires
        forall|i: int| 0 <= i < codes.len() ==> (#[trigger] codes[i]).len() > 0,
    ensures
        is_length_partition(by_length(codes), codes),
{
    let groups = by_length(codes);
    lemma_longest(codes);
    lemma_groups_from(codes, longest(codes));
    assert forall|g: int, k: int| 0 <= g < groups.len() && 0 <= k < groups[g].len() implies codes.contains(
        #[trigger] groups[g][k],
    ) && groups[g][k].len() == groups[g][0].len() by {
        lemma_codes_of_length(codes, groups[g][0].len());
    }
    assert forall|i: int| 0 <= i < codes.len() implies exists|g: int, k: int|
        0 <= g < groups.len() && 0 <= k < groups[g].len() && #[trigger] groups[g][k]
            == #[trigger] codes[i] by {
        let n = codes[i].len();
        lemma_codes_of_length(codes, n);
        let group = codes_of_length(codes, n);
        assert(group.contains(codes[i]));
        let k = choose|k: int| 0 <= k < group.len() && group[k] == codes[i];
        assert(groups.contains(group));
        let g = choose|g: int| 0 <= g < groups.len() && groups[g] == group;
        assert(groups[g][k] == codes[i]);
    }
}

impl Alphabet {
    /// The greatest length up to `bound` that an opcode sequence has, or 0.
    fn longest_at_most(&self, bound: usize) -> (l: usize)
        ensures
            l <= bound,
            forall|i: int|
                0 <= i < self@.len() ==> (#[trigger] self@[i]).1.len() <= l || self@[i].1.len()
                    > bound,
            l == 0 || exists|i: int| 0 <= i < self@.len() && (#[trigger] self@[i]).1.len() == l,
    {
        let symbols = self.symbols();
        let mut l: usize = 0;
        let mut i: usize = 0;
        while i < symbols.len()
            invariant
                i <= symbols@.len(),
                symbol_pairs(symbols@) == self@,
                l <= bound,
                forall|k: int|
                    0 <= k < i ==> (#[trigger] self@[k]).1.len() <= l || self@[k].1.len() > bound,
                l == 0 || exists|k: int| 0 <= k < self@.len() && (#[trigger] self@[k]).1.len() == l,
            decreases symbols.len() - i,
        {
            let n = symbols[i].1.len();
            if n <= bound && n > l {
                l = n;
                assert(self@[i as int].1.len() == l);
            }
            i += 1;
        }
        l
    }

    /// The opcode sequences of length `l`.
    fn codes_with_length(&self, l: usize) -> (group: Vec<Vec<u8>>)
        ensures
            opcode_groups(group@) == codes_of_length(codes(self@), l as nat),
    {
        let symbols = self.symbols();
        let ghost cs = codes(self@);
        let mut group: Vec<Vec<u8>> = Vec::new();
        let mut i: usize = 0;
        assert(cs.take(0) =~= Seq::empty());
        while i < symbols.len()
            invariant
                i <= symbols@.len(),
                symbol_pairs(symbols@) == self@,
                cs == codes(self@),
                opcode_groups(group@) == codes_of_length(cs.take(i as int), l as nat),
            decreases symbols.len() - i,
        {
            assert(cs.take(i + 1).drop_last() =~= cs.take(i as int));
            assert(cs.take(i + 1).last() == self@[i as int].1);
            if symbols[i].1.len() == l {
                let code = symbols[i].1.clone();
                assert(code@ == symbols@[i as int].1@);
                let ghost before = opcode_groups(group@);
                group.push(code);
                assert(opcode_groups(group@) =~= before.push(code@));
            }
            i += 1;
        }
        assert(cs.take(i as int) =~= cs);
        group
    }

    /// The opcode sequences in groups of one length each, the longest first;
    /// within a group they stand in the order in which the alphabet was given.
    pub fn all_opcode_sequences_by_length(&self) -> (groups: Vec<Vec<Vec<u8>>>)
        ensures
            length_groups(groups@) == by_length(codes(self@)),
    {
        let symbols = self.symbols();
        let ghost cs = codes(self@);
        let mut groups: Vec<Vec<Vec<u8>>> = Vec::new();
        let mut l = self.longest_at_most(usize::MAX);
        proof {
            lemma_longest(cs);
            assert forall|i: int| 0 <= i < cs.len() implies (#[trigger] cs[i]).len() <= l by {
                assert(self@[i].1 == symbols@[i].1@);
                assert(symbols@[i].1@.len() == symbols@[i].1.len());
            }
            if l > 0 {
                let i = choose|i: int| 0 <= i < self@.len() && (#[trigger] self@[i]).1.len() == l;
                assert(cs[i].len() == l);
            }
            lemma_groups_skip(cs, longest(cs), l as nat);
            assert(length_groups(groups@) + groups_from(cs, l as nat) =~= by_length(cs));
        }
        while l > 0
            invariant
                cs == codes(self@),
                length_groups(groups@) + groups_from(cs, l as nat) == by_length(cs),
            decreases l,
        {
            let group = self.codes_with_length(l);
            let next = self.longest_at_most(l - 1);
            proof {
                assert forall|i: int| 0 <= i < cs.len() implies (#[trigger] cs[i]).len() <= next
                    || cs[i].len() > l - 1 by {
                    assert(self@[i].1.len() <= next || self@[i].1.len() > l - 1);
                }
                lemma_groups_skip(cs, (l - 1) as nat, next as nat);
            }
            let ghost before = length_groups(groups@);
            if group.len() > 0 {
                groups.push(group);
                proof {
                    let added = opcode_groups(group@);
                    assert(length_groups(groups@) =~= before.push(added));
                    assert(before.push(added) + groups_from(cs, next as nat) =~= before + (
                    seq![added] + groups_from(cs, next as nat)));
                }
            }
            l = next;
        }
        assert(length_groups(groups@) + Seq::<Seq<Seq<u8>>>::empty() =~= length_groups(groups@));
        groups
    }
}

} // verus!
