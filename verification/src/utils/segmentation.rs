//! Greedy longest-match segmentation of an opcode stream.

use crate::utils::alphabets::{codes, length_groups, opcode_groups, Alphabet};
use crate::utils::length_groups::{is_length_partition, lemma_by_length_partition};
use vstd::prelude::*;

verus! {

/// Why an opcode stream cannot be cut into symbols.
#[derive(Debug, Clone, Copy, PartialEq, Eq, Structural)]
pub enum SegmentationError {
    /// At `offset`, no opcode sequence of the alphabet matches.
    UnmatchedOpcodeSequence { offset: usize },
}

/// The greatest length up to `l` at which the front of `rest` is one of
/// `codes`, or 0 where there is none.
pub open spec fn match_up_to(codes: Seq<Seq<u8>>, rest: Seq<u8>, l: nat) -> nat
    decreases l,
{
    if l == 0 {
        0
    } else if l <= rest.len() && codes.contains(rest.take(l as int)) {
        l
    } else {
        match_up_to(codes, rest, (l - 1) as nat)
    }
}

/// The length of the longest of `codes` that stands at the front of `rest`,
/// or 0 where none does.
pub open spec fn longest_match(codes: Seq<Seq<u8>>, rest: Seq<u8>) -> nat {
    match_up_to(codes, rest, rest.len())
}

/// The stream cut into opcode sequences from left to right, at each place
/// the longest of `codes` that matches; or the offset of the first place at
/// which none matches.
pub open spec fn greedy(codes: Seq<Seq<u8>>, stream: Seq<u8>) -> Result<Seq<Seq<u8>>, nat>
    decreases stream.len(),
{
    if stream.len() == 0 {
        Ok(Seq::empty())
    } else {
        let l = longest_match(codes, stream);
        if l == 0 || l > stream.len() {
            Err(0nat)
        } else {
            match greedy(codes, stream.skip(l as int)) {
                Ok(tokens) => Ok(seq![stream.take(l as int)] + tokens),
                Err(offset) => Err(l + offset),
            }
        }
    }
}

/// What the whole stream gives when `done` was cut from its first `at` bytes
/// and `tail` is what the rest gives.
pub open spec fn resume(done: Seq<Seq<u8>>, at: nat, tail: Result<Seq<Seq<u8>>, nat>) -> Result<
    Seq<Seq<u8>>,
    nat,
> {
    match tail {
        Ok(tokens) => Ok(done + tokens),
        Err(offset) => Err(at + offset),
    }
}

/// No opcode sequence is the front of another one.
pub open spec fn prefix_free(codes: Seq<Seq<u8>>) -> bool {
    forall|a: int, b: int|
        0 <= a < codes.len() && 0 <= b < codes.len() && (#[trigger] codes[a]).is_prefix_of(
            #[trigger] codes[b],
        ) ==> codes[a] == codes[b]
}

/// `match_up_to` is `l` where `l` matches, or is 0, and nothing between `l`
/// and `hi` matches.
pub proof fn lemma_match_up_to(codes: Seq<Seq<u8>>, rest: Seq<u8>, hi: nat, l: nat)
    requires
        l <= hi,
        l == 0 || (l <= rest.len() && codes.contains(rest.take(l as int))),
        forall|n: nat|
            l < n <= hi && n <= rest.len() ==> !codes.contains(#[trigger] rest.take(n as int)),
    ensures
        match_up_to(codes, rest, hi) == l,
    decreases hi,
{
    if l < hi {
        lemma_match_up_to(codes, rest, (hi - 1) as nat, l);
    }
}

/// What `match_up_to` finds does match, and nothing longer up to `hi` does.
pub proof fn lemma_match_up_to_found(codes: Seq<Seq<u8>>, rest: Seq<u8>, hi: nat)
    ensures
        match_up_to(codes, rest, hi) <= hi,
        match_up_to(codes, rest, hi) <= rest.len(),
        match_up_to(codes, rest, hi) > 0 ==> codes.contains(
            rest.take(match_up_to(codes, rest, hi) as int),
        ),
        forall|n: nat|
            match_up_to(codes, rest, hi) < n <= hi && n <= rest.len() ==> !codes.contains(
                #[trigger] rest.take(n as int),
            ),
    decreases hi,
{
    if hi > 0 {
        lemma_match_up_to_found(codes, rest, (hi - 1) as nat);
    }
}

/// One step of the cut: after the longest match of length `l` at `at`, what
/// the stream gives is what the rest behind the match gives, with the match
/// put before it.
pub proof fn lemma_greedy_step(codes: Seq<Seq<u8>>, stream: Seq<u8>, done: Seq<Seq<u8>>, at: nat)
    requires
        at < stream.len(),
        longest_match(codes, stream.skip(at as int)) > 0,
    ensures
        ({
            let rest = stream.skip(at as int);
            let l = longest_match(codes, rest);
            &&& at + l <= stream.len()
            &&& resume(done, at, greedy(codes, rest)) == resume(
                done.push(rest.take(l as int)),
                at + l,
                greedy(codes, stream.skip((at + l) as int)),
            )
        }),
{
    let rest = stream.skip(at as int);
    let l = longest_match(codes, rest);
    lemma_match_up_to_found(codes, rest, rest.len());
    assert(rest.skip(l as int) =~= stream.skip((at + l) as int));
    match greedy(codes, rest.skip(l as int)) {
        Ok(tokens) => {
            assert(done + (seq![rest.take(l as int)] + tokens) =~= done.push(rest.take(l as int))
                + tokens);
        },
        Err(offset) => {},
    }
}

/// Losslessness: where the cut succeeds, its pieces are opcode sequences of the
/// alphabet, and put together again they are the stream.
pub proof fn lemma_round_trip(codes: Seq<Seq<u8>>, stream: Seq<u8>)
    requires
        greedy(codes, stream) is Ok,
    ensures
        greedy(codes, stream)->Ok_0.flatten() == stream,
        forall|i: int|
            0 <= i < greedy(codes, stream)->Ok_0.len() ==> codes.contains(
                #[trigger] greedy(codes, stream)->Ok_0[i],
            ),
    decreases stream.len(),
{
    if stream.len() > 0 {
        let l = longest_match(codes, stream);
        lemma_match_up_to_found(codes, stream, stream.len());
        let rest = stream.skip(l as int);
        lemma_round_trip(codes, rest);
        let tail = greedy(codes, rest)->Ok_0;
        let tokens = greedy(codes, stream)->Ok_0;
        assert(tokens == seq![stream.take(l as int)] + tail);
        assert(tokens.drop_first() =~= tail);
        assert(tokens.flatten() =~= stream.take(l as int) + tail.flatten());
        assert(stream.take(l as int) + rest =~= stream);
        assert forall|i: int| 0 <= i < tokens.len() implies codes.contains(#[trigger] tokens[i]) by {
            if i > 0 {
                assert(tokens[i] == tail[i - 1]);
            }
        }
    } else {
        assert(greedy(codes, stream)->Ok_0.flatten() =~= stream);
    }
}

/// Where the cut fails, it fails inside the stream, at a place that the cut
/// reached and at which no opcode sequence of the alphabet matches.
pub proof fn lemma_stuck(codes: Seq<Seq<u8>>, stream: Seq<u8>)
    requires
        greedy(codes, stream) is Err,
    ensures
        greedy(codes, stream)->Err_0 < stream.len(),
        longest_match(codes, stream.skip(greedy(codes, stream)->Err_0 as int)) == 0,
        greedy(codes, stream.take(greedy(codes, stream)->Err_0 as int)) is Ok,
    decreases stream.len(),
{
    let l = longest_match(codes, stream);
    lemma_match_up_to_found(codes, stream, stream.len());
    if l == 0 {
        assert(stream.skip(0) =~= stream);
        assert(stream.take(0).len() == 0);
    } else {
        let rest = stream.skip(l as int);
        lemma_stuck(codes, rest);
        let offset = greedy(codes, rest)->Err_0;
        assert(rest.skip(offset as int) =~= stream.skip((l + offset) as int));
        let head = stream.take((l + offset) as int);
        assert forall|n: nat| 0 < n <= head.len() implies head.take(n as int) == stream.take(
            n as int,
        ) || n > l by {
            if n <= l {
                assert(head.take(n as int) =~= stream.take(n as int));
            }
        }
        assert(head.take(l as int) =~= stream.take(l as int));
        assert forall|n: nat| l < n <= head.len() implies !codes.contains(
            #[trigger] head.take(n as int),
        ) by {
            assert(head.take(n as int) =~= stream.take(n as int));
        }
        lemma_match_up_to(codes, head, head.len(), l);
        assert(head.skip(l as int) =~= rest.take(offset as int));
    }
}

/// With an alphabet in which no opcode sequence is empty or the front of another one,
/// every concatenation of its opcode sequences is cut back into just these.
pub proof fn lemma_prefix_free_decodes(codes: Seq<Seq<u8>>, tokens: Seq<Seq<u8>>)
    requires
        prefix_free(codes),
        forall|i: int|
            0 <= i < tokens.len() ==> codes.contains(#[trigger] tokens[i]) && tokens[i].len() > 0,
    ensures
        greedy(codes, tokens.flatten()) == Ok::<Seq<Seq<u8>>, nat>(tokens),
    decreases tokens.len(),
{
    let stream = tokens.flatten();
    if tokens.len() == 0 {
        assert(tokens =~= Seq::empty());
    } else {
        let first = tokens[0];
        let later = tokens.drop_first();
        let rest = later.flatten();
        assert(stream == first + rest);
        assert(stream.take(first.len() as int) =~= first);
        assert(stream.skip(first.len() as int) =~= rest);
        assert forall|n: nat| first.len() < n <= stream.len() implies !codes.contains(
            #[trigger] stream.take(n as int),
        ) by {
            let longer = stream.take(n as int);
            if codes.contains(longer) {
                let a = choose|a: int| 0 <= a < codes.len() && codes[a] == first;
                let b = choose|b: int| 0 <= b < codes.len() && codes[b] == longer;
                assert(longer.take(first.len() as int) =~= first);
                assert(first.is_prefix_of(longer));
            }
        }
        lemma_match_up_to(codes, stream, stream.len(), first.len());
        assert forall|i: int| 0 <= i < later.len() implies codes.contains(#[trigger] later[i])
            && later[i].len() > 0 by {
            assert(later[i] == tokens[i + 1]);
        }
        lemma_prefix_free_decodes(codes, later);
        assert(seq![first] + later =~= tokens);
    }
}

/// Whether `code` stands in `bytes` at `pos`.
fn stands_at(bytes: &Vec<u8>, pos: usize, code: &Vec<u8>) -> (r: bool)
    requires
        pos <= bytes.len(),
    ensures
        r == code@.is_prefix_of(bytes@.skip(pos as int)),
{
    if code.len() > bytes.len() - pos {
        return false;
    }
    let ghost rest = bytes@.skip(pos as int);
    let mut k: usize = 0;
    while k < code.len()
        invariant
            k <= code.len(),
            pos <= bytes.len(),
            code.len() <= bytes.len() - pos,
            rest == bytes@.skip(pos as int),
            forall|j: int| 0 <= j < k ==> rest[j] == code@[j],
        decreases code.len() - k,
    {
        if bytes[pos + k] != code[k] {
            assert(rest.subrange(0, code@.len() as int)[k as int] != code@[k as int]);
            return false;
        }
        k += 1;
    }
    assert(code@ =~= rest.subrange(0, code@.len() as int));
    true
}

/// The longest opcode sequence of the groups that stands in `bytes` at `pos`.
fn longest_match_at(
    groups: &Vec<Vec<Vec<u8>>>,
    bytes: &Vec<u8>,
    pos: usize,
    Ghost(cs): Ghost<Seq<Seq<u8>>>,
) -> (r: Option<Vec<u8>>)
    requires
        pos <= bytes.len(),
        is_length_partition(length_groups(groups@), cs),
        forall|i: int| 0 <= i < cs.len() ==> (#[trigger] cs[i]).len() > 0,
    ensures
        match r {
            Some(code) => {
                &&& code@.len() > 0
                &&& code@.len() == longest_match(cs, bytes@.skip(pos as int))
                &&& code@ == bytes@.skip(pos as int).take(code@.len() as int)
            },
            None => longest_match(cs, bytes@.skip(pos as int)) == 0,
        },
{
    let ghost rest = bytes@.skip(pos as int);
    let ghost gs = length_groups(groups@);
    let mut g: usize = 0;
    while g < groups.len()
        invariant
            g <= groups.len(),
            pos <= bytes.len(),
            rest == bytes@.skip(pos as int),
            gs == length_groups(groups@),
            is_length_partition(gs, cs),
            forall|i: int| 0 <= i < cs.len() ==> (#[trigger] cs[i]).len() > 0,
            forall|h: int, k: int|
                0 <= h < g && 0 <= k < gs[h].len() ==> !(#[trigger] gs[h][k]).is_prefix_of(rest),
        decreases groups.len() - g,
    {
        let group = &groups[g];
        assert(gs[g as int] == opcode_groups(group@));
        let mut k: usize = 0;
        while k < group.len()
            invariant
                k <= group.len(),
                g < groups.len(),
                pos <= bytes.len(),
                rest == bytes@.skip(pos as int),
                gs == length_groups(groups@),
                group == &groups[g as int],
                gs[g as int] == opcode_groups(group@),
                is_length_partition(gs, cs),
                forall|i: int| 0 <= i < cs.len() ==> (#[trigger] cs[i]).len() > 0,
                forall|h: int, k: int|
                    0 <= h < g && 0 <= k < gs[h].len() ==> !(#[trigger] gs[h][k]).is_prefix_of(rest),
                forall|j: int| 0 <= j < k ==> !(#[trigger] gs[g as int][j]).is_prefix_of(rest),
            decreases group.len() - k,
        {
            if stands_at(bytes, pos, &group[k]) {
                let code = group[k].clone();
                proof {
                    assert(code@ == gs[g as int][k as int]);
                    let l = code@.len();
                    assert(cs.contains(gs[g as int][k as int]));
                    assert(rest.take(l as int) =~= code@);
                    assert forall|n: nat| l < n <= rest.len() implies !cs.contains(
                        #[trigger] rest.take(n as int),
                    ) by {
                        let longer = rest.take(n as int);
                        if cs.contains(longer) {
                            let i = choose|i: int| 0 <= i < cs.len() && cs[i] == longer;
                            let (h, j) = choose|h: int, j: int|
                                0 <= h < gs.len() && 0 <= j < gs[h].len() && #[trigger] gs[h][j]
                                    == cs[i];
                            assert(longer.is_prefix_of(rest));
                            assert(gs[h][j].len() == gs[h][0].len());
                            assert(gs[g as int][k as int].len() == gs[g as int][0].len());
                            if h > g {
                                assert(gs[g as int][0].len() > gs[h][0].len());
                            }
                        }
                    }
                    lemma_match_up_to(cs, rest, rest.len(), l);
                }
                return Some(code);
            }
            k += 1;
        }
        g += 1;
    }
    proof {
        assert forall|n: nat| 0 < n <= rest.len() implies !cs.contains(
            #[trigger] rest.take(n as int),
        ) by {
            let front = rest.take(n as int);
            if cs.contains(front) {
                let i = choose|i: int| 0 <= i < cs.len() && cs[i] == front;
                let (h, j) = choose|h: int, j: int|
                    0 <= h < gs.len() && 0 <= j < gs[h].len() && #[trigger] gs[h][j] == cs[i];
                assert(front.is_prefix_of(rest));
            }
        }
        lemma_match_up_to(cs, rest, rest.len(), 0);
    }
    None
}

/// Cuts the bytes into the opcode sequences of the alphabet's symbols, from
/// left to right, taking at each place the longest that matches. Fails at
/// the first place where none matches, and says where.
pub fn split_bytes_by_characters_representation(alphabet: &Alphabet, bytes: &Vec<u8>) -> (r: Result<
    Vec<Vec<u8>>,
    SegmentationError,
>)
    ensures
        match r {
            Ok(tokens) => {
                &&& greedy(codes(alphabet@), bytes@) == Ok::<Seq<Seq<u8>>, nat>(
                    opcode_groups(tokens@),
                )
                &&& opcode_groups(tokens@).flatten() == bytes@
                &&& forall|i: int|
                    0 <= i < tokens@.len() ==> codes(alphabet@).contains(
                        #[trigger] opcode_groups(tokens@)[i],
                    )
            },
            Err(SegmentationError::UnmatchedOpcodeSequence { offset }) => {
                &&& greedy(codes(alphabet@), bytes@) == Err::<Seq<Seq<u8>>, nat>(offset as nat)
                &&& offset < bytes@.len()
                &&& longest_match(codes(alphabet@), bytes@.skip(offset as int)) == 0
            },
        },
{
    let ghost cs = codes(alphabet@);
    let groups = alphabet.all_opcode_sequences_by_length();
    proof {
        use_type_invariant(alphabet);
        assert forall|i: int| 0 <= i < cs.len() implies (#[trigger] cs[i]).len() > 0 by {
            assert(alphabet@[i].1.len() > 0);
        }
        lemma_by_length_partition(cs);
    }
    let mut tokens: Vec<Vec<u8>> = Vec::new();
    let mut pos: usize = 0;
    proof {
        assert(bytes@.skip(0) =~= bytes@);
        match greedy(cs, bytes@) {
            Ok(all) => {
                assert(opcode_groups(tokens@) + all =~= all);
            },
            Err(offset) => {},
        }
    }
    while pos < bytes.len()
        invariant
            pos <= bytes.len(),
            cs == codes(alphabet@),
            is_length_partition(length_groups(groups@), cs),
            forall|i: int| 0 <= i < cs.len() ==> (#[trigger] cs[i]).len() > 0,
            greedy(cs, bytes@) == resume(
                opcode_groups(tokens@),
                pos as nat,
                greedy(cs, bytes@.skip(pos as int)),
            ),
        decreases bytes.len() - pos,
    {
        match longest_match_at(&groups, bytes, pos, Ghost(cs)) {
            Some(code) => {
                proof {
                    lemma_greedy_step(cs, bytes@, opcode_groups(tokens@), pos as nat);
                }
                let ghost before = opcode_groups(tokens@);
                pos = pos + code.len();
                tokens.push(code);
                assert(opcode_groups(tokens@) =~= before.push(code@));
            },
            None => {
                proof {
                    lemma_stuck(cs, bytes@);
                }
                return Err(SegmentationError::UnmatchedOpcodeSequence { offset: pos });
            },
        }
    }
    proof {
        assert(bytes@.skip(pos as int).len() == 0);
        assert(opcode_groups(tokens@) + Seq::<Seq<u8>>::empty() =~= opcode_groups(tokens@));
        lemma_round_trip(cs, bytes@);
    }
    Ok(tokens)
}

/// Puts the opcode sequences together into one stream.
pub fn uniffy_opcode_group(groups: Vec<Vec<u8>>) -> (stream: Vec<u8>)
    ensures
        stream@ == opcode_groups(groups@).flatten(),
{
    let ghost gs = opcode_groups(groups@);
    let mut stream: Vec<u8> = Vec::new();
    let mut i: usize = 0;
    assert(gs.take(0) =~= Seq::empty());
    while i < groups.len()
        invariant
            i <= groups.len(),
            gs == opcode_groups(groups@),
            stream@ == gs.take(i as int).flatten(),
        decreases groups.len() - i,
    {
        let group = &groups[i];
        let ghost before = stream@;
        let mut k: usize = 0;
        while k < group.len()
            invariant
                k <= group.len(),
                stream@ == before + group@.take(k as int),
            decreases group.len() - k,
        {
            stream.push(group[k]);
            assert(group@.take(k + 1) =~= group@.take(k as int).push(group@[k as int]));
            k += 1;
        }
        proof {
            assert(group@.take(k as int) =~= group@);
            assert(gs.take(i + 1) =~= gs.take(i as int).push(group@));
            gs.take(i as int).lemma_flatten_push(group@);
        }
        i += 1;
    }
    assert(gs.take(i as int) =~= gs);
    stream
}

} // verus!
