//! The distribution of the symbols of a text: each symbol that occurs, with
//! the number of its occurrences.

use crate::cryptanalysis::general_cryptanalysis_methods::frequency_analysis::{
    AnalysisError, StatisticalError,
};
use crate::utils::alphabets::{codes, opcode_groups, same_opcodes, Alphabet};
use crate::utils::lexicographic::{
    lemma_opcodes_order, opcodes_before_or_equal, opcodes_leq, opcodes_lt,
};
use crate::utils::ratio::Ratio;
use crate::utils::segmentation::{
    greedy, lemma_round_trip, split_bytes_by_characters_representation, SegmentationError,
};
use vstd::prelude::*;

verus! {

/// How often `symbol` occurs among `tokens`.
pub open spec fn occurrences(tokens: Seq<Seq<u8>>, symbol: Seq<u8>) -> nat
    decreases tokens.len(),
{
    if tokens.len() == 0 {
        0
    } else {
        occurrences(tokens.drop_last(), symbol) + if tokens.last() == symbol {
            1nat
        } else {
            0nat
        }
    }
}

/// The sum of the counts.
pub open spec fn total(distribution: Seq<(Seq<u8>, nat)>) -> nat
    decreases distribution.len(),
{
    if distribution.len() == 0 {
        0
    } else {
        total(distribution.drop_last()) + distribution.last().1
    }
}

/// `distribution` lists the symbols that occur among `tokens`, each once and
/// with the number of its occurrences, by ascending opcode sequence.
pub open spec fn is_distribution_of(distribution: Seq<(Seq<u8>, nat)>, tokens: Seq<Seq<u8>>) -> bool {
    &&& forall|i: int, j: int|
        0 <= i < j < distribution.len() ==> opcodes_lt(
            (#[trigger] distribution[i]).0,
            (#[trigger] distribution[j]).0,
        )
    &&& forall|i: int|
        0 <= i < distribution.len() ==> (#[trigger] distribution[i]).1 > 0 && distribution[i].1
            == occurrences(tokens, distribution[i].0)
    &&& forall|k: int|
        0 <= k < tokens.len() ==> exists|i: int|
            0 <= i < distribution.len() && (#[trigger] distribution[i]).0 == #[trigger] tokens[k]
}

/// The symbols and counts of a vector.
pub open spec fn counted(distribution: Seq<(Vec<u8>, usize)>) -> Seq<(Seq<u8>, nat)> {
    distribution.map_values(|entry: (Vec<u8>, usize)| (entry.0@, entry.1 as nat))
}

/// The symbols of a vector of relative frequencies, each with the numerator
/// of its frequency.
pub open spec fn weighted(frequencies: Seq<(Vec<u8>, Ratio)>) -> Seq<(Seq<u8>, nat)> {
    frequencies.map_values(|entry: (Vec<u8>, Ratio)| (entry.0@, entry.1.numerator as nat))
}

/// A symbol occurs at most as often as there are tokens.
pub proof fn lemma_occurrences_bound(tokens: Seq<Seq<u8>>, symbol: Seq<u8>)
    ensures
        occurrences(tokens, symbol) <= tokens.len(),
    decreases tokens.len(),
{
    if tokens.len() > 0 {
        lemma_occurrences_bound(tokens.drop_last(), symbol);
    }
}

/// A symbol occurs at least once exactly if it is one of the tokens.
pub proof fn lemma_occurrences_positive(tokens: Seq<Seq<u8>>, symbol: Seq<u8>)
    ensures
        occurrences(tokens, symbol) > 0 <==> tokens.contains(symbol),
    decreases tokens.len(),
{
    if tokens.len() > 0 {
        let front = tokens.drop_last();
        lemma_occurrences_positive(front, symbol);
        if tokens.last() == symbol {
            assert(tokens[tokens.len() - 1] == symbol);
        } else if front.contains(symbol) {
            let k = choose|k: int| 0 <= k < front.len() && front[k] == symbol;
            assert(tokens[k] == symbol);
        } else if tokens.contains(symbol) {
            let k = choose|k: int| 0 <= k < tokens.len() && tokens[k] == symbol;
            assert(front[k] == symbol);
        }
    }
}

/// One more token is one more occurrence of its symbol, and of no other.
pub proof fn lemma_occurrences_step(tokens: Seq<Seq<u8>>, n: int, symbol: Seq<u8>)
    requires
        0 <= n < tokens.len(),
    ensures
        occurrences(tokens.take(n + 1), symbol) == occurrences(tokens.take(n), symbol) + if tokens[n]
            == symbol {
            1nat
        } else {
            0nat
        },
{
    assert(tokens.take(n + 1).drop_last() =~= tokens.take(n));
}

proof fn lemma_total_insert(distribution: Seq<(Seq<u8>, nat)>, at: int, entry: (Seq<u8>, nat))
    requires
        0 <= at <= distribution.len(),
    ensures
        total(distribution.insert(at, entry)) == total(distribution) + entry.1,
    decreases distribution.len(),
{
    let longer = distribution.insert(at, entry);
    if at == distribution.len() {
        assert(longer.drop_last() =~= distribution);
    } else {
        lemma_total_insert(distribution.drop_last(), at, entry);
        assert(longer.drop_last() =~= distribution.drop_last().insert(at, entry));
    }
}

proof fn lemma_total_update(distribution: Seq<(Seq<u8>, nat)>, at: int, entry: (Seq<u8>, nat))
    requires
        0 <= at < distribution.len(),
    ensures
        total(distribution.update(at, entry)) == total(distribution) - distribution[at].1 + entry.1,
    decreases distribution.len(),
{
    let changed = distribution.update(at, entry);
    if at == distribution.len() - 1 {
        assert(changed.drop_last() =~= distribution.drop_last());
    } else {
        lemma_total_update(distribution.drop_last(), at, entry);
        assert(changed.drop_last() =~= distribution.drop_last().update(at, entry));
    }
}

/// The counts of a distribution add up to the number of tokens.
pub proof fn lemma_distribution_total(distribution: Seq<(Seq<u8>, nat)>, tokens: Seq<Seq<u8>>)
    requires
        is_distribution_of(distribution, tokens),
    ensures
        total(distribution) == tokens.len(),
    decreases tokens.len(),
{
    if tokens.len() == 0 {
        if distribution.len() > 0 {
            assert(distribution[0].1 > 0);
        }
    } else {
        let front = tokens.drop_last();
        let symbol = tokens.last();
        assert(tokens.take(tokens.len() as int) =~= tokens);
        assert(tokens.take(tokens.len() - 1) =~= front);
        let at = choose|at: int|
            0 <= at < distribution.len() && (#[trigger] distribution[at]).0 == tokens[tokens.len()
                - 1];
        let count = distribution[at].1;
        assert forall|i: int| 0 <= i < distribution.len() implies occurrences(
            tokens,
            (#[trigger] distribution[i]).0,
        ) == occurrences(front, distribution[i].0) + if i == at {
            1nat
        } else {
            0nat
        } by {
            lemma_occurrences_step(tokens, tokens.len() - 1, distribution[i].0);
            if i < at {
                assert(opcodes_lt(distribution[i].0, distribution[at].0));
            } else if i > at {
                assert(opcodes_lt(distribution[at].0, distribution[i].0));
            }
        }
        if count == 1 {
            let fewer = distribution.remove(at);
            assert forall|k: int| 0 <= k < front.len() implies exists|i: int|
                0 <= i < fewer.len() && (#[trigger] fewer[i]).0 == #[trigger] front[k] by {
                assert(front[k] == tokens[k]);
                let i = choose|i: int|
                    0 <= i < distribution.len() && (#[trigger] distribution[i]).0 == tokens[k];
                if i == at {
                    lemma_occurrences_positive(front, symbol);
                    assert(front.contains(front[k]));
                } else if i < at {
                    assert(fewer[i] == distribution[i]);
                } else {
                    assert(fewer[i - 1] == distribution[i]);
                }
            }
            assert forall|i: int| 0 <= i < fewer.len() implies (#[trigger] fewer[i]).1 > 0
                && fewer[i].1 == occurrences(front, fewer[i].0) by {
                if i < at {
                    assert(fewer[i] == distribution[i]);
                } else {
                    assert(fewer[i] == distribution[i + 1]);
                }
            }
            assert forall|i: int, j: int| 0 <= i < j < fewer.len() implies opcodes_lt(
                (#[trigger] fewer[i]).0,
                (#[trigger] fewer[j]).0,
            ) by {
                let a = if i < at { i } else { i + 1 };
                let b = if j < at { j } else { j + 1 };
                assert(fewer[i] == distribution[a] && fewer[j] == distribution[b]);
            }
            lemma_distribution_total(fewer, front);
            assert(fewer.insert(at, distribution[at]) =~= distribution);
            lemma_total_insert(fewer, at, distribution[at]);
        } else {
            let entry = (symbol, (count - 1) as nat);
            let fewer = distribution.update(at, entry);
            assert forall|k: int| 0 <= k < front.len() implies exists|i: int|
                0 <= i < fewer.len() && (#[trigger] fewer[i]).0 == #[trigger] front[k] by {
                assert(front[k] == tokens[k]);
                let i = choose|i: int|
                    0 <= i < distribution.len() && (#[trigger] distribution[i]).0 == tokens[k];
                assert(fewer[i].0 == distribution[i].0);
            }
            assert forall|i: int| 0 <= i < fewer.len() implies (#[trigger] fewer[i]).1 > 0
                && fewer[i].1 == occurrences(front, fewer[i].0) by {
                assert(fewer[i].0 == distribution[i].0);
                assert(distribution[i].1 > 0);
            }
            assert forall|i: int, j: int| 0 <= i < j < fewer.len() implies opcodes_lt(
                (#[trigger] fewer[i]).0,
                (#[trigger] fewer[j]).0,
            ) by {
                assert(fewer[i].0 == distribution[i].0 && fewer[j].0 == distribution[j].0);
            }
            lemma_distribution_total(fewer, front);
            assert(fewer.update(at, distribution[at]) =~= distribution);
            lemma_total_update(fewer, at, distribution[at]);
        }
    }
}

proof fn lemma_symbols_agree(
    one: Seq<(Seq<u8>, nat)>,
    other: Seq<(Seq<u8>, nat)>,
    tokens: Seq<Seq<u8>>,
    n: nat,
)
    requires
        is_distribution_of(one, tokens),
        is_distribution_of(other, tokens),
        n <= one.len(),
    ensures
        n <= other.len(),
        forall|i: int| 0 <= i < n ==> (#[trigger] one[i]).0 == other[i].0,
    decreases n,
{
    if n > 0 {
        let i = (n - 1) as int;
        lemma_symbols_agree(one, other, tokens, i as nat);
        let symbol = one[i].0;
        lemma_occurrences_positive(tokens, symbol);
        let k = choose|k: int| 0 <= k < tokens.len() && tokens[k] == symbol;
        let j = choose|j: int| 0 <= j < other.len() && (#[trigger] other[j]).0 == tokens[k];
        if j < i {
            assert(one[j].0 == other[j].0);
            assert(opcodes_lt(one[j].0, one[i].0));
        }
        let back = other[i].0;
        lemma_occurrences_positive(tokens, back);
        let k2 = choose|k2: int| 0 <= k2 < tokens.len() && tokens[k2] == back;
        let j2 = choose|j2: int| 0 <= j2 < one.len() && (#[trigger] one[j2]).0 == tokens[k2];
        if j2 < i {
            assert(one[j2].0 == other[j2].0);
            assert(opcodes_lt(other[j2].0, other[i].0));
        }
        lemma_opcodes_order(symbol, back, symbol);
        if i < j {
            assert(opcodes_lt(other[i].0, other[j].0));
        }
        if i < j2 {
            assert(opcodes_lt(one[i].0, one[j2].0));
        }
    }
}

/// A text has one distribution only: the result of the analysis is
/// determined by the tokens.
pub proof fn lemma_distribution_unique(
    one: Seq<(Seq<u8>, nat)>,
    other: Seq<(Seq<u8>, nat)>,
    tokens: Seq<Seq<u8>>,
)
    requires
        is_distribution_of(one, tokens),
        is_distribution_of(other, tokens),
    ensures
        one == other,
{
    lemma_symbols_agree(one, other, tokens, one.len());
    lemma_symbols_agree(other, one, tokens, other.len());
    assert forall|i: int| 0 <= i < one.len() implies one[i] == other[i] by {
        assert(one[i].0 == other[i].0);
        assert(one[i].1 == other[i].1);
    }
    assert(one =~= other);
}

/// Counts how often `symbol` occurs among the tokens.
pub fn occurrences_of(tokens: &Vec<Vec<u8>>, symbol: &Vec<u8>) -> (count: usize)
    ensures
        count == occurrences(opcode_groups(tokens@), symbol@),
{
    let ghost toks = opcode_groups(tokens@);
    let mut count: usize = 0;
    let mut n: usize = 0;
    while n < tokens.len()
        invariant
            n <= tokens.len(),
            toks == opcode_groups(tokens@),
            count == occurrences(toks.take(n as int), symbol@),
            count <= n,
        decreases tokens.len() - n,
    {
        proof {
            lemma_occurrences_step(toks, n as int, symbol@);
        }
        if same_opcodes(&tokens[n], symbol) {
            count += 1;
        }
        n += 1;
    }
    assert(toks.take(n as int) =~= toks);
    count
}

/// The first place of the distribution whose symbol does not come before
/// `symbol`.
fn place_for(distribution: &Vec<(Vec<u8>, usize)>, symbol: &Vec<u8>) -> (at: usize)
    ensures
        at <= distribution@.len(),
        forall|i: int| 0 <= i < at ==> opcodes_lt((#[trigger] counted(distribution@)[i]).0, symbol@),
        at < distribution@.len() ==> opcodes_leq(symbol@, counted(distribution@)[at as int].0),
{
    let mut at: usize = 0;
    while at < distribution.len()
        invariant
            at <= distribution@.len(),
            forall|i: int|
                0 <= i < at ==> opcodes_lt((#[trigger] counted(distribution@)[i]).0, symbol@),
        decreases distribution.len() - at,
    {
        if opcodes_before_or_equal(symbol, &distribution[at].0) {
            return at;
        }
        proof {
            lemma_opcodes_order(counted(distribution@)[at as int].0, symbol@, symbol@);
        }
        at += 1;
    }
    at
}

/// Counts the symbols of a token sequence.
pub fn distribution_of(tokens: &Vec<Vec<u8>>) -> (distribution: Vec<(Vec<u8>, usize)>)
    ensures
        is_distribution_of(counted(distribution@), opcode_groups(tokens@)),
        total(counted(distribution@)) == tokens@.len(),
{
    let ghost toks = opcode_groups(tokens@);
    let mut distribution: Vec<(Vec<u8>, usize)> = Vec::new();
    let mut n: usize = 0;
    while n < tokens.len()
        invariant
            n <= tokens.len(),
            toks == opcode_groups(tokens@),
            is_distribution_of(counted(distribution@), toks.take(n as int)),
        decreases tokens.len() - n,
    {
        let token = &tokens[n];
        let at = place_for(&distribution, token);
        let ghost before = counted(distribution@);
        let ghost seen = toks.take(n as int);
        let ghost next = toks.take(n + 1);
        proof {
            assert(toks[n as int] == token@);
            assert forall|i: int| 0 <= i < before.len() implies occurrences(
                next,
                (#[trigger] before[i]).0,
            ) == occurrences(seen, before[i].0) + if token@ == before[i].0 {
                1nat
            } else {
                0nat
            } by {
                lemma_occurrences_step(toks, n as int, before[i].0);
            }
            lemma_occurrences_step(toks, n as int, token@);
            lemma_occurrences_bound(seen, token@);
            lemma_occurrences_positive(seen, token@);
        }
        if at < distribution.len() && same_opcodes(&distribution[at].0, token) {
            let count = distribution[at].1;
            let symbol = distribution[at].0.clone();
            distribution.set(at, (symbol, count + 1));
            proof {
                let after = counted(distribution@);
                assert(after =~= before.update(at as int, (token@, (count + 1) as nat)));
                assert forall|i: int, j: int| 0 <= i < j < after.len() implies opcodes_lt(
                    (#[trigger] after[i]).0,
                    (#[trigger] after[j]).0,
                ) by {
                    assert(after[i].0 == before[i].0 && after[j].0 == before[j].0);
                }
                assert forall|i: int| 0 <= i < after.len() implies (#[trigger] after[i]).1 > 0
                    && after[i].1 == occurrences(next, after[i].0) by {
                    assert(after[i].0 == before[i].0);
                    assert(before[i].1 > 0);
                    if i < at {
                        assert(opcodes_lt(before[i].0, before[at as int].0));
                    } else if i > at {
                        assert(opcodes_lt(before[at as int].0, before[i].0));
                    }
                }
                assert forall|k: int| 0 <= k < next.len() implies exists|i: int|
                    0 <= i < after.len() && (#[trigger] after[i]).0 == #[trigger] next[k] by {
                    if k < n {
                        assert(next[k] == seen[k]);
                        let i = choose|i: int|
                            0 <= i < before.len() && (#[trigger] before[i]).0 == seen[k];
                        assert(after[i].0 == before[i].0);
                    } else {
                        assert(after[at as int].0 == next[k]);
                    }
                }
            }
        } else {
            distribution.insert(at, (token.clone(), 1));
            proof {
                let after = counted(distribution@);
                assert(after =~= before.insert(at as int, (token@, 1nat)));
                assert forall|i: int| 0 <= i < before.len() implies (#[trigger] before[i]).0
                    != token@ by {
                    if i >= at {
                        lemma_opcodes_order(token@, before[at as int].0, before[i].0);
                        if i > at {
                            assert(opcodes_lt(before[at as int].0, before[i].0));
                        }
                    }
                }
                if seen.contains(token@) {
                    let k = choose|k: int| 0 <= k < seen.len() && seen[k] == token@;
                    let i = choose|i: int|
                        0 <= i < before.len() && (#[trigger] before[i]).0 == seen[k];
                    assert(before[i].0 != token@);
                }
                assert(occurrences(seen, token@) == 0);
                assert forall|i: int, j: int| 0 <= i < j < after.len() implies opcodes_lt(
                    (#[trigger] after[i]).0,
                    (#[trigger] after[j]).0,
                ) by {
                    let a = if i < at { i } else { i - 1 };
                    let b = if j < at { j } else { j - 1 };
                    if i == at {
                        assert(after[j] == before[b]);
                        lemma_opcodes_order(token@, before[at as int].0, before[b].0);
                        if b > at {
                            assert(opcodes_lt(before[at as int].0, before[b].0));
                        }
                    } else if j == at {
                        assert(after[i] == before[a]);
                    } else {
                        assert(after[i] == before[a] && after[j] == before[b]);
                    }
                }
                assert forall|i: int| 0 <= i < after.len() implies (#[trigger] after[i]).1 > 0
                    && after[i].1 == occurrences(next, after[i].0) by {
                    if i < at {
                        assert(after[i] == before[i]);
                    } else if i > at {
                        assert(after[i] == before[i - 1]);
                    }
                }
                assert forall|k: int| 0 <= k < next.len() implies exists|i: int|
                    0 <= i < after.len() && (#[trigger] after[i]).0 == #[trigger] next[k] by {
                    if k < n {
                        assert(next[k] == seen[k]);
                        let i = choose|i: int|
                            0 <= i < before.len() && (#[trigger] before[i]).0 == seen[k];
                        if i < at {
                            assert(after[i] == before[i]);
                        } else {
                            assert(after[i + 1] == before[i]);
                        }
                    } else {
                        assert(after[at as int].0 == next[k]);
                    }
                }
            }
        }
        n += 1;
    }
    proof {
        assert(toks.take(n as int) =~= toks);
        lemma_distribution_total(counted(distribution@), toks);
    }
    distribution
}

/// The relative frequency of each symbol of a token sequence: the number
/// of its occurrences over the number of tokens. There is none for an empty
/// sequence.
pub fn frequencies_of(tokens: &Vec<Vec<u8>>) -> (r: Result<Vec<(Vec<u8>, Ratio)>, StatisticalError>)
    ensures
        match r {
            Ok(frequencies) => {
                &&& tokens@.len() > 0
                &&& is_distribution_of(weighted(frequencies@), opcode_groups(tokens@))
                &&& total(weighted(frequencies@)) == tokens@.len()
                &&& forall|i: int|
                    0 <= i < frequencies@.len() ==> (#[trigger] frequencies@[i]).1.denominator
                        == tokens@.len() && frequencies@[i].1.is_probability()
            },
            Err(error) => error == StatisticalError::EmptyInputDistribution && tokens@.len() == 0,
        },
{
    let size = tokens.len();
    if size == 0 {
        return Err(StatisticalError::EmptyInputDistribution);
    }
    let distribution = distribution_of(tokens);
    let ghost counts = counted(distribution@);
    let mut frequencies: Vec<(Vec<u8>, Ratio)> = Vec::new();
    let mut i: usize = 0;
    while i < distribution.len()
        invariant
            i <= distribution.len(),
            size == tokens@.len(),
            size > 0,
            counts == counted(distribution@),
            is_distribution_of(counts, opcode_groups(tokens@)),
            frequencies@.len() == i,
            weighted(frequencies@) == counts.take(i as int),
            forall|k: int|
                0 <= k < i ==> (#[trigger] frequencies@[k]).1.denominator == size
                    && frequencies@[k].1.is_probability(),
        decreases distribution.len() - i,
    {
        let symbol = distribution[i].0.clone();
        let count = distribution[i].1;
        proof {
            assert(counts[i as int].1 == count);
            lemma_occurrences_bound(opcode_groups(tokens@), counts[i as int].0);
        }
        let frequency = Ratio { numerator: count as u128, denominator: size as u128 };
        frequencies.push((symbol, frequency));
        assert(weighted(frequencies@) =~= counts.take(i + 1));
        i += 1;
    }
    proof {
        assert(counts.take(i as int) =~= counts);
        lemma_distribution_total(counts, opcode_groups(tokens@));
    }
    Ok(frequencies)
}

/// The frequency analysis of cipher texts written in one alphabet.
pub struct Statistical {
    /// Alphabet in which the cipher text is read.
    pub alphabet: Alphabet,
}

impl Statistical {
    /// The analysis of texts written in `alphabet`.
    pub fn new(alphabet: Alphabet) -> (analysis: Self)
        ensures
            analysis.alphabet == alphabet,
    {
        Statistical { alphabet }
    }

    /// The distribution of the symbols of the cipher text: each symbol that
    /// occurs with the number of its occurrences, by ascending opcode
    /// sequence. Fails where the cipher text is not made of the alphabet's
    /// symbols.
    pub fn guess_statistical_distribution(&self, cipher_text: Vec<u8>) -> (r: Result<
        Vec<(Vec<u8>, usize)>,
        SegmentationError,
    >)
        ensures
            match r {
                Ok(distribution) => {
                    &&& greedy(codes(self.alphabet@), cipher_text@) is Ok
                    &&& is_distribution_of(
                        counted(distribution@),
                        greedy(codes(self.alphabet@), cipher_text@)->Ok_0,
                    )
                    &&& total(counted(distribution@)) == greedy(
                        codes(self.alphabet@),
                        cipher_text@,
                    )->Ok_0.len()
                },
                Err(SegmentationError::UnmatchedOpcodeSequence { offset }) => greedy(
                    codes(self.alphabet@),
                    cipher_text@,
                ) == Err::<Seq<Seq<u8>>, nat>(offset as nat),
            },
    {
        match split_bytes_by_characters_representation(&self.alphabet, &cipher_text) {
            Ok(tokens) => Ok(distribution_of(&tokens)),
            Err(error) => Err(error),
        }
    }

    /// The relative frequency of each symbol of the cipher text, by
    /// ascending opcode sequence. Fails where the cipher text is empty or not
    /// made of the alphabet's symbols.
    pub fn guess_statistical_frequencies(&self, cipher_text: Vec<u8>) -> (r: Result<
        Vec<(Vec<u8>, Ratio)>,
        AnalysisError,
    >)
        ensures
            match r {
                Ok(frequencies) => {
                    &&& cipher_text@.len() > 0
                    &&& greedy(codes(self.alphabet@), cipher_text@) is Ok
                    &&& is_distribution_of(
                        weighted(frequencies@),
                        greedy(codes(self.alphabet@), cipher_text@)->Ok_0,
                    )
                    &&& total(weighted(frequencies@)) == greedy(
                        codes(self.alphabet@),
                        cipher_text@,
                    )->Ok_0.len()
                    &&& forall|i: int|
                        0 <= i < frequencies@.len() ==> (#[trigger] frequencies@[i]).1.denominator
                            == greedy(codes(self.alphabet@), cipher_text@)->Ok_0.len()
                            && frequencies@[i].1.is_probability()
                },
                Err(AnalysisError::Segmentation(SegmentationError::UnmatchedOpcodeSequence { offset })) => greedy(
                    codes(self.alphabet@),
                    cipher_text@,
                ) == Err::<Seq<Seq<u8>>, nat>(offset as nat),
                Err(AnalysisError::Statistical(error)) => error
                    == StatisticalError::EmptyInputDistribution && cipher_text@.len() == 0,
            },
    {
        match split_bytes_by_characters_representation(&self.alphabet, &cipher_text) {
            Ok(tokens) => {
                proof {
                    lemma_round_trip(codes(self.alphabet@), cipher_text@);
                    assert(Seq::<Seq<u8>>::empty().flatten() =~= Seq::<u8>::empty());
                }
                match frequencies_of(&tokens) {
                    Ok(frequencies) => Ok(frequencies),
                    Err(error) => Err(AnalysisError::Statistical(error)),
                }
            },
            Err(error) => Err(AnalysisError::Segmentation(error)),
        }
    }
}

} // verus!
