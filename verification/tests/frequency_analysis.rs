use cryptatools_core::cryptanalysis::general_cryptanalysis_methods::frequency_analysis::coincidence_index::{
    index_of_coincidence, CoincidenceIndexGuesser,
};
use cryptatools_core::cryptanalysis::general_cryptanalysis_methods::frequency_analysis::distribution_algorithms::statistical::{
    distribution_of, frequencies_of, occurrences_of, Statistical,
};
use cryptatools_core::utils::alphabets::Alphabet;
use cryptatools_core::cryptanalysis::general_cryptanalysis_methods::frequency_analysis::{
    AnalysisError, StatisticalError,
};
use cryptatools_core::utils::ratio::Ratio;
use cryptatools_core::utils::segmentation::{
    split_bytes_by_characters_representation, SegmentationError,
};

fn two_letters() -> Alphabet {
    Alphabet::new(vec![("A".to_string(), vec![0]), ("B".to_string(), vec![1])]).unwrap()
}

fn letters(count: u8) -> Alphabet {
    let mut symbols: Vec<(String, Vec<u8>)> = Vec::new();
    for opcode in 0..count {
        symbols.push((format!("s{}", opcode), vec![opcode]));
    }
    Alphabet::new(symbols).unwrap()
}

fn value(ratio: Ratio) -> f64 {
    ratio.numerator as f64 / ratio.denominator as f64
}

#[test]
fn distribution_of_two_letter_stream() {
    let tokens = split_bytes_by_characters_representation(&two_letters(), &vec![0, 0, 1]).unwrap();
    assert_eq!(tokens, vec![vec![0], vec![0], vec![1]]);
    assert_eq!(distribution_of(&tokens), vec![(vec![0], 2), (vec![1], 1)]);
    let analysis = Statistical::new(two_letters());
    assert_eq!(
        analysis.guess_statistical_distribution(vec![0, 0, 1]),
        Ok(vec![(vec![0], 2), (vec![1], 1)])
    );
}

#[test]
fn distribution_is_sorted_by_opcode_sequence() {
    let tokens: Vec<Vec<u8>> = vec![
        vec![2],
        vec![1, 5],
        vec![1],
        vec![2],
        vec![1, 5],
        vec![0, 255],
        vec![2],
        vec![1, 0, 0],
    ];
    assert_eq!(
        distribution_of(&tokens),
        vec![
            (vec![0, 255], 1),
            (vec![1], 1),
            (vec![1, 0, 0], 1),
            (vec![1, 5], 2),
            (vec![2], 3),
        ]
    );
}

#[test]
fn distribution_leaves_out_what_does_not_occur() {
    let analysis = Statistical::new(letters(5));
    assert_eq!(analysis.guess_statistical_distribution(vec![3, 3, 3]), Ok(vec![(vec![3], 3)]));
}

#[test]
fn distribution_of_nothing_is_empty() {
    assert_eq!(distribution_of(&vec![]), vec![]);
    let analysis = Statistical::new(two_letters());
    assert_eq!(analysis.guess_statistical_distribution(vec![]), Ok(vec![]));
}

#[test]
fn distribution_counts_add_up_to_the_number_of_tokens() {
    let tokens: Vec<Vec<u8>> =
        vec![vec![4], vec![1], vec![4], vec![4, 4], vec![0], vec![1], vec![4], vec![9, 9]];
    let total: usize = distribution_of(&tokens).iter().map(|entry| entry.1).sum();
    assert_eq!(total, tokens.len());
}

#[test]
fn distribution_of_unknown_opcodes_fails() {
    let analysis = Statistical::new(two_letters());
    assert_eq!(
        analysis.guess_statistical_distribution(vec![0, 1, 2, 0]),
        Err(SegmentationError::UnmatchedOpcodeSequence { offset: 2 })
    );
}

#[test]
fn occurrences_are_counted() {
    let tokens: Vec<Vec<u8>> = vec![vec![1], vec![1, 1], vec![1], vec![2]];
    assert_eq!(occurrences_of(&tokens, &vec![1]), 2);
    assert_eq!(occurrences_of(&tokens, &vec![1, 1]), 1);
    assert_eq!(occurrences_of(&tokens, &vec![3]), 0);
}

#[test]
fn frequencies_of_two_letter_stream() {
    let tokens: Vec<Vec<u8>> = vec![vec![0], vec![0], vec![1]];
    let frequencies = frequencies_of(&tokens).unwrap();
    assert_eq!(
        frequencies,
        vec![
            (vec![0], Ratio { numerator: 2, denominator: 3 }),
            (vec![1], Ratio { numerator: 1, denominator: 3 }),
        ]
    );
    let sum: f64 = frequencies.iter().map(|entry| value(entry.1)).sum();
    assert!((sum - 1.0).abs() < 1e-12);
}

#[test]
fn frequencies_add_up_to_one() {
    let tokens: Vec<Vec<u8>> =
        vec![vec![4], vec![1], vec![4], vec![4, 4], vec![0], vec![1], vec![4], vec![9, 9]];
    let frequencies = frequencies_of(&tokens).unwrap();
    let numerators: u128 = frequencies.iter().map(|entry| entry.1.numerator).sum();
    assert_eq!(numerators, 8);
    for entry in &frequencies {
        assert_eq!(entry.1.denominator, 8);
    }
}

#[test]
fn frequencies_of_nothing_are_refused() {
    assert_eq!(frequencies_of(&vec![]), Err(StatisticalError::EmptyInputDistribution));
    let analysis = Statistical::new(two_letters());
    assert_eq!(
        analysis.guess_statistical_frequencies(vec![]),
        Err(AnalysisError::Statistical(StatisticalError::EmptyInputDistribution))
    );
}

#[test]
fn frequencies_of_a_cipher_text() {
    let analysis = Statistical::new(two_letters());
    assert_eq!(
        analysis.guess_statistical_frequencies(vec![1, 0, 1, 1]),
        Ok(vec![
            (vec![0], Ratio { numerator: 1, denominator: 4 }),
            (vec![1], Ratio { numerator: 3, denominator: 4 }),
        ])
    );
    assert_eq!(
        analysis.guess_statistical_frequencies(vec![1, 0, 7]),
        Err(AnalysisError::Segmentation(SegmentationError::UnmatchedOpcodeSequence { offset: 2 }))
    );
}

#[test]
fn coincidence_index_of_two_letter_stream() {
    let tokens: Vec<Vec<u8>> = vec![vec![0], vec![0], vec![1]];
    let index = index_of_coincidence(&two_letters(), &tokens).unwrap();
    assert_eq!(index, Ratio { numerator: 2, denominator: 6 });
    assert!((value(index) - 1.0 / 3.0).abs() < 1e-12);
    let guesser = CoincidenceIndexGuesser::new(two_letters());
    assert_eq!(
        guesser.guess_coincidence_index(vec![0, 0, 1]),
        Ok(Ratio { numerator: 2, denominator: 6 })
    );
}

#[test]
fn coincidence_index_needs_two_tokens() {
    assert_eq!(
        index_of_coincidence(&two_letters(), &vec![]),
        Err(StatisticalError::InsufficientSample)
    );
    assert_eq!(
        index_of_coincidence(&two_letters(), &vec![vec![0]]),
        Err(StatisticalError::InsufficientSample)
    );
    let guesser = CoincidenceIndexGuesser::new(two_letters());
    assert_eq!(
        guesser.guess_coincidence_index(vec![1]),
        Err(AnalysisError::Statistical(StatisticalError::InsufficientSample))
    );
    assert_eq!(
        guesser.guess_coincidence_index(vec![1, 1]),
        Ok(Ratio { numerator: 2, denominator: 2 })
    );
}

#[test]
fn coincidence_index_of_unknown_opcodes_fails() {
    let guesser = CoincidenceIndexGuesser::new(two_letters());
    assert_eq!(
        guesser.guess_coincidence_index(vec![9, 0, 0]),
        Err(AnalysisError::Segmentation(SegmentationError::UnmatchedOpcodeSequence { offset: 0 }))
    );
}

#[test]
fn coincidence_index_of_one_repeated_symbol_is_one() {
    let guesser = CoincidenceIndexGuesser::new(letters(26));
    for length in 2usize..40 {
        let index = guesser.guess_coincidence_index(vec![7; length]).unwrap();
        assert_eq!(index.numerator, index.denominator);
        assert_eq!(index.denominator, (length * (length - 1)) as u128);
    }
}

#[test]
fn coincidence_index_lies_between_zero_and_one() {
    let guesser = CoincidenceIndexGuesser::new(letters(4));
    let texts: Vec<Vec<u8>> = vec![
        vec![0, 1],
        vec![0, 1, 2, 3],
        vec![0, 0, 1, 1, 2, 3, 3, 3],
        vec![2, 2, 2, 2, 2, 1],
        vec![3, 3],
    ];
    for text in texts {
        let index = guesser.guess_coincidence_index(text).unwrap();
        assert!(index.denominator > 0);
        assert!(index.numerator <= index.denominator);
        assert!(0.0 <= value(index) && value(index) <= 1.0);
    }
    assert_eq!(
        guesser.guess_coincidence_index(vec![0, 1, 2, 3]),
        Ok(Ratio { numerator: 0, denominator: 12 })
    );
}

#[test]
fn coincidence_index_of_an_even_text_approaches_one_over_the_size() {
    let size: u8 = 5;
    let guesser = CoincidenceIndexGuesser::new(letters(size));
    let each: usize = 400;
    let mut text: Vec<u8> = Vec::new();
    for _ in 0..each {
        for opcode in 0..size {
            text.push(opcode);
        }
    }
    let index = guesser.guess_coincidence_index(text).unwrap();
    assert_eq!(index.numerator, 5 * 400 * 399);
    assert_eq!(index.denominator, 2000 * 1999);
    assert!((value(index) - 0.2).abs() < 1e-3);
}

#[test]
fn coincidence_index_counts_symbols_of_the_alphabet_only() {
    let tokens: Vec<Vec<u8>> = vec![vec![0], vec![0], vec![5], vec![5], vec![5]];
    assert_eq!(
        index_of_coincidence(&two_letters(), &tokens),
        Ok(Ratio { numerator: 2, denominator: 20 })
    );
}

#[test]
fn coincidence_index_of_a_long_text_does_not_overflow() {
    let guesser = CoincidenceIndexGuesser::new(two_letters());
    let length: usize = 100_000;
    let index = guesser.guess_coincidence_index(vec![1; length]).unwrap();
    assert_eq!(index.numerator, 9_999_900_000);
    assert_eq!(index.denominator, 9_999_900_000);
}

#[test]
fn analyses_give_the_same_result_each_time() {
    let text: Vec<u8> = vec![1, 0, 0, 1, 1, 1, 0, 1];
    let analysis = Statistical::new(two_letters());
    let guesser = CoincidenceIndexGuesser::new(two_letters());
    let distribution = analysis.guess_statistical_distribution(text.clone());
    let frequencies = analysis.guess_statistical_frequencies(text.clone());
    let index = guesser.guess_coincidence_index(text.clone());
    for _ in 0..5 {
        assert_eq!(analysis.guess_statistical_distribution(text.clone()), distribution);
        assert_eq!(analysis.guess_statistical_frequencies(text.clone()), frequencies);
        assert_eq!(guesser.guess_coincidence_index(text.clone()), index);
    }
    assert_eq!(distribution, Ok(vec![(vec![0], 3), (vec![1], 5)]));
    assert_eq!(index, Ok(Ratio { numerator: 26, denominator: 56 }));
}

#[test]
fn analyses_do_not_depend_on_the_order_of_the_alphabet() {
    let one = Alphabet::new(vec![("A".to_string(), vec![0]), ("B".to_string(), vec![1])]).unwrap();
    let other = Alphabet::new(vec![("B".to_string(), vec![1]), ("A".to_string(), vec![0])]).unwrap();
    let text: Vec<u8> = vec![1, 0, 0, 1, 1];
    assert_eq!(
        Statistical::new(one.clone()).guess_statistical_distribution(text.clone()),
        Statistical::new(other.clone()).guess_statistical_distribution(text.clone())
    );
    assert_eq!(
        CoincidenceIndexGuesser::new(one).guess_coincidence_index(text.clone()),
        CoincidenceIndexGuesser::new(other).guess_coincidence_index(text)
    );
}
