use cryptatools_core::utils::alphabets::{Alphabet, ConfigurationError};
use cryptatools_core::utils::segmentation::{
    split_bytes_by_characters_representation, uniffy_opcode_group, SegmentationError,
};

fn symbol(name: &str, opcodes: &[u8]) -> (String, Vec<u8>) {
    (name.to_string(), opcodes.to_vec())
}

fn two_letters() -> Alphabet {
    Alphabet::new(vec![symbol("A", &[0]), symbol("B", &[1])]).unwrap()
}

#[test]
fn alphabet_keeps_its_symbols() {
    let alphabet = Alphabet::new(vec![symbol("B", &[1]), symbol("A", &[0])]).unwrap();
    assert_eq!(alphabet.len(), 2);
    assert_eq!(alphabet.symbols(), &vec![symbol("B", &[1]), symbol("A", &[0])]);
}

#[test]
fn empty_alphabet_is_refused() {
    assert_eq!(Alphabet::new(vec![]).unwrap_err(), ConfigurationError::EmptyAlphabet);
}

#[test]
fn duplicate_opcode_sequence_is_refused() {
    let symbols = vec![symbol("A", &[0, 1]), symbol("B", &[2]), symbol("C", &[0, 1])];
    assert_eq!(Alphabet::new(symbols).unwrap_err(), ConfigurationError::DuplicateOpcodeSequence);
}

#[test]
fn duplicate_name_is_refused() {
    let symbols = vec![symbol("A", &[0]), symbol("A", &[1])];
    assert_eq!(Alphabet::new(symbols).unwrap_err(), ConfigurationError::MalformedAlphabetConfig);
}

#[test]
fn symbol_without_opcode_is_refused() {
    let symbols = vec![symbol("A", &[0]), symbol("B", &[])];
    assert_eq!(Alphabet::new(symbols).unwrap_err(), ConfigurationError::MalformedAlphabetConfig);
}

#[test]
fn duplicate_opcode_sequence_comes_before_malformed() {
    let symbols = vec![symbol("A", &[0]), symbol("B", &[0]), symbol("A", &[3])];
    assert_eq!(Alphabet::new(symbols).unwrap_err(), ConfigurationError::DuplicateOpcodeSequence);
    let symbols = vec![symbol("A", &[]), symbol("B", &[])];
    assert_eq!(Alphabet::new(symbols).unwrap_err(), ConfigurationError::DuplicateOpcodeSequence);
    let symbols = vec![symbol("A", &[]), symbol("B", &[1]), symbol("C", &[1])];
    assert_eq!(Alphabet::new(symbols).unwrap_err(), ConfigurationError::DuplicateOpcodeSequence);
}

#[test]
fn canonical_order_is_by_name() {
    let alphabet = Alphabet::new(vec![
        symbol("b", &[9]),
        symbol("C", &[1]),
        symbol("a", &[7, 7]),
        symbol("B", &[3]),
        symbol("", &[4]),
        symbol("aa", &[5]),
    ])
    .unwrap();
    assert_eq!(
        alphabet.canonical_order(),
        vec![
            symbol("", &[4]),
            symbol("B", &[3]),
            symbol("C", &[1]),
            symbol("a", &[7, 7]),
            symbol("aa", &[5]),
            symbol("b", &[9]),
        ]
    );
}

#[test]
fn canonical_order_is_by_code_point() {
    let alphabet =
        Alphabet::new(vec![symbol("é", &[2]), symbol("z", &[1]), symbol("€", &[3])]).unwrap();
    assert_eq!(
        alphabet.canonical_order(),
        vec![symbol("z", &[1]), symbol("é", &[2]), symbol("€", &[3])]
    );
}

#[test]
fn canonical_order_does_not_depend_on_the_order_given() {
    let one = Alphabet::new(vec![symbol("A", &[0]), symbol("B", &[1]), symbol("C", &[2])]).unwrap();
    let other =
        Alphabet::new(vec![symbol("C", &[2]), symbol("A", &[0]), symbol("B", &[1])]).unwrap();
    assert_eq!(one.canonical_order(), other.canonical_order());
}

#[test]
fn lookup_finds_the_owner_of_a_sequence() {
    let alphabet = Alphabet::new(vec![symbol("X", &[1]), symbol("Y", &[1, 2])]).unwrap();
    assert_eq!(alphabet.lookup_by_opcode_sequence(&vec![1, 2]), Some("Y".to_string()));
    assert_eq!(alphabet.lookup_by_opcode_sequence(&vec![1]), Some("X".to_string()));
}

#[test]
fn lookup_of_an_unknown_sequence_finds_nothing() {
    let alphabet = Alphabet::new(vec![symbol("X", &[1]), symbol("Y", &[1, 2])]).unwrap();
    assert_eq!(alphabet.lookup_by_opcode_sequence(&vec![2]), None);
    assert_eq!(alphabet.lookup_by_opcode_sequence(&vec![]), None);
    assert_eq!(alphabet.lookup_by_opcode_sequence(&vec![1, 2, 3]), None);
}

#[test]
fn opcode_sequences_are_grouped_by_descending_length() {
    let alphabet = Alphabet::new(vec![
        symbol("a", &[1]),
        symbol("b", &[2, 3, 4]),
        symbol("c", &[5]),
        symbol("d", &[6, 7, 8]),
        symbol("e", &[9, 9, 9, 9, 9]),
    ])
    .unwrap();
    assert_eq!(
        alphabet.all_opcode_sequences_by_length(),
        vec![
            vec![vec![9, 9, 9, 9, 9]],
            vec![vec![2, 3, 4], vec![6, 7, 8]],
            vec![vec![1], vec![5]],
        ]
    );
}

#[test]
fn one_group_for_a_fixed_length_alphabet() {
    assert_eq!(two_letters().all_opcode_sequences_by_length(), vec![vec![vec![0], vec![1]]]);
}

#[test]
fn tokenize_two_letter_stream() {
    let tokens = split_bytes_by_characters_representation(&two_letters(), &vec![0, 0, 1]);
    assert_eq!(tokens, Ok(vec![vec![0], vec![0], vec![1]]));
}

#[test]
fn tokenize_empty_stream() {
    let tokens = split_bytes_by_characters_representation(&two_letters(), &vec![]);
    assert_eq!(tokens, Ok(vec![]));
}

#[test]
fn tokenize_takes_the_longest_match() {
    let alphabet = Alphabet::new(vec![symbol("X", &[1]), symbol("Y", &[1, 2])]).unwrap();
    let tokens = split_bytes_by_characters_representation(&alphabet, &vec![1, 2]);
    assert_eq!(tokens, Ok(vec![vec![1, 2]]));
    let tokens = split_bytes_by_characters_representation(&alphabet, &vec![1, 1, 2, 1]);
    assert_eq!(tokens, Ok(vec![vec![1], vec![1, 2], vec![1]]));
}

#[test]
fn tokenize_reports_the_offset_of_what_matches_nothing() {
    let alphabet = Alphabet::new(vec![symbol("X", &[1]), symbol("Y", &[1, 2])]).unwrap();
    assert_eq!(
        split_bytes_by_characters_representation(&alphabet, &vec![1, 2, 1, 3, 1]),
        Err(SegmentationError::UnmatchedOpcodeSequence { offset: 3 })
    );
    assert_eq!(
        split_bytes_by_characters_representation(&alphabet, &vec![2]),
        Err(SegmentationError::UnmatchedOpcodeSequence { offset: 0 })
    );
}

#[test]
fn greedy_cut_can_miss_another_valid_cut() {
    let alphabet =
        Alphabet::new(vec![symbol("X", &[1]), symbol("Y", &[1, 2]), symbol("Z", &[2, 3])]).unwrap();
    assert_eq!(
        split_bytes_by_characters_representation(&alphabet, &vec![1, 2, 3]),
        Err(SegmentationError::UnmatchedOpcodeSequence { offset: 2 })
    );
}

#[test]
fn tokenize_partial_sequence_at_the_end() {
    let alphabet = Alphabet::new(vec![symbol("L", &[7, 8, 9])]).unwrap();
    assert_eq!(
        split_bytes_by_characters_representation(&alphabet, &vec![7, 8, 9, 7, 8]),
        Err(SegmentationError::UnmatchedOpcodeSequence { offset: 3 })
    );
}

#[test]
fn concatenation_puts_the_stream_together() {
    assert_eq!(uniffy_opcode_group(vec![vec![1, 2], vec![], vec![3], vec![4, 5, 6]]), vec![
        1, 2, 3, 4, 5, 6
    ]);
    assert_eq!(uniffy_opcode_group(vec![]), Vec::<u8>::new());
}

#[test]
fn round_trip_reproduces_the_stream() {
    let alphabet = Alphabet::new(vec![
        symbol("a", &[1]),
        symbol("b", &[1, 2]),
        symbol("c", &[3, 1]),
        symbol("d", &[2, 2, 2]),
    ])
    .unwrap();
    let streams: Vec<Vec<u8>> = vec![
        vec![],
        vec![1],
        vec![1, 2, 1, 3, 1, 2, 2, 2, 1, 2],
        vec![3, 1, 2, 2, 2, 1, 1, 1, 2],
        vec![2, 2, 2, 2, 2, 2],
    ];
    for stream in streams {
        let tokens = split_bytes_by_characters_representation(&alphabet, &stream).unwrap();
        for token in &tokens {
            assert!(alphabet.lookup_by_opcode_sequence(token).is_some());
        }
        assert_eq!(uniffy_opcode_group(tokens), stream);
    }
}

#[test]
fn prefix_free_alphabet_gives_back_the_symbols() {
    let alphabet =
        Alphabet::new(vec![symbol("a", &[0]), symbol("b", &[1, 0]), symbol("c", &[1, 1])]).unwrap();
    let tokens: Vec<Vec<u8>> = vec![vec![1, 0], vec![0], vec![0], vec![1, 1], vec![1, 0]];
    let stream = uniffy_opcode_group(tokens.clone());
    assert_eq!(split_bytes_by_characters_representation(&alphabet, &stream), Ok(tokens));
}
