use cryptatools_core::cryptography::encryption::monoalphabetic_ciphers::caesar_number::CaesarNumberAlgorithm;
use cryptatools_core::utils::alphabets::Alphabet;

fn ascii_alphabet() -> Alphabet {
    let mut symbols: Vec<(String, Vec<u8>)> = Vec::new();
    for opcode in 0u8..128 {
        symbols.push((format!("{:03}", opcode), vec![opcode]));
    }
    Alphabet::new(symbols).unwrap()
}

fn letters() -> Alphabet {
    Alphabet::new(vec![
        ("C".to_string(), vec![30]),
        ("A".to_string(), vec![10]),
        ("D".to_string(), vec![40, 41]),
        ("B".to_string(), vec![20]),
    ])
    .unwrap()
}

#[test]
fn encrypt_with_caesar_number_encryption_algorithm() {
    let c = CaesarNumberAlgorithm::new(ascii_alphabet());
    let encrypted = c.encrypt_by_opcode_shift(vec![0x42, 0x42, 0x42], 1);
    assert_eq!(vec![0x43, 0x43, 0x43], encrypted);
}

#[test]
fn opcode_shift_by_one_and_by_ten() {
    let c = CaesarNumberAlgorithm::new(ascii_alphabet());
    assert_eq!(c.encrypt_by_opcode_shift(vec![0x41, 0x41, 0x41], 1), vec![0x42, 0x42, 0x42]);
    assert_eq!(c.encrypt_by_opcode_shift(vec![0x41, 0x41, 0x41], 10), vec![0x4b, 0x4b, 0x4b]);
    assert_eq!(c.encrypt_by_opcode_shift(vec![], 10), Vec::<u8>::new());
}

#[test]
fn opcode_shift_starts_again_after_254() {
    let c = CaesarNumberAlgorithm::new(ascii_alphabet());
    assert_eq!(c.encrypt_by_opcode_shift(vec![254, 255, 0, 100], 1), vec![0, 1, 1, 101]);
    assert_eq!(c.encrypt_by_opcode_shift(vec![7], 255), vec![7]);
    assert_eq!(c.encrypt_by_opcode_shift(vec![200], 100), vec![45]);
}

#[test]
fn opcode_shift_with_the_greatest_key() {
    let c = CaesarNumberAlgorithm::new(ascii_alphabet());
    // 4294967295 = 255 * 16843009, so the key moves nothing.
    assert_eq!(c.encrypt_by_opcode_shift(vec![0, 1, 254], u32::MAX), vec![0, 1, 254]);
    assert_eq!(c.encrypt_by_opcode_shift(vec![255], u32::MAX), vec![0]);
}

#[test]
fn alphabet_shift_moves_in_canonical_order() {
    let c = CaesarNumberAlgorithm::new(letters());
    assert_eq!(c.encrypt_by_alphabet_shift(vec![10, 20, 30], 1), vec![20, 30, 40, 41]);
    assert_eq!(c.encrypt_by_alphabet_shift(vec![40, 41, 10], 1), vec![10, 20]);
    assert_eq!(c.encrypt_by_alphabet_shift(vec![10, 40, 41], 2), vec![30, 20]);
}

#[test]
fn alphabet_shift_by_a_multiple_of_the_size_changes_nothing() {
    let c = CaesarNumberAlgorithm::new(letters());
    let plain = vec![30, 40, 41, 10, 10, 20];
    assert_eq!(c.encrypt_by_alphabet_shift(plain.clone(), 0), plain);
    assert_eq!(c.encrypt_by_alphabet_shift(plain.clone(), 4), plain);
    assert_eq!(c.encrypt_by_alphabet_shift(plain.clone(), 4000), plain);
    assert_eq!(c.encrypt_by_alphabet_shift(vec![10], u32::MAX), vec![40, 41]);
}

#[test]
fn alphabet_shift_of_nothing_is_nothing() {
    let c = CaesarNumberAlgorithm::new(letters());
    assert_eq!(c.encrypt_by_alphabet_shift(vec![], 3), Vec::<u8>::new());
}

#[test]
fn alphabet_shift_over_the_ascii_alphabet() {
    let c = CaesarNumberAlgorithm::new(ascii_alphabet());
    assert_eq!(c.encrypt_by_alphabet_shift(vec![0x41, 0x41, 0x41], 1), vec![0x42, 0x42, 0x42]);
    assert_eq!(c.encrypt_by_alphabet_shift(vec![127, 0], 1), vec![0, 1]);
}
