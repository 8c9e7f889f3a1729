use cryptatools_core::utils::opcode_text::{opcodes_from_text, opcodes_label};

#[test]
fn text_of_digit_pairs_is_read() {
    assert_eq!(opcodes_from_text("1234"), Some(vec![12, 34]));
    assert_eq!(opcodes_from_text("000199"), Some(vec![0, 1, 99]));
    assert_eq!(opcodes_from_text("65"), Some(vec![65]));
}

#[test]
fn empty_text_is_an_empty_stream() {
    assert_eq!(opcodes_from_text(""), Some(vec![]));
}

#[test]
fn last_digit_without_partner_is_an_opcode() {
    assert_eq!(opcodes_from_text("123"), Some(vec![12, 3]));
    assert_eq!(opcodes_from_text("7"), Some(vec![7]));
}

#[test]
fn text_with_anything_but_digits_is_refused() {
    assert_eq!(opcodes_from_text("12a4"), None);
    assert_eq!(opcodes_from_text("+5"), None);
    assert_eq!(opcodes_from_text("12 34"), None);
    assert_eq!(opcodes_from_text("-1"), None);
    assert_eq!(opcodes_from_text("１２"), None);
    assert_eq!(opcodes_from_text("12é"), None);
}

#[test]
fn label_is_the_decimal_numbers_without_separator() {
    assert_eq!(opcodes_label(&vec![65, 66]), "6566");
    assert_eq!(opcodes_label(&vec![7, 100, 255, 0, 10, 99]), "710025501099");
    assert_eq!(opcodes_label(&vec![0]), "0");
    assert_eq!(opcodes_label(&vec![]), "");
}

#[test]
fn label_of_every_opcode_is_its_decimal_number() {
    for opcode in 0u8..=255 {
        assert_eq!(opcodes_label(&vec![opcode]), opcode.to_string());
    }
}
