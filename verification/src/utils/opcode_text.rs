//! Opcodes written as text: a stream as decimal digits, two to an opcode,
//! and an opcode sequence as the decimal numbers of its opcodes.

use vstd::prelude::*;
use vstd::string::{is_ascii_spec_bytes, StringExecFns};

verus! {

/// One of the characters `0` to `9`.
pub open spec fn is_decimal_digit(c: char) -> bool {
    '0' <= c <= '9'
}

/// The number that a decimal digit stands for.
pub open spec fn digit_value(c: char) -> int {
    c as int - '0' as int
}

/// The opcodes that a text of decimal digits stands for: each two digits are
/// one opcode, and a last digit without a partner is one by itself.
pub open spec fn decoded(text: Seq<char>) -> Seq<u8> {
    Seq::new(
        ((text.len() + 1) / 2) as nat,
        |i: int|
            if 2 * i + 1 < text.len() {
                (10 * digit_value(text[2 * i]) + digit_value(text[2 * i + 1])) as u8
            } else {
                digit_value(text[2 * i]) as u8
            },
    )
}

/// The decimal digit for a number below ten.
pub open spec fn digit_char(digit: u8) -> char {
    if digit == 0 {
        '0'
    } else if digit == 1 {
        '1'
    } else if digit == 2 {
        '2'
    } else if digit == 3 {
        '3'
    } else if digit == 4 {
        '4'
    } else if digit == 5 {
        '5'
    } else if digit == 6 {
        '6'
    } else if digit == 7 {
        '7'
    } else if digit == 8 {
        '8'
    } else {
        '9'
    }
}

/// An opcode as a decimal number, without leading zeros.
pub open spec fn decimal(opcode: u8) -> Seq<char> {
    if opcode >= 100 {
        seq![digit_char(opcode / 100), digit_char((opcode / 10) % 10), digit_char(opcode % 10)]
    } else if opcode >= 10 {
        seq![digit_char(opcode / 10), digit_char(opcode % 10)]
    } else {
        seq![digit_char(opcode)]
    }
}

/// The decimal numbers of the opcodes, one behind the other with nothing in
/// between.
pub open spec fn label(opcodes: Seq<u8>) -> Seq<char>
    decreases opcodes.len(),
{
    if opcodes.len() == 0 {
        Seq::empty()
    } else {
        label(opcodes.drop_last()) + decimal(opcodes.last())
    }
}

/// Reads an opcode stream written as decimal digits, two to an opcode. A last
/// digit without a partner is an opcode by itself. There is no stream where
/// the text holds anything but decimal digits.
pub fn opcodes_from_text(text: &str) -> (r: Option<Vec<u8>>)
    ensures
        match r {
            Some(opcodes) => {
                &&& forall|i: int| 0 <= i < text@.len() ==> is_decimal_digit(#[trigger] text@[i])
                &&& opcodes@ == decoded(text@)
            },
            None => exists|i: int| 0 <= i < text@.len() && !is_decimal_digit(#[trigger] text@[i]),
        },
{
    if !text.is_ascii() {
        proof {
            let i = choose|i: int|
                0 <= i < text@.len() && !('\0' <= #[trigger] text@[i] <= '\u{7f}');
            assert(!is_decimal_digit(text@[i]));
        }
        return None;
    }
    let bytes = text.as_bytes();
    proof {
        is_ascii_spec_bytes(text);
    }
    let n = bytes.len();
    let mut i: usize = 0;
    while i < n
        invariant
            i <= n,
            n == text@.len(),
            bytes@.len() == n,
            forall|k: int| 0 <= k < n ==> bytes@[k] == (#[trigger] text@[k]) as u8,
            forall|k: int| 0 <= k < n ==> '\0' <= #[trigger] text@[k] <= '\u{7f}',
            forall|k: int| 0 <= k < i ==> is_decimal_digit(#[trigger] text@[k]),
        decreases n - i,
    {
        let b = bytes[i];
        if b < 48 || b > 57 {
            assert(!is_decimal_digit(text@[i as int]));
            return None;
        }
        i += 1;
    }
    let mut opcodes: Vec<u8> = Vec::new();
    let mut i: usize = 0;
    while i < n
        invariant
            i <= n,
            i % 2 == 0 || i == n,
            n == text@.len(),
            bytes@.len() == n,
            forall|k: int| 0 <= k < n ==> bytes@[k] == (#[trigger] text@[k]) as u8,
            forall|k: int| 0 <= k < n ==> is_decimal_digit(#[trigger] text@[k]),
            opcodes@.len() == (i + 1) / 2,
            forall|j: int| 0 <= j < opcodes@.len() ==> opcodes@[j] == decoded(text@)[j],
        decreases n - i,
    {
        assert(is_decimal_digit(text@[i as int]));
        if n - i >= 2 {
            assert(is_decimal_digit(text@[i + 1]));
            let opcode = 10 * (bytes[i] - 48) + (bytes[i + 1] - 48);
            opcodes.push(opcode);
            i += 2;
        } else {
            opcodes.push(bytes[i] - 48);
            i += 1;
        }
    }
    assert(opcodes@ =~= decoded(text@));
    Some(opcodes)
}

/// The text of one decimal digit.
fn digit_text(digit: u8) -> (text: &'static str)
    requires
        digit < 10,
    ensures
        text@ == seq![digit_char(digit)],
{
    proof {
        reveal_strlit("0");
        reveal_strlit("1");
        reveal_strlit("2");
        reveal_strlit("3");
        reveal_strlit("4");
        reveal_strlit("5");
        reveal_strlit("6");
        reveal_strlit("7");
        reveal_strlit("8");
        reveal_strlit("9");
    }
    let text = if digit == 0 {
        "0"
    } else if digit == 1 {
        "1"
    } else if digit == 2 {
        "2"
    } else if digit == 3 {
        "3"
    } else if digit == 4 {
        "4"
    } else if digit == 5 {
        "5"
    } else if digit == 6 {
        "6"
    } else if digit == 7 {
        "7"
    } else if digit == 8 {
        "8"
    } else {
        "9"
    };
    assert(text@ =~= seq![digit_char(digit)]);
    text
}

/// Writes an opcode sequence as the decimal numbers of its opcodes, one
/// behind the other with nothing in between.
pub fn opcodes_label(opcodes: &Vec<u8>) -> (text: String)
    ensures
        text@ == label(opcodes@),
{
    let mut text = String::new();
    let mut i: usize = 0;
    assert(opcodes@.take(0) =~= Seq::empty());
    while i < opcodes.len()
        invariant
            i <= opcodes.len(),
            text@ == label(opcodes@.take(i as int)),
        decreases opcodes.len() - i,
    {
        let opcode = opcodes[i];
        let ghost before = text@;
        if opcode >= 100 {
            text.append(digit_text(opcode / 100));
        }
        if opcode >= 10 {
            text.append(digit_text((opcode / 10) % 10));
        }
        text.append(digit_text(opcode % 10));
        proof {
            assert(text@ =~= before + decimal(opcode));
            assert(opcodes@.take(i + 1).drop_last() =~= opcodes@.take(i as int));
        }
        i += 1;
    }
    assert(opcodes@.take(i as int) =~= opcodes@);
    text
}

} // verus!
