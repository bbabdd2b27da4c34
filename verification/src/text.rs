//! The words in which failures are told.
use vstd::prelude::*;

verus! {

/// The upper-case hexadecimal digit of a value below 16.
pub open spec fn hex_digit(n: int) -> char {
    if n < 10 {
        ('0' as int + n) as char
    } else {
        ('A' as int + n - 10) as char
    }
}

/// A byte as two upper-case hexadecimal digits.
pub open spec fn hex_byte(b: u8) -> Seq<char> {
    seq![hex_digit(b as int / 16), hex_digit(b as int % 16)]
}

/// The value of an upper-case hexadecimal digit.
pub open spec fn digit_value(c: char) -> int {
    if c as int <= '9' as int {
        c as int - '0' as int
    } else {
        c as int - 'A' as int + 10
    }
}

/// One of the digits 0 to 9 or A to F.
pub open spec fn is_digit(c: char) -> bool {
    '0' as int <= c as int <= '9' as int || 'A' as int <= c as int <= 'F' as int
}

/// The two digits of a byte are hexadecimal digits, and read as such they are the
/// byte.
pub proof fn law_hex_reads_back(b: u8)
    ensures
        hex_byte(b).len() == 2,
        is_digit(hex_byte(b)[0]),
        is_digit(hex_byte(b)[1]),
        16 * digit_value(hex_byte(b)[0]) + digit_value(hex_byte(b)[1]) == b,
{
}

/// The text ends with the given words.
pub open spec fn ends_with(text: Seq<char>, words: Seq<char>) -> bool {
    &&& text.len() >= words.len()
    &&& text.skip(text.len() - words.len()) == words
}

fn digit_text(n: u8) -> (r: &'static str)
    requires
        n < 16,
    ensures
        r@ == seq![hex_digit(n as int)],
{
    proof {
        reveal_strlit("0");
        reveal_strlit("1");
        reveal_strlit("2");
        reveal_strlit("3");
        reveal_strlit("4");
        reveal_strlit("5");
        reveal_strlit("6");
        reveal_strlit("7");
        reveal_strlit("8");
        reveal_strlit("9");
        reveal_strlit("A");
        reveal_strlit("B");
        reveal_strlit("C");
        reveal_strlit("D");
        reveal_strlit("E");
        reveal_strlit("F");
    }
    match n {
        0 => "0",
        1 => "1",
        2 => "2",
        3 => "3",
        4 => "4",
        5 => "5",
        6 => "6",
        7 => "7",
        8 => "8",
        9 => "9",
        10 => "A",
        11 => "B",
        12 => "C",
        13 => "D",
        14 => "E",
        _ => "F",
    }
}

/// Appends a byte as two hexadecimal digits.
pub fn append_hex(text: &mut String, b: u8)
    ensures
        final(text)@ == old(text)@ + hex_byte(b),
{
    text.append(digit_text(b / 16));
    text.append(digit_text(b % 16));
    proof {
        assert(seq![hex_digit(b as int / 16)] + seq![hex_digit(b as int % 16)] =~= hex_byte(b));
    }
}

} // verus!
