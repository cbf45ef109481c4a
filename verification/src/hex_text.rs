//! Bytes as hexadecimal text.

use crate::text::{digit_char, digit_value};
use vstd::prelude::*;

verus! {

/// The lowercase hexadecimal digit of `n`.
pub open spec fn hex_digit(n: int) -> char {
    if n < 10 {
        digit_char(n)
    } else if n == 10 {
        'a'
    } else if n == 11 {
        'b'
    } else if n == 12 {
        'c'
    } else if n == 13 {
        'd'
    } else if n == 14 {
        'e'
    } else {
        'f'
    }
}

/// What a hexadecimal digit of either case stands for.
pub open spec fn hex_value(c: char) -> Option<int> {
    if 'a' <= c && c <= 'f' {
        Some(c as int - 'a' as int + 10)
    } else if 'A' <= c && c <= 'F' {
        Some(c as int - 'A' as int + 10)
    } else {
        digit_value(c)
    }
}

/// `n` in hexadecimal, without leading zeros.
pub open spec fn hex_number(n: nat) -> Seq<char>
    decreases n,
{
    if n < 16 {
        seq![hex_digit(n as int)]
    } else {
        hex_number(n / 16).push(hex_digit((n % 16) as int))
    }
}

fn hex_digit_of(n: u64) -> (c: char)
    requires
        n < 16,
    ensures
        c == hex_digit(n as int),
{
    match n {
        0 => '0',
        1 => '1',
        2 => '2',
        3 => '3',
        4 => '4',
        5 => '5',
        6 => '6',
        7 => '7',
        8 => '8',
        9 => '9',
        10 => 'a',
        11 => 'b',
        12 => 'c',
        13 => 'd',
        14 => 'e',
        _ => 'f',
    }
}

/// Append `n` in hexadecimal.
pub fn push_hex(out: &mut String, n: u64)
    ensures
        final(out)@ == old(out)@ + hex_number(n as nat),
    decreases n,
{
    if n >= 16 {
        push_hex(out, n / 16);
    }
    out.push(hex_digit_of(n % 16));
    assert(out@ =~= old(out)@ + hex_number(n as nat));
}

/// Two lowercase hexadecimal digits for each byte, the high half first.
pub open spec fn hex_text(data: Seq<u8>) -> Seq<char> {
    Seq::new(
        2 * data.len(),
        |i: int|
            hex_digit(
                if i % 2 == 0 {
                    data[i / 2] / 16
                } else {
                    data[i / 2] % 16
                } as int,
            ),
    )
}

/// Whether `text` writes whole bytes in hexadecimal.
pub open spec fn is_hex(text: Seq<char>) -> bool {
    &&& text.len() % 2 == 0
    &&& forall|i: int| 0 <= i < text.len() ==> hex_value(#[trigger] text[i]) is Some
}

/// The bytes that `text` writes in hexadecimal.
pub open spec fn hex_bytes(text: Seq<char>) -> Seq<u8> {
    Seq::new(
        text.len() / 2,
        |i: int| (hex_value(text[2 * i])->0 * 16 + hex_value(text[2 * i + 1])->0) as u8,
    )
}

/// What was written in hexadecimal reads back as it was.
pub proof fn law_hex_reads_back(data: Seq<u8>)
    ensures
        is_hex(hex_text(data)),
        hex_bytes(hex_text(data)) == data,
{
    let text = hex_text(data);
    assert forall|n: int| 0 <= n < 16 implies hex_value(#[trigger] hex_digit(n)) == Some(n) by {}
    assert forall|i: int| 0 <= i < data.len() implies #[trigger] hex_bytes(text)[i] == data[i] by {
        assert(text[2 * i] == hex_digit((data[i] / 16) as int));
        assert(text[2 * i + 1] == hex_digit((data[i] % 16) as int));
    }
    assert forall|i: int| 0 <= i < text.len() implies hex_value(#[trigger] text[i]) is Some by {
        if i % 2 == 0 {
            assert(text[i] == hex_digit((data[i / 2] / 16) as int));
        } else {
            assert(text[i] == hex_digit((data[i / 2] % 16) as int));
        }
    }
    assert(hex_bytes(text) =~= data);
}

/// The sixteen digits are the ten decimal ones and the first six letters, in
/// their order. A letter counts the same in either case.
pub proof fn law_hex_digits_stand_in_order(n: int, c: char)
    requires
        0 <= n < 16,
    ensures
        n < 10 ==> hex_digit(n) as int == '0' as int + n,
        n >= 10 ==> hex_digit(n) as int == 'a' as int + (n - 10),
        hex_value(hex_digit(n)) == Some(n),
        n >= 10 ==> hex_value(('A' as int + (n - 10)) as char) == Some(n),
        hex_value(c) matches Some(value) ==> 0 <= value < 16,
{
}

/// One more hexadecimal digit makes a number sixteenfold and that digit, and
/// none but zero itself begins with a zero.
pub proof fn law_a_hex_digit_more_is_sixteen_times_as_much(n: nat, d: nat)
    requires
        d < 16,
    ensures
        hex_number(d) == seq![hex_digit(d as int)],
        n > 0 ==> hex_number((16 * n + d) as nat) == hex_number(n).push(hex_digit(d as int)),
        hex_number(n).len() > 0,
        n > 0 ==> hex_number(n)[0] != '0',
    decreases n,
{
    if n > 0 {
        assert((16 * n + d) as nat / 16 == n);
        assert((16 * n + d) as nat % 16 == d);
        if n >= 16 {
            law_a_hex_digit_more_is_sixteen_times_as_much(n / 16, n % 16);
            assert(hex_number(n)[0] == hex_number(n / 16)[0]);
        }
    }
}

/// Bytes are written one behind the other, with two digits each.
pub proof fn law_hex_text_joins(a: Seq<u8>, b: Seq<u8>)
    ensures
        hex_text(a + b) == hex_text(a) + hex_text(b),
        hex_text(a).len() == 2 * a.len(),
{
    let both = hex_text(a) + hex_text(b);
    assert forall|i: int| 0 <= i < both.len() implies hex_text(a + b)[i] == both[i] by {
        if i >= 2 * a.len() {
            let j = i - 2 * a.len();
            assert(i / 2 == j / 2 + a.len() && i % 2 == j % 2);
        }
    }
    assert(hex_text(a + b) =~= both);
}

} // verus!
