//! Text for people: identifiers in hexadecimal, and the numbers that files
//! and directories of a repository are named by.

use crate::wire::starts_with;
use vstd::prelude::*;
use vstd::slice::slice_subrange;
use vstd::string::StringExecFns;
use vstd::string::StringSliceAdditionalSpecFns;

verus! {

/// The upper-case hexadecimal digit of a number below sixteen.
pub open spec fn hex_digit(n: int) -> char
    recommends
        0 <= n < 16,
{
    seq![
        '0',
        '1',
        '2',
        '3',
        '4',
        '5',
        '6',
        '7',
        '8',
        '9',
        'A',
        'B',
        'C',
        'D',
        'E',
        'F',
    ][n]
}

/// The bytes in hexadecimal: two upper-case digits for each byte, and one
/// space between two bytes.
pub open spec fn hex_text(bytes: Seq<u8>) -> Seq<char>
    decreases bytes.len(),
{
    if bytes.len() == 0 {
        Seq::empty()
    } else if bytes.len() == 1 {
        seq![hex_digit(bytes[0] as int / 16), hex_digit(bytes[0] as int % 16)]
    } else {
        hex_text(bytes.drop_last()) + seq![
            ' ',
            hex_digit(bytes.last() as int / 16),
            hex_digit(bytes.last() as int % 16),
        ]
    }
}

/// The digit of `n` as a string of one character.
fn digit_str(n: u8) -> (s: &'static str)
    requires
        n < 16,
    ensures
        s@ == seq![hex_digit(n as int)],
{
    proof {
        reveal_strlit("0");
        reveal_strlit("1");
        reveal_strlit("2");
        reveal_strlit("3");
        reveal_strlit("4");
        reveal_strlit("5");
        reveal_strlit("6");
        reveal_strlit("7");
        reveal_strlit("8");
        reveal_strlit("9");
        reveal_strlit("A");
        reveal_strlit("B");
        reveal_strlit("C");
        reveal_strlit("D");
        reveal_strlit("E");
        reveal_strlit("F");
    }
    let s = match n {
        0 => "0",
        1 => "1",
        2 => "2",
        3 => "3",
        4 => "4",
        5 => "5",
        6 => "6",
        7 => "7",
        8 => "8",
        9 => "9",
        10 => "A",
        11 => "B",
        12 => "C",
        13 => "D",
        14 => "E",
        _ => "F",
    };
    assert(s@ =~= seq![hex_digit(n as int)]);
    s
}

/// The bytes in hexadecimal, as [`hex_text`] lays them out: `DE AD BE EF`.
pub fn hex_str(x: &[u8]) -> (s: String)
    ensures
        s@ == hex_text(x@),
{
    let mut s = String::new();
    let mut i: usize = 0;
    while i < x.len()
        invariant
            i <= x@.len(),
            s@ == hex_text(x@.take(i as int)),
        decreases x@.len() - i,
    {
        let ghost before = s@;
        if i > 0 {
            proof {
                reveal_strlit(" ");
            }
            s.append(" ");
        }
        s.append(digit_str(x[i] / 16));
        s.append(digit_str(x[i] % 16));
        proof {
            let upto = x@.take(i + 1);
            assert(upto.drop_last() =~= x@.take(i as int));
            assert(upto.last() == x@[i as int]);
            if i > 0 {
                assert(s@ =~= before + seq![
                    ' ',
                    hex_digit(x@[i as int] as int / 16),
                    hex_digit(x@[i as int] as int % 16),
                ]);
            } else {
                assert(s@ =~= seq![
                    hex_digit(x@[i as int] as int / 16),
                    hex_digit(x@[i as int] as int % 16),
                ]);
            }
        }
        i += 1;
    }
    assert(x@.take(x@.len() as int) =~= x@);
    s
}

/// The number in decimal digits.
pub open spec fn decimal_text(n: nat) -> Seq<char>
    decreases n,
{
    if n < 10 {
        seq![hex_digit(n as int)]
    } else {
        decimal_text(n / 10).push(hex_digit((n % 10) as int))
    }
}

/// Writes the number behind the text, in decimal digits.
fn append_decimal(text: &mut String, n: usize)
    ensures
        final(text)@ == old(text)@ + decimal_text(n as nat),
    decreases n,
{
    if n >= 10 {
        append_decimal(text, n / 10);
    }
    let ghost before = text@;
    text.append(digit_str((n % 10) as u8));
    assert(text@ =~= old(text)@ + decimal_text(n as nat)) by {
        if n >= 10 {
            assert(before == old(text)@ + decimal_text((n / 10) as nat));
        }
    }
}

/// The number in decimal digits, as [`decimal_text`] spells it.
pub fn decimal_str(n: usize) -> (s: String)
    ensures
        s@ == decimal_text(n as nat),
{
    let mut s = String::new();
    append_decimal(&mut s, n);
    assert(s@ =~= decimal_text(n as nat));
    s
}

/// Whether the byte is an ASCII digit.
pub open spec fn is_digit(b: u8) -> bool {
    0x30 <= b <= 0x39
}

/// Whether the bytes are ASCII digits, all of them.
pub open spec fn all_digits(text: Seq<u8>) -> bool {
    forall|i: int| 0 <= i < text.len() ==> is_digit(#[trigger] text[i])
}

/// The number that decimal digits spell.
pub open spec fn digits_value(digits: Seq<u8>) -> int
    decreases digits.len(),
{
    if digits.len() == 0 {
        0
    } else {
        10 * digits_value(digits.drop_last()) + (digits.last() - 0x30)
    }
}

/// The number that a name spells: decimal digits, at least one, with or
/// without a plus sign before them, and a value that fits 32 bits. Any
/// other name spells none.
pub open spec fn decimal(text: Seq<u8>) -> Option<u32> {
    let digits = if text.len() > 0 && text[0] == 0x2b {
        text.skip(1)
    } else {
        text
    };
    if digits.len() > 0 && all_digits(digits) && digits_value(digits) <= u32::MAX {
        Some(digits_value(digits) as u32)
    } else {
        None
    }
}

/// More digits never spell a smaller number.
proof fn lemma_digits_grow(digits: Seq<u8>, n: int)
    requires
        all_digits(digits),
        0 <= n <= digits.len(),
    ensures
        0 <= digits_value(digits.take(n)) <= digits_value(digits),
    decreases digits.len() - n,
{
    if n == digits.len() {
        assert(digits.take(n) =~= digits);
        lemma_digits_nonnegative(digits);
    } else {
        lemma_digits_grow(digits, n + 1);
        assert(digits.take(n + 1).drop_last() =~= digits.take(n));
        assert(is_digit(digits[n]));
        assert(digits.take(n + 1).last() == digits[n]);
        lemma_digits_nonnegative(digits.take(n));
    }
}

/// Digits spell no negative number.
proof fn lemma_digits_nonnegative(digits: Seq<u8>)
    requires
        all_digits(digits),
    ensures
        0 <= digits_value(digits),
    decreases digits.len(),
{
    if digits.len() > 0 {
        assert(is_digit(digits[digits.len() - 1]));
        lemma_digits_nonnegative(digits.drop_last());
    }
}

/// The number that the bytes spell in decimal, as [`decimal`] reads them.
pub fn decimal_u32(text: &[u8]) -> (r: Option<u32>)
    ensures
        r == decimal(text@),
{
    let len: usize = text.len();
    let start: usize = if len > 0 && text[0] == 0x2b {
        1
    } else {
        0
    };
    let ghost digits = text@.skip(start as int);
    assert(text@.skip(0) =~= text@);
    assert(digits == if text@.len() > 0 && text@[0] == 0x2b {
        text@.skip(1)
    } else {
        text@
    });
    if start == len {
        return None;
    }
    let mut value: u64 = 0;
    let mut i: usize = start;
    while i < len
        invariant
            start <= i <= len == text@.len(),
            digits == text@.skip(start as int),
            digits == if text@.len() > 0 && text@[0] == 0x2b {
                text@.skip(1)
            } else {
                text@
            },
            all_digits(digits.take(i - start)),
            value == digits_value(digits.take(i - start)),
            value <= u32::MAX,
        decreases len - i,
    {
        let b: u8 = text[i];
        let ghost upto = digits.take(i - start + 1);
        proof {
            assert(upto.drop_last() =~= digits.take(i - start));
            assert(upto.last() == b);
        }
        if b < 0x30 || b > 0x39 {
            assert(!is_digit(digits[i - start]));
            return None;
        }
        value = value * 10 + (b - 0x30) as u64;
        if value > 0xffff_ffff {
            proof {
                if all_digits(digits) {
                    lemma_digits_grow(digits, i - start + 1);
                }
            }
            return None;
        }
        i += 1;
    }
    assert(digits.take(len - start) =~= digits);
    Some(value as u32)
}

/// The number that a file or a directory is named by, if it is named by
/// one.
pub fn number(name: &str) -> (r: Option<u32>)
    ensures
        r == decimal(name.spec_bytes()),
{
    decimal_u32(name.as_bytes())
}

/// The number that stands behind `prefix` in a name such as `index.12`:
/// none where the name does not start with the prefix.
pub open spec fn decimal_behind(prefix: Seq<u8>, name: Seq<u8>) -> Option<u32> {
    if prefix.len() <= name.len() && name.subrange(0, prefix.len() as int) == prefix {
        decimal(name.skip(prefix.len() as int))
    } else {
        None
    }
}

/// The number behind `prefix` in the name, as [`decimal_behind`] reads it.
pub fn number_behind(prefix: &str, name: &str) -> (r: Option<u32>)
    ensures
        r == decimal_behind(prefix.spec_bytes(), name.spec_bytes()),
{
    let prefix = prefix.as_bytes();
    let name = name.as_bytes();
    if starts_with(name, prefix) {
        decimal_u32(slice_subrange(name, prefix.len(), name.len()))
    } else {
        None
    }
}

} // verus!
