//! Decimal text of integers, as the numeric columns of a cache row hold it.
//!
//! A number is written without sign or with `-`, and without leading zeros.
//! It is read more leniently: a leading `+` is accepted (and `-` where the
//! column is signed), and so are leading zeros. Anything else in the text,
//! a text without a digit, or a value outside the column's range is no number.

use vstd::prelude::*;
use vstd::string::*;

verus! {

/// Whether the character is one of `0` to `9`.
pub open spec fn is_digit(c: char) -> bool {
    '0' <= c && c <= '9'
}

/// The value of a decimal digit; zero for any other character.
pub open spec fn digit_value(c: char) -> nat {
    if is_digit(c) {
        (c as int - 48) as nat
    } else {
        0
    }
}

/// Whether the text holds digits only.
pub open spec fn all_digits(s: Seq<char>) -> bool {
    forall|i: int| 0 <= i < s.len() ==> is_digit(#[trigger] s[i])
}

/// The number that a string of digits denotes, most significant digit first.
pub open spec fn digits_value(s: Seq<char>) -> nat
    decreases s.len(),
{
    if s.len() == 0 {
        0
    } else {
        digits_value(s.drop_last()) * 10 + digit_value(s.last())
    }
}

/// Whether `text` starts with a sign that is read as such.
pub open spec fn has_sign(text: Seq<char>, signed: bool) -> bool {
    text.len() > 0 && (text[0] == '+' || (signed && text[0] == '-'))
}

/// The integer that `text` denotes: an optional sign (`-` only where `signed`),
/// then one or more digits and nothing else.
pub open spec fn parse_decimal(text: Seq<char>, signed: bool) -> Option<int> {
    let digits = if has_sign(text, signed) {
        text.skip(1)
    } else {
        text
    };
    if digits.len() > 0 && all_digits(digits) {
        if has_sign(text, signed) && text[0] == '-' {
            Some(-(digits_value(digits) as int))
        } else {
            Some(digits_value(digits) as int)
        }
    } else {
        None
    }
}

/// The number that an unsigned 64-bit column denotes.
pub open spec fn parse_u64_text(text: Seq<char>) -> Option<u64> {
    match parse_decimal(text, false) {
        Some(v) => if v <= u64::MAX {
            Some(v as u64)
        } else {
            None
        },
        None => None,
    }
}

/// The number that an unsigned 32-bit column denotes.
pub open spec fn parse_u32_text(text: Seq<char>) -> Option<u32> {
    match parse_decimal(text, false) {
        Some(v) => if v <= u32::MAX {
            Some(v as u32)
        } else {
            None
        },
        None => None,
    }
}

/// The number that a signed 64-bit column denotes.
pub open spec fn parse_i64_text(text: Seq<char>) -> Option<i64> {
    match parse_decimal(text, true) {
        Some(v) => if i64::MIN <= v && v <= i64::MAX {
            Some(v as i64)
        } else {
            None
        },
        None => None,
    }
}

/// The number that a signed 32-bit column denotes.
pub open spec fn parse_i32_text(text: Seq<char>) -> Option<i32> {
    match parse_decimal(text, true) {
        Some(v) => if i32::MIN <= v && v <= i32::MAX {
            Some(v as i32)
        } else {
            None
        },
        None => None,
    }
}

/// The character of a digit below ten.
pub open spec fn digit_char(d: nat) -> char {
    (d + 48) as char
}

/// The digits of `n` without leading zeros; `0` for zero.
pub open spec fn decimal_digits(n: nat) -> Seq<char>
    decreases n,
{
    if n < 10 {
        seq![digit_char(n)]
    } else {
        decimal_digits(n / 10).push(digit_char(n % 10))
    }
}

/// The text of an integer: `-` before the digits of a negative one.
pub open spec fn decimal_text(v: int) -> Seq<char> {
    if v < 0 {
        seq!['-'] + decimal_digits((-v) as nat)
    } else {
        decimal_digits(v as nat)
    }
}

/// A prefix of a digit string denotes no more than the whole.
pub proof fn lemma_digits_value_prefix(s: Seq<char>, k: int)
    requires
        0 <= k <= s.len(),
    ensures
        digits_value(s.take(k)) <= digits_value(s),
    decreases s.len(),
{
    if k == s.len() {
        assert(s.take(k) =~= s);
    } else {
        lemma_digits_value_prefix(s.drop_last(), k);
        assert(s.drop_last().take(k) =~= s.take(k));
    }
}

/// The digits written for `n` are digits, at least one, and denote `n`.
pub proof fn lemma_decimal_digits(n: nat)
    ensures
        decimal_digits(n).len() > 0,
        all_digits(decimal_digits(n)),
        digits_value(decimal_digits(n)) == n,
        decimal_digits(n)[0] != '+',
        decimal_digits(n)[0] != '-',
    decreases n,
{
    if n < 10 {
        let s = decimal_digits(n);
        assert(s.drop_last() =~= Seq::<char>::empty());
        assert(digits_value(s.drop_last()) == 0);
    } else {
        lemma_decimal_digits(n / 10);
        let front = decimal_digits(n / 10);
        let s = front.push(digit_char(n % 10));
        assert(s.drop_last() =~= front);
        assert(s[0] == front[0]);
    }
}

/// An integer is written with digits and, before them, at most a `-`.
pub proof fn lemma_decimal_text_chars(v: int)
    ensures
        decimal_text(v).len() > 0,
        forall|i: int|
            0 <= i < decimal_text(v).len() ==> is_digit(#[trigger] decimal_text(v)[i])
                || decimal_text(v)[i] == '-',
{
    if v < 0 {
        lemma_decimal_digits((-v) as nat);
        let digits = decimal_digits((-v) as nat);
        assert forall|i: int| 0 <= i < decimal_text(v).len() implies is_digit(
            #[trigger] decimal_text(v)[i],
        ) || decimal_text(v)[i] == '-' by {
            if i > 0 {
                assert(decimal_text(v)[i] == digits[i - 1]);
            }
        }
    } else {
        lemma_decimal_digits(v as nat);
    }
}

/// Reading what was written for an integer gives the integer back, whether
/// or not the column is signed (an unsigned column holds no negative one).
pub proof fn lemma_parse_decimal_text(v: int, signed: bool)
    requires
        signed || v >= 0,
    ensures
        parse_decimal(decimal_text(v), signed) == Some(v),
{
    let text = decimal_text(v);
    if v < 0 {
        let digits = decimal_digits((-v) as nat);
        lemma_decimal_digits((-v) as nat);
        assert(text[0] == '-');
        assert(text.skip(1) =~= digits);
    } else {
        lemma_decimal_digits(v as nat);
    }
}

/// Reading what was written for an unsigned 64-bit number gives it back.
pub proof fn lemma_parse_u64_text(v: u64)
    ensures
        parse_u64_text(decimal_text(v as int)) == Some(v),
{
    lemma_parse_decimal_text(v as int, false);
}

/// Reading what was written for an unsigned 32-bit number gives it back.
pub proof fn lemma_parse_u32_text(v: u32)
    ensures
        parse_u32_text(decimal_text(v as int)) == Some(v),
{
    lemma_parse_decimal_text(v as int, false);
}

/// Reading what was written for a signed 64-bit number gives it back.
pub proof fn lemma_parse_i64_text(v: i64)
    ensures
        parse_i64_text(decimal_text(v as int)) == Some(v),
{
    lemma_parse_decimal_text(v as int, true);
}

/// Reading what was written for a signed 32-bit number gives it back.
pub proof fn lemma_parse_i32_text(v: i32)
    ensures
        parse_i32_text(decimal_text(v as int)) == Some(v),
{
    lemma_parse_decimal_text(v as int, true);
}

/// A text with a character outside ASCII denotes no number.
proof fn lemma_not_ascii_not_decimal(text: Seq<char>, signed: bool)
    requires
        !vstd::utf8::is_ascii_chars(text),
    ensures
        parse_decimal(text, signed) is None,
{
    let i = choose|i: int| 0 <= i < text.len() && !('\0' <= #[trigger] text[i] <= '\u{7f}');
    if has_sign(text, signed) {
        assert(i >= 1);
        assert(text.skip(1)[i - 1] == text[i]);
    }
}

/// The value of a sign and a magnitude.
pub open spec fn signed_value(negative: bool, magnitude: int) -> int {
    if negative {
        -magnitude
    } else {
        magnitude
    }
}

/// Reads sign and magnitude of a number whose magnitude fits 64 bits.
fn scan_decimal(text: &str, signed: bool) -> (r: Option<(bool, u64)>)
    ensures
        match r {
            Some((negative, magnitude)) => {
                &&& parse_decimal(text@, signed) == Some(signed_value(negative, magnitude as int))
                &&& negative ==> signed
            },
            None => match parse_decimal(text@, signed) {
                Some(v) => v > u64::MAX || v < -(u64::MAX as int),
                None => true,
            },
        },
{
    if !text.is_ascii() {
        proof {
            lemma_not_ascii_not_decimal(text@, signed);
        }
        return None;
    }
    let bytes = text.as_bytes();
    proof {
        is_ascii_spec_bytes(text);
    }
    let n = bytes.len();
    let mut start: usize = 0;
    let mut negative = false;
    if n > 0 {
        let first = bytes[0];
        if first == 43 {
            start = 1;
        } else if signed && first == 45 {
            start = 1;
            negative = true;
        }
    }
    assert(has_sign(text@, signed) <==> start == 1);
    assert(negative <==> has_sign(text@, signed) && text@[0] == '-');
    let ghost digits = text@.skip(start as int);
    assert(start == 0 ==> digits =~= text@);
    if start == n {
        return None;
    }
    let mut i = start;
    let mut value: u64 = 0;
    assert(text@.subrange(start as int, i as int) =~= Seq::<char>::empty());
    while i < n
        invariant
            start <= i <= n,
            start < n,
            start <= 1,
            has_sign(text@, signed) <==> start == 1,
            negative <==> has_sign(text@, signed) && text@[0] == '-',
            negative ==> signed,
            n == text@.len(),
            n == bytes@.len(),
            digits == text@.skip(start as int),
            start == 0 ==> digits == text@,
            forall|k: int| 0 <= k < n ==> bytes@[k] == #[trigger] text@[k] as u8,
            vstd::utf8::is_ascii_chars(text@),
            all_digits(text@.subrange(start as int, i as int)),
            value == digits_value(text@.subrange(start as int, i as int)),
        decreases n - i,
    {
        let b = bytes[i];
        let ghost c = text@[i as int];
        assert(b == c as u8);
        assert('\0' <= c <= '\u{7f}');
        if b < 48 || b > 57 {
            proof {
                assert(digits[i - start] == c);
                assert(!is_digit(c));
            }
            return None;
        }
        let ghost upto = text@.subrange(start as int, i as int + 1);
        proof {
            assert(upto.drop_last() =~= text@.subrange(start as int, i as int));
            assert(upto.last() == c);
            assert(is_digit(c));
            assert(digits_value(upto) == value * 10 + (b - 48));
            assert(digits.take(i + 1 - start) =~= upto);
            lemma_digits_value_prefix(digits, i + 1 - start);
        }
        let d = (b - 48) as u64;
        let shifted = match value.checked_mul(10) {
            Some(s) => s,
            None => {
                return None;
            },
        };
        value = match shifted.checked_add(d) {
            Some(s) => s,
            None => {
                return None;
            },
        };
        i = i + 1;
    }
    proof {
        assert(text@.subrange(start as int, n as int) =~= digits);
    }
    Some((negative, value))
}

/// Reads an unsigned 64-bit column.
pub fn parse_u64(text: &str) -> (r: Option<u64>)
    ensures
        r == parse_u64_text(text@),
{
    match scan_decimal(text, false) {
        Some((_, magnitude)) => Some(magnitude),
        None => None,
    }
}

/// Reads an unsigned 32-bit column.
pub fn parse_u32(text: &str) -> (r: Option<u32>)
    ensures
        r == parse_u32_text(text@),
{
    match scan_decimal(text, false) {
        Some((_, magnitude)) => if magnitude <= 0xffff_ffff {
            Some(magnitude as u32)
        } else {
            None
        },
        None => None,
    }
}

/// Reads a signed 64-bit column.
pub fn parse_i64(text: &str) -> (r: Option<i64>)
    ensures
        r == parse_i64_text(text@),
{
    match scan_decimal(text, true) {
        Some((negative, magnitude)) => if !negative {
            if magnitude <= 0x7fff_ffff_ffff_ffff {
                Some(magnitude as i64)
            } else {
                None
            }
        } else if magnitude < 0x8000_0000_0000_0000 {
            Some(-(magnitude as i64))
        } else if magnitude == 0x8000_0000_0000_0000 {
            Some(i64::MIN)
        } else {
            None
        },
        None => None,
    }
}

/// Reads a signed 32-bit column.
pub fn parse_i32(text: &str) -> (r: Option<i32>)
    ensures
        r == parse_i32_text(text@),
{
    match scan_decimal(text, true) {
        Some((negative, magnitude)) => if !negative {
            if magnitude <= 0x7fff_ffff {
                Some(magnitude as i32)
            } else {
                None
            }
        } else if magnitude < 0x8000_0000 {
            Some(-(magnitude as i32))
        } else if magnitude == 0x8000_0000 {
            Some(i32::MIN)
        } else {
            None
        },
        None => None,
    }
}

/// The text of one digit.
fn digit_str(d: u64) -> (s: &'static str)
    requires
        d < 10,
    ensures
        s@ == seq![digit_char(d as nat)],
{
    proof {
        reveal_strlit("0");
        reveal_strlit("1");
        reveal_strlit("2");
        reveal_strlit("3");
        reveal_strlit("4");
        reveal_strlit("5");
        reveal_strlit("6");
        reveal_strlit("7");
        reveal_strlit("8");
        reveal_strlit("9");
    }
    let s = if d == 0 {
        "0"
    } else if d == 1 {
        "1"
    } else if d == 2 {
        "2"
    } else if d == 3 {
        "3"
    } else if d == 4 {
        "4"
    } else if d == 5 {
        "5"
    } else if d == 6 {
        "6"
    } else if d == 7 {
        "7"
    } else if d == 8 {
        "8"
    } else {
        "9"
    };
    assert(s@ =~= seq![digit_char(d as nat)]);
    s
}

/// Appends the digits of `v` to `out`.
fn push_digits(v: u64, out: &mut String)
    ensures
        final(out)@ == old(out)@ + decimal_digits(v as nat),
    decreases v,
{
    if v >= 10 {
        push_digits(v / 10, out);
    }
    out.append(digit_str(v % 10));
    assert(final(out)@ =~= old(out)@ + decimal_digits(v as nat));
}

/// Writes an unsigned number.
pub fn render_u64(v: u64) -> (text: String)
    ensures
        text@ == decimal_text(v as int),
{
    let mut out = String::new();
    push_digits(v, &mut out);
    assert(out@ =~= decimal_text(v as int));
    out
}

/// Writes a signed number.
pub fn render_i64(v: i64) -> (text: String)
    ensures
        text@ == decimal_text(v as int),
{
    let mut out = String::new();
    if v < 0 {
        proof {
            reveal_strlit("-");
        }
        out.append("-");
        let magnitude: u64 = if v == i64::MIN {
            0x8000_0000_0000_0000
        } else {
            (-v) as u64
        };
        assert(out@ =~= seq!['-']);
        push_digits(magnitude, &mut out);
    } else {
        push_digits(v as u64, &mut out);
    }
    assert(out@ =~= decimal_text(v as int));
    out
}

} // verus!
