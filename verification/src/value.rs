//! Typed values and their stored form.
//!
//! A configuration value is stored as bytes. This module says which bytes
//! spell a boolean, an integer or a text, and converts in both directions.

use vstd::prelude::*;
use vstd::string::StringSliceAdditionalSpecFns;
use vstd::utf8::{decode_utf8, encode_utf8, encode_utf8_decode_utf8, encode_utf8_valid_utf8, valid_utf8};
use crate::error::Error;
use crate::name::{normalize, normalized};

verus! {

/// The byte `-`.
pub const MINUS: u8 = 45;

/// The byte `+`.
pub const PLUS: u8 = 43;

/// The bytes of the word `true`.
pub open spec fn word_true() -> Seq<u8> {
    seq![116u8, 114u8, 117u8, 101u8]
}

/// The bytes of the word `false`.
pub open spec fn word_false() -> Seq<u8> {
    seq![102u8, 97u8, 108u8, 115u8, 101u8]
}

/// Whether `text`, already in lower case, is one of `true`, `yes`, `on`, `1`.
pub open spec fn is_true_word(text: Seq<u8>) -> bool {
    text == word_true() || text == seq![121u8, 101u8, 115u8] || text == seq![111u8, 110u8] || text
        == seq![49u8]
}

/// Whether `text`, already in lower case, is one of `false`, `no`, `off`, `0`.
pub open spec fn is_false_word(text: Seq<u8>) -> bool {
    text == word_false() || text == seq![110u8, 111u8] || text == seq![111u8, 102u8, 102u8] || text
        == seq![48u8]
}

/// The boolean that `bytes` spell, if any. The case of letters is ignored.
pub open spec fn decode_bool(bytes: Seq<u8>) -> Option<bool> {
    if is_true_word(normalize(bytes)) {
        Some(true)
    } else if is_false_word(normalize(bytes)) {
        Some(false)
    } else {
        None
    }
}

/// The stored form of a boolean: `true` or `false`.
pub open spec fn bool_text(value: bool) -> Seq<u8> {
    if value {
        word_true()
    } else {
        word_false()
    }
}

/// Whether a byte is a decimal digit.
pub open spec fn is_digit(b: u8) -> bool {
    48 <= b <= 57
}

/// Whether every byte is a decimal digit.
pub open spec fn all_digits(text: Seq<u8>) -> bool {
    forall|i: int| 0 <= i < text.len() ==> is_digit(#[trigger] text[i])
}

/// The number that a decimal digit stands for; 0 for any other byte.
pub open spec fn digit_of(b: u8) -> nat {
    if is_digit(b) {
        (b - 48) as nat
    } else {
        0
    }
}

/// The number that a run of decimal digits spells in base 10.
pub open spec fn digits_value(text: Seq<u8>) -> nat
    decreases text.len(),
{
    if text.len() == 0 {
        0
    } else {
        digits_value(text.drop_last()) * 10 + digit_of(text.last())
    }
}

/// The integer that `bytes` spell in base 10, if any: an optional sign, `-`
/// or `+`, followed by one or more decimal digits and nothing else.
pub open spec fn decode_int(bytes: Seq<u8>) -> Option<int> {
    if bytes.len() > 0 && (bytes[0] == MINUS || bytes[0] == PLUS) {
        let digits = bytes.drop_first();
        if digits.len() > 0 && all_digits(digits) {
            if bytes[0] == MINUS {
                Some(-(digits_value(digits) as int))
            } else {
                Some(digits_value(digits) as int)
            }
        } else {
            None
        }
    } else if bytes.len() > 0 && all_digits(bytes) {
        Some(digits_value(bytes) as int)
    } else {
        None
    }
}

/// The 64-bit integer that `bytes` spell, if they spell an integer and it
/// fits.
pub open spec fn decode_i64(bytes: Seq<u8>) -> Option<i64> {
    match decode_int(bytes) {
        Some(v) => if i64::MIN <= v <= i64::MAX {
            Some(v as i64)
        } else {
            None
        },
        None => None,
    }
}

/// The 32-bit integer that `bytes` spell, if they spell an integer and it
/// fits.
pub open spec fn decode_i32(bytes: Seq<u8>) -> Option<i32> {
    match decode_int(bytes) {
        Some(v) => if i32::MIN <= v <= i32::MAX {
            Some(v as i32)
        } else {
            None
        },
        None => None,
    }
}

/// The decimal digits of a natural number, without leading zeros.
pub open spec fn nat_text(n: nat) -> Seq<u8>
    decreases n,
{
    if n < 10 {
        seq![(48 + n) as u8]
    } else {
        nat_text(n / 10).push((48 + n % 10) as u8)
    }
}

/// The stored form of an integer: its decimal digits, after a `-` if it is
/// negative.
pub open spec fn int_text(v: int) -> Seq<u8> {
    if v < 0 {
        seq![MINUS] + nat_text((-v) as nat)
    } else {
        nat_text(v as nat)
    }
}

/// The text that `bytes` encode, if they are valid UTF-8.
pub open spec fn decode_text(bytes: Seq<u8>) -> Option<Seq<char>> {
    if valid_utf8(bytes) {
        Some(decode_utf8(bytes))
    } else {
        None
    }
}

/// What a typed read of a boolean yields for the stored bytes.
pub open spec fn bool_reading(bytes: Seq<u8>) -> Result<bool, Error> {
    match decode_bool(bytes) {
        Some(v) => Ok(v),
        None => Err(Error::TypeMismatch),
    }
}

/// What a typed read of a 32-bit integer yields for the stored bytes.
pub open spec fn i32_reading(bytes: Seq<u8>) -> Result<i32, Error> {
    match decode_i32(bytes) {
        Some(v) => Ok(v),
        None => Err(Error::TypeMismatch),
    }
}

/// What a typed read of a 64-bit integer yields for the stored bytes.
pub open spec fn i64_reading(bytes: Seq<u8>) -> Result<i64, Error> {
    match decode_i64(bytes) {
        Some(v) => Ok(v),
        None => Err(Error::TypeMismatch),
    }
}

/// What a typed read of a text yields for the stored bytes.
pub open spec fn text_reading(bytes: Seq<u8>) -> Result<Seq<char>, Error> {
    match decode_text(bytes) {
        Some(v) => Ok(v),
        None => Err(Error::InvalidEncoding),
    }
}

/// The integer spelled by a non-empty run of digits after a sign.
spec fn spelled(digits: Seq<u8>, negative: bool) -> Option<int> {
    if digits.len() > 0 && all_digits(digits) {
        if negative {
            Some(-(digits_value(digits) as int))
        } else {
            Some(digits_value(digits) as int)
        }
    } else {
        None
    }
}

/// A longer run of digits spells a number that is at least as large as the
/// number spelled by any of its prefixes.
proof fn digits_value_grows(text: Seq<u8>, k: int)
    requires
        0 <= k <= text.len(),
    ensures
        digits_value(text.subrange(0, k)) <= digits_value(text),
    decreases text.len(),
{
    if k == text.len() {
        assert(text.subrange(0, k) =~= text);
    } else {
        assert(text.drop_last().subrange(0, k) =~= text.subrange(0, k));
        digits_value_grows(text.drop_last(), k);
    }
}

/// The digits of a natural number are digits, and spell that number.
pub proof fn nat_text_spells(n: nat)
    ensures
        nat_text(n).len() > 0,
        all_digits(nat_text(n)),
        digits_value(nat_text(n)) == n,
    decreases n,
{
    if n < 10 {
        let t = nat_text(n);
        assert(t.drop_last() =~= Seq::<u8>::empty());
        assert(digits_value(t.drop_last()) == 0);
        assert(t.last() == (48 + n) as u8);
    } else {
        nat_text_spells(n / 10);
        let t = nat_text(n);
        let d = (48 + n % 10) as u8;
        assert(t.drop_last() =~= nat_text(n / 10));
        assert(t.last() == d);
        assert forall|i: int| 0 <= i < t.len() implies is_digit(#[trigger] t[i]) by {
            if i < t.len() - 1 {
                assert(t[i] == nat_text(n / 10)[i]);
            }
        }
    }
}

/// Reading back the stored form of an integer gives that integer.
pub proof fn int_text_round_trip(v: int)
    ensures
        decode_int(int_text(v)) == Some(v),
{
    let t = int_text(v);
    if v < 0 {
        let digits = nat_text((-v) as nat);
        nat_text_spells((-v) as nat);
        assert(t[0] == MINUS);
        assert(t.drop_first() =~= digits);
    } else {
        nat_text_spells(v as nat);
        assert(is_digit(t[0]));
    }
}

/// Reading back the stored form of a boolean gives that boolean.
pub proof fn bool_text_round_trip(value: bool)
    ensures
        decode_bool(bool_text(value)) == Some(value),
{
    let t = bool_text(value);
    assert(normalize(t) =~= t);
    if !value {
        assert(t.len() == 5);
        assert(!is_true_word(t));
    }
}

/// Decoding the UTF-8 encoding of a text gives that text.
pub proof fn text_round_trip(text: Seq<char>)
    ensures
        decode_text(encode_utf8(text)) == Some(text),
{
    encode_utf8_valid_utf8(text);
    encode_utf8_decode_utf8(text);
}

/// Decides which boolean the bytes spell.
pub fn parse_bool(bytes: &[u8]) -> (r: Option<bool>)
    ensures
        r == decode_bool(bytes@),
{
    let t = normalized(bytes);
    let n: usize = t.len();
    if (n == 4 && t[0] == 116 && t[1] == 114 && t[2] == 117 && t[3] == 101) || (n == 3 && t[0]
        == 121 && t[1] == 101 && t[2] == 115) || (n == 2 && t[0] == 111 && t[1] == 110) || (n == 1
        && t[0] == 49) {
        proof {
            if n == 4 {
                assert(t@ =~= word_true());
            } else if n == 3 {
                assert(t@ =~= seq![121u8, 101u8, 115u8]);
            } else if n == 2 {
                assert(t@ =~= seq![111u8, 110u8]);
            } else {
                assert(t@ =~= seq![49u8]);
            }
        }
        Some(true)
    } else if (n == 5 && t[0] == 102 && t[1] == 97 && t[2] == 108 && t[3] == 115 && t[4] == 101)
        || (n == 2 && t[0] == 110 && t[1] == 111) || (n == 3 && t[0] == 111 && t[1] == 102 && t[2]
        == 102) || (n == 1 && t[0] == 48) {
        proof {
            if n == 5 {
                assert(t@ =~= word_false());
            } else if n == 2 {
                assert(t@ =~= seq![110u8, 111u8]);
            } else if n == 3 {
                assert(t@ =~= seq![111u8, 102u8, 102u8]);
            } else {
                assert(t@ =~= seq![48u8]);
            }
        }
        Some(false)
    } else {
        None
    }
}

/// Decides which 64-bit integer the bytes spell.
pub fn parse_i64(bytes: &[u8]) -> (r: Option<i64>)
    ensures
        r == decode_i64(bytes@),
{
    let n: usize = bytes.len();
    if n == 0 {
        return None;
    }
    let negative: bool = bytes[0] == MINUS;
    let start: usize = if bytes[0] == MINUS || bytes[0] == PLUS {
        1
    } else {
        0
    };
    if start == n {
        return None;
    }
    let limit: u64 = if negative {
        9223372036854775808u64
    } else {
        9223372036854775807u64
    };
    let ghost digits: Seq<u8> = bytes@.subrange(start as int, n as int);
    proof {
        if start == 1 {
            assert(bytes@.drop_first() =~= digits);
        } else {
            assert(bytes@ =~= digits);
        }
    }
    assert(decode_int(bytes@) == spelled(digits, negative));
    let mut acc: u64 = 0;
    let mut i: usize = start;
    while i < n
        invariant
            start <= i <= n,
            n == bytes@.len(),
            digits == bytes@.subrange(start as int, n as int),
            all_digits(digits.subrange(0, i - start)),
            acc == digits_value(digits.subrange(0, i - start)),
            acc <= limit,
            9223372036854775807u64 <= limit <= 9223372036854775808u64,
            negative <==> limit == 9223372036854775808u64,
            decode_int(bytes@) == spelled(digits, negative),
        decreases n - i,
    {
        let b: u8 = bytes[i];
        if b < 48 || b > 57 {
            proof {
                assert(digits[i - start] == b);
                assert(!is_digit(digits[i - start]));
            }
            return None;
        }
        let d: u64 = (b - 48) as u64;
        let ghost longer = digits.subrange(0, i - start + 1);
        proof {
            assert(longer.drop_last() =~= digits.subrange(0, i - start));
            assert(longer.last() == b);
            assert(digits_value(longer) == acc * 10 + d);
        }
        if acc > (limit - d) / 10 {
            proof {
                if all_digits(digits) {
                    digits_value_grows(digits, i - start + 1);
                }
            }
            return None;
        }
        acc = acc * 10 + d;
        proof {
            assert forall|k: int| 0 <= k < longer.len() implies is_digit(#[trigger] longer[k]) by {
                if k < i - start {
                    assert(longer[k] == digits.subrange(0, i - start)[k]);
                }
            }
        }
        i += 1;
    }
    proof {
        assert(digits.subrange(0, n - start) =~= digits);
    }
    if negative {
        if acc == 9223372036854775808u64 {
            Some(i64::MIN)
        } else {
            Some(-(acc as i64))
        }
    } else {
        Some(acc as i64)
    }
}

/// Decides which 32-bit integer the bytes spell.
pub fn parse_i32(bytes: &[u8]) -> (r: Option<i32>)
    ensures
        r == decode_i32(bytes@),
{
    match parse_i64(bytes) {
        Some(v) => {
            if v < -2147483648i64 || v > 2147483647i64 {
                None
            } else {
                Some(v as i32)
            }
        },
        None => None,
    }
}

/// The stored form of a boolean.
pub fn format_bool(value: bool) -> (out: Vec<u8>)
    ensures
        out@ == bool_text(value),
{
    let mut out: Vec<u8> = Vec::new();
    if value {
        out.push(116);
        out.push(114);
        out.push(117);
        out.push(101);
        assert(out@ =~= word_true());
    } else {
        out.push(102);
        out.push(97);
        out.push(108);
        out.push(115);
        out.push(101);
        assert(out@ =~= word_false());
    }
    out
}

/// The stored form of an integer.
pub fn format_i64(value: i64) -> (out: Vec<u8>)
    ensures
        out@ == int_text(value as int),
{
    let magnitude: u64 = if value < 0 {
        if value == i64::MIN {
            9223372036854775808u64
        } else {
            (-value) as u64
        }
    } else {
        value as u64
    };
    // The digits, the least significant first.
    let mut low_first: Vec<u8> = Vec::new();
    let mut rest: u64 = magnitude;
    while rest >= 10
        invariant
            nat_text(magnitude as nat) == nat_text(rest as nat) + Seq::new(
                low_first@.len(),
                |k: int| low_first@[low_first@.len() - 1 - k],
            ),
        decreases rest,
    {
        let ghost before = low_first@;
        let d: u8 = (48 + rest % 10) as u8;
        low_first.push(d);
        proof {
            let tail_before = Seq::new(before.len(), |k: int| before[before.len() - 1 - k]);
            let tail_after = Seq::new(
                low_first@.len(),
                |k: int| low_first@[low_first@.len() - 1 - k],
            );
            assert(tail_after =~= seq![d] + tail_before);
            assert(nat_text(rest as nat) == nat_text((rest / 10) as nat).push(d));
            assert(nat_text((rest / 10) as nat).push(d) + tail_before =~= nat_text(
                (rest / 10) as nat,
            ) + tail_after);
        }
        rest = rest / 10;
    }
    low_first.push((48 + rest) as u8);
    let ghost digits = Seq::new(low_first@.len(), |k: int| low_first@[low_first@.len() - 1 - k]);
    proof {
        let before = low_first@.drop_last();
        let tail_before = Seq::new(before.len(), |k: int| before[before.len() - 1 - k]);
        assert(digits =~= seq![(48 + rest) as u8] + tail_before);
        assert(nat_text(rest as nat) =~= seq![(48 + rest) as u8]);
        assert(digits == nat_text(magnitude as nat));
    }
    let mut out: Vec<u8> = Vec::new();
    if value < 0 {
        out.push(MINUS);
    }
    let ghost sign = out@;
    let mut k: usize = low_first.len();
    while k > 0
        invariant
            k <= low_first@.len(),
            digits == Seq::new(low_first@.len(), |k: int| low_first@[low_first@.len() - 1 - k]),
            out@ == sign + digits.subrange(0, low_first@.len() - k),
        decreases k,
    {
        k -= 1;
        out.push(low_first[k]);
        assert(out@ =~= sign + digits.subrange(0, low_first@.len() - k));
    }
    assert(digits.subrange(0, low_first@.len() as int) =~= digits);
    out
}

/// `core::str::from_utf8`: the text that the bytes encode, which exists when
/// the bytes are valid UTF-8 and only then; the text's own encoding is the
/// bytes that were given.
#[verifier::external_body]
fn utf8_text(bytes: &[u8]) -> (r: Option<&str>)
    ensures
        r is Some <==> valid_utf8(bytes@),
        r matches Some(s) ==> s.spec_bytes() == bytes@,
{
    match core::str::from_utf8(bytes) {
        Ok(s) => Some(s),
        Err(_) => None,
    }
}

/// Reads the bytes as UTF-8 text.
pub fn parse_text(bytes: &[u8]) -> (r: Option<&str>)
    ensures
        match r {
            Some(s) => decode_text(bytes@) == Some(s@),
            None => decode_text(bytes@) is None,
        },
{
    let r = utf8_text(bytes);
    proof {
        if let Some(s) = r {
            encode_utf8_decode_utf8(s@);
        }
    }
    r
}

} // verus!
