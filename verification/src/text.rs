//! Text as it appears in fixed-width header fields: what counts as
//! whitespace, what trimming removes, and which integer a decimal text
//! denotes.

use crate::error::BdfError;
use vstd::prelude::*;
use vstd::string::*;
use vstd::utf8::*;

verus! {

/// The characters with the Unicode property `White_Space`.
pub open spec fn is_whitespace(c: char) -> bool {
    let u = c as u32;
    ||| 0x09 <= u <= 0x0D
    ||| u == 0x20
    ||| u == 0x85
    ||| u == 0xA0
    ||| u == 0x1680
    ||| 0x2000 <= u <= 0x200A
    ||| u == 0x2028
    ||| u == 0x2029
    ||| u == 0x202F
    ||| u == 0x205F
    ||| u == 0x3000
}

/// How many whitespace characters `s` starts with.
pub open spec fn leading_whitespace(s: Seq<char>) -> nat
    decreases s.len(),
{
    if s.len() > 0 && is_whitespace(s.first()) {
        1 + leading_whitespace(s.drop_first())
    } else {
        0
    }
}

/// How many whitespace characters `s` ends with.
pub open spec fn trailing_whitespace(s: Seq<char>) -> nat
    decreases s.len(),
{
    if s.len() > 0 && is_whitespace(s.last()) {
        1 + trailing_whitespace(s.drop_last())
    } else {
        0
    }
}

/// `s` without the whitespace it starts with and ends with.
pub open spec fn trim(s: Seq<char>) -> Seq<char> {
    let rest = s.skip(leading_whitespace(s) as int);
    rest.take(rest.len() - trailing_whitespace(rest))
}

/// Every character of `s` is whitespace.
pub open spec fn all_whitespace(s: Seq<char>) -> bool {
    forall|i: int| 0 <= i < s.len() ==> is_whitespace(#[trigger] s[i])
}

/// The ASCII digits `0` to `9`.
pub open spec fn is_digit(c: char) -> bool {
    0x30 <= c as u32 <= 0x39
}

/// The number that the digit `c` stands for.
pub open spec fn digit_value(c: char) -> int {
    c as u32 - 0x30
}

/// Every character of `s` is a digit.
pub open spec fn all_digits(s: Seq<char>) -> bool {
    forall|i: int| 0 <= i < s.len() ==> is_digit(#[trigger] s[i])
}

/// The number that a run of digits denotes in base ten, most significant
/// digit first.
pub open spec fn digits_value(s: Seq<char>) -> int
    decreases s.len(),
{
    if s.len() == 0 {
        0
    } else {
        10 * digits_value(s.drop_last()) + digit_value(s.last())
    }
}

/// The integer that the text `s` denotes, if it is a decimal integer: an
/// optional sign and then at least one digit, with nothing before, between
/// or after. A `+` is always accepted as the sign, a `-` only where `signed`
/// is set.
pub open spec fn decimal_value(s: Seq<char>, signed: bool) -> Option<int> {
    if s.len() > 0 && (s[0] == '+' || (signed && s[0] == '-')) {
        let digits = s.drop_first();
        if digits.len() > 0 && all_digits(digits) {
            Some(
                if s[0] == '-' {
                    -digits_value(digits)
                } else {
                    digits_value(digits)
                },
            )
        } else {
            None
        }
    } else if s.len() > 0 && all_digits(s) {
        Some(digits_value(s))
    } else {
        None
    }
}

/// What a field of text holds: its characters without the whitespace round
/// them, if the bytes are UTF-8.
pub open spec fn text_field(bytes: Seq<u8>) -> Result<Seq<char>, BdfError> {
    if valid_utf8(bytes) {
        Ok(trim(decode_utf8(bytes)))
    } else {
        Err(BdfError::EncodingError)
    }
}

/// What a field holds that is read as a decimal integer between `low` and
/// `high`: the text must be UTF-8 and, once trimmed, a decimal integer in
/// that range.
pub open spec fn integer_field(bytes: Seq<u8>, signed: bool, low: int, high: int) -> Result<
    int,
    BdfError,
> {
    match text_field(bytes) {
        Err(e) => Err(e),
        Ok(text) => match decimal_value(text, signed) {
            Some(v) => if low <= v <= high {
                Ok(v)
            } else {
                Err(BdfError::MalformedField)
            },
            None => Err(BdfError::MalformedField),
        },
    }
}

/// What a field holds that is read as a signed decimal integer of 64 bits.
pub open spec fn i64_field(bytes: Seq<u8>) -> Result<i64, BdfError> {
    match integer_field(bytes, true, i64::MIN as int, i64::MAX as int) {
        Ok(v) => Ok(v as i64),
        Err(e) => Err(e),
    }
}

/// What a field holds that is read as an unsigned decimal integer of 64
/// bits.
pub open spec fn u64_field(bytes: Seq<u8>) -> Result<u64, BdfError> {
    match integer_field(bytes, false, 0, u64::MAX as int) {
        Ok(v) => Ok(v as u64),
        Err(e) => Err(e),
    }
}

/// What a field holds that is read as a decimal size or count.
pub open spec fn usize_field(bytes: Seq<u8>) -> Result<usize, BdfError> {
    match integer_field(bytes, false, 0, usize::MAX as int) {
        Ok(v) => Ok(v as usize),
        Err(e) => Err(e),
    }
}

/// The leading whitespace of `s` is a run of whitespace that stops at the
/// end of `s` or in front of a character that is none.
pub proof fn lemma_leading_whitespace(s: Seq<char>)
    ensures
        leading_whitespace(s) <= s.len(),
        all_whitespace(s.take(leading_whitespace(s) as int)),
        leading_whitespace(s) < s.len() ==> !is_whitespace(s[leading_whitespace(s) as int]),
    decreases s.len(),
{
    if s.len() > 0 && is_whitespace(s.first()) {
        let rest = s.drop_first();
        lemma_leading_whitespace(rest);
        let n = leading_whitespace(rest) as int;
        assert forall|i: int| 0 <= i < n + 1 implies is_whitespace(#[trigger] s.take(n + 1)[i]) by {
            if i > 0 {
                assert(s.take(n + 1)[i] == rest.take(n)[i - 1]);
            }
        }
    }
}

/// The trailing whitespace of `s` is a run of whitespace that starts at the
/// front of `s` or behind a character that is none.
pub proof fn lemma_trailing_whitespace(s: Seq<char>)
    ensures
        trailing_whitespace(s) <= s.len(),
        all_whitespace(s.skip(s.len() - trailing_whitespace(s))),
        trailing_whitespace(s) < s.len() ==> !is_whitespace(
            s[s.len() - trailing_whitespace(s) - 1],
        ),
    decreases s.len(),
{
    if s.len() > 0 && is_whitespace(s.last()) {
        let rest = s.drop_last();
        lemma_trailing_whitespace(rest);
        let k = s.len() - trailing_whitespace(s);
        assert forall|i: int| 0 <= i < s.len() - k implies is_whitespace(
            #[trigger] s.skip(k)[i],
        ) by {
            if i < s.len() - k - 1 {
                assert(s.skip(k)[i] == rest.skip(k)[i]);
            }
        }
    }
}

/// A run of whitespace at the front of `s` that cannot be made longer is the
/// leading whitespace of `s`.
pub proof fn lemma_leading_whitespace_is(s: Seq<char>, n: int)
    requires
        0 <= n <= s.len(),
        all_whitespace(s.take(n)),
        n < s.len() ==> !is_whitespace(s[n]),
    ensures
        leading_whitespace(s) == n,
    decreases n,
{
    if n > 0 {
        assert(s.first() == s.take(n)[0]);
        let rest = s.drop_first();
        assert forall|i: int| 0 <= i < n - 1 implies is_whitespace(
            #[trigger] rest.take(n - 1)[i],
        ) by {
            assert(rest.take(n - 1)[i] == s.take(n)[i + 1]);
        }
        lemma_leading_whitespace_is(rest, n - 1);
    }
}

/// A run of whitespace at the end of `s` that cannot be made longer is the
/// trailing whitespace of `s`.
pub proof fn lemma_trailing_whitespace_is(s: Seq<char>, n: int)
    requires
        0 <= n <= s.len(),
        all_whitespace(s.skip(s.len() - n)),
        n < s.len() ==> !is_whitespace(s[s.len() - n - 1]),
    ensures
        trailing_whitespace(s) == n,
    decreases n,
{
    if n > 0 {
        assert(s.last() == s.skip(s.len() - n)[n - 1]);
        let rest = s.drop_last();
        assert forall|i: int| 0 <= i < n - 1 implies is_whitespace(
            #[trigger] rest.skip(rest.len() - (n - 1))[i],
        ) by {
            assert(rest.skip(rest.len() - (n - 1))[i] == s.skip(s.len() - n)[i]);
        }
        lemma_trailing_whitespace_is(rest, n - 1);
    }
}

/// Trimming splits `s` into whitespace, the trimmed text and whitespace
/// again. The trimmed text is a contiguous part of `s`, so whitespace inside
/// it stays; and it neither starts nor ends with whitespace.
pub proof fn lemma_trim_keeps_inside(s: Seq<char>)
    ensures
        ({
            let n = leading_whitespace(s) as int;
            let t = trim(s);
            &&& n + t.len() <= s.len()
            &&& s == s.take(n) + t + s.skip(n + t.len())
            &&& all_whitespace(s.take(n))
            &&& all_whitespace(s.skip(n + t.len()))
            &&& t.len() > 0 ==> !is_whitespace(t.first()) && !is_whitespace(t.last())
        }),
{
    let n = leading_whitespace(s) as int;
    lemma_leading_whitespace(s);
    let rest = s.skip(n);
    lemma_trailing_whitespace(rest);
    let t = trim(s);
    assert(s.skip(n + t.len()) =~= rest.skip(rest.len() - trailing_whitespace(rest)));
    assert(s =~= s.take(n) + t + s.skip(n + t.len()));
    if t.len() > 0 {
        assert(t.first() == s[n]);
        assert(t.last() == rest[rest.len() - trailing_whitespace(rest) - 1]);
    }
}

/// Trimming a trimmed text changes nothing.
pub proof fn lemma_trim_idempotent(s: Seq<char>)
    ensures
        trim(trim(s)) == trim(s),
{
    let t = trim(s);
    lemma_trim_keeps_inside(s);
    assert(all_whitespace(t.take(0)));
    lemma_leading_whitespace_is(t, 0);
    assert(t.skip(0) =~= t);
    assert(all_whitespace(t.skip(t.len() as int)));
    lemma_trailing_whitespace_is(t, 0);
    assert(t.take(t.len() as int) =~= t);
}

/// The part of `s` from `start` up to `end` is the trimmed text when
/// everything outside it is whitespace and its two ends are not.
pub proof fn lemma_trim_is_subrange(s: Seq<char>, start: int, end: int)
    requires
        0 <= start <= end <= s.len(),
        all_whitespace(s.take(start)),
        all_whitespace(s.skip(end)),
        start < end ==> !is_whitespace(s[start]) && !is_whitespace(s[end - 1]),
    ensures
        trim(s) == s.subrange(start, end),
{
    if start == end {
        assert forall|i: int| 0 <= i < s.len() implies is_whitespace(#[trigger] s.take(
            s.len() as int,
        )[i]) by {
            if i < start {
                assert(s[i] == s.take(start)[i]);
            } else {
                assert(s[i] == s.skip(end)[i - end]);
            }
        }
        lemma_leading_whitespace_is(s, s.len() as int);
        assert(trim(s) =~= s.subrange(start, end));
    } else {
        lemma_leading_whitespace_is(s, start);
        let rest = s.skip(start);
        assert(rest.skip(rest.len() - (s.len() - end)) =~= s.skip(end));
        lemma_trailing_whitespace_is(rest, s.len() - end);
        assert(trim(s) =~= s.subrange(start, end));
    }
}

/// Decoding the bytes of a decoded text gives that text again.
pub proof fn lemma_text_field_idempotent(bytes: Seq<u8>)
    requires
        text_field(bytes) is Ok,
    ensures
        text_field(encode_utf8(text_field(bytes)->Ok_0)) == text_field(bytes),
{
    let text = trim(decode_utf8(bytes));
    encode_utf8_valid_utf8(text);
    encode_utf8_decode_utf8(text);
    lemma_trim_idempotent(decode_utf8(bytes));
}

/// A run of digits denotes no less than any of its prefixes.
pub proof fn lemma_digits_value_prefix(s: Seq<char>, k: int)
    requires
        all_digits(s),
        0 <= k <= s.len(),
    ensures
        0 <= digits_value(s.take(k)) <= digits_value(s),
    decreases s.len(),
{
    if s.len() == 0 {
        assert(s.take(k) =~= s);
    } else if k == s.len() {
        assert(s.take(k) =~= s);
        assert(is_digit(s.last()));
        assert(s.drop_last().take(k - 1) =~= s.drop_last());
        lemma_digits_value_prefix(s.drop_last(), k - 1);
    } else {
        assert(is_digit(s.last()));
        assert(s.drop_last().take(k) =~= s.take(k));
        lemma_digits_value_prefix(s.drop_last(), k);
    }
}

/// `std::str::from_utf8`: the bytes as a string slice, if they are valid
/// UTF-8. The slice then consists of exactly these bytes.
#[verifier::external_body]
fn str_from_utf8(bytes: &[u8]) -> (r: Option<&str>)
    ensures
        r is Some <==> valid_utf8(bytes@),
        r matches Some(s) ==> s.spec_bytes() == bytes@,
{
    std::str::from_utf8(bytes).ok()
}

/// Tells whether `c` is whitespace.
pub fn char_is_whitespace(c: char) -> (b: bool)
    ensures
        b == is_whitespace(c),
{
    let u: u32 = c as u32;
    (0x09 <= u && u <= 0x0D) || u == 0x20 || u == 0x85 || u == 0xA0 || u == 0x1680 || (0x2000 <= u
        && u <= 0x200A) || u == 0x2028 || u == 0x2029 || u == 0x202F || u == 0x205F || u == 0x3000
}

/// The part of `s` that is left when the whitespace at both ends is removed.
pub fn trim_whitespace(s: &str) -> (t: &str)
    ensures
        t@ == trim(s@),
{
    let len = s.unicode_len();
    let mut start: usize = 0;
    let mut end: usize = 0;
    let mut i: usize = 0;
    for c in it: s.chars()
        invariant
            it.seq() == s@,
            i == it.index(),
            s@.len() == len,
            start <= end <= i <= len,
            all_whitespace(s@.subrange(end as int, i as int)),
            start == end ==> start == 0 && all_whitespace(s@.take(i as int)),
            start < end ==> all_whitespace(s@.take(start as int)) && !is_whitespace(
                s@[start as int],
            ) && !is_whitespace(s@[end - 1]),
    {
        assert(i < len);
        if !char_is_whitespace(c) {
            if start == end {
                start = i;
                assert(s@.take(start as int) == s@.take(i as int));
            }
            end = i + 1;
        } else {
            assert forall|j: int| 0 <= j < i + 1 - end implies is_whitespace(
                #[trigger] s@.subrange(end as int, i + 1)[j],
            ) by {
                if j < i - end {
                    assert(s@.subrange(end as int, i + 1)[j] == s@.subrange(
                        end as int,
                        i as int,
                    )[j]);
                }
            }
            if start == end {
                assert forall|j: int| 0 <= j < i + 1 implies is_whitespace(
                    #[trigger] s@.take(i + 1)[j],
                ) by {
                    if j < i {
                        assert(s@.take(i + 1)[j] == s@.take(i as int)[j]);
                    }
                }
            }
        }
        i = i + 1;
    }
    proof {
        assert(i == len);
        if start == end {
            assert(s@.take(len as int) =~= s@);
            assert(all_whitespace(s@.take(0)));
            assert forall|j: int| 0 <= j < s@.skip(0).len() implies is_whitespace(
                #[trigger] s@.skip(0)[j],
            ) by {
                assert(s@.skip(0)[j] == s@[j]);
            }
        } else {
            assert(s@.skip(end as int) =~= s@.subrange(end as int, len as int));
        }
        lemma_trim_is_subrange(s@, start as int, end as int);
    }
    s.substring_char(start, end)
}

/// Reads `bytes` as UTF-8 text and removes the whitespace at both ends. The
/// result is `EncodingError` where the bytes are not UTF-8.
pub fn decode_text(bytes: &[u8]) -> (r: Result<&str, BdfError>)
    ensures
        match r {
            Ok(text) => text_field(bytes@) == Ok::<Seq<char>, BdfError>(text@),
            Err(e) => text_field(bytes@) == Err::<Seq<char>, BdfError>(e),
        },
{
    match str_from_utf8(bytes) {
        Some(s) => {
            proof {
                encode_utf8_decode_utf8(s@);
            }
            Ok(trim_whitespace(s))
        },
        None => Err(BdfError::EncodingError),
    }
}

/// The sign and the magnitude of the decimal integer that `s` denotes. There
/// is none where `s` is no decimal integer or its magnitude does not fit.
fn parse_sign_magnitude(s: &str, signed: bool) -> (r: Option<(bool, u64)>)
    ensures
        match r {
            Some((negative, magnitude)) => (negative ==> signed) && decimal_value(s@, signed)
                == Some(
                if negative {
                    -(magnitude as int)
                } else {
                    magnitude as int
                },
            ),
            None => decimal_value(s@, signed) matches Some(v) ==> v < -(u64::MAX as int) || v
                > u64::MAX as int,
        },
{
    let len = s.unicode_len();
    let mut negative = false;
    let mut first: usize = 0;
    let mut magnitude: u64 = 0;
    let mut i: usize = 0;
    for c in it: s.chars()
        invariant
            it.seq() == s@,
            i == it.index(),
            s@.len() == len,
            first <= 1,
            first <= i || i == 0,
            i <= len,
            first == 1 ==> s@[0] == '+' || (signed && s@[0] == '-'),
            first == 0 && i > 0 ==> !(s@[0] == '+' || (signed && s@[0] == '-')),
            negative <==> first == 1 && s@[0] == '-',
            i >= first ==> all_digits(s@.subrange(first as int, i as int)),
            i >= first ==> magnitude == digits_value(s@.subrange(first as int, i as int)),
            i < first ==> magnitude == 0,
    {
        assert(i < len);
        let u: u32 = c as u32;
        if i == 0 && (c == '+' || (signed && c == '-')) {
            negative = c == '-';
            first = 1;
            assert(s@.subrange(1, 1) =~= Seq::<char>::empty());
        } else if 0x30 <= u && u <= 0x39 {
            let digit: u64 = (u - 0x30) as u64;
            let ghost before = s@.subrange(first as int, i as int);
            let ghost after = s@.subrange(first as int, i + 1);
            proof {
                assert(after.drop_last() =~= before);
                assert(after.last() == c);
                assert forall|j: int| 0 <= j < after.len() implies is_digit(
                    #[trigger] after[j],
                ) by {
                    if j < before.len() {
                        assert(after[j] == before[j]);
                    }
                }
            }
            let next = match magnitude.checked_mul(10) {
                Some(m) => m.checked_add(digit),
                None => None,
            };
            match next {
                Some(m) => {
                    magnitude = m;
                },
                None => {
                    proof {
                        let digits = s@.subrange(first as int, len as int);
                        assert(digits_value(after) > u64::MAX);
                        if decimal_value(s@, signed) is Some {
                            assert(s@.drop_first() =~= s@.subrange(1, len as int));
                            assert(s@ =~= s@.subrange(0, len as int));
                            assert(all_digits(digits));
                            assert(digits.take(i + 1 - first) =~= after);
                            lemma_digits_value_prefix(digits, i + 1 - first);
                        }
                    }
                    return None;
                },
            }
        } else {
            proof {
                if first == 1 {
                    assert(s@.drop_first()[i - 1] == c);
                } else {
                    assert(s@[i as int] == c);
                }
            }
            return None;
        }
        i = i + 1;
    }
    proof {
        assert(s@.drop_first() =~= s@.subrange(1, len as int));
        assert(s@ =~= s@.subrange(0, len as int));
    }
    if i <= first {
        None
    } else {
        Some((negative, magnitude))
    }
}

/// The signed integer that the text denotes in base ten, if it denotes one
/// that fits.
pub fn parse_i64(s: &str) -> (r: Option<i64>)
    ensures
        match r {
            Some(v) => decimal_value(s@, true) == Some(v as int),
            None => decimal_value(s@, true) matches Some(v) ==> v < i64::MIN || v > i64::MAX,
        },
{
    match parse_sign_magnitude(s, true) {
        Some((negative, magnitude)) => {
            if negative {
                if magnitude <= 0x7FFF_FFFF_FFFF_FFFF {
                    Some(-(magnitude as i64))
                } else if magnitude == 0x8000_0000_0000_0000 {
                    Some(i64::MIN)
                } else {
                    None
                }
            } else if magnitude <= 0x7FFF_FFFF_FFFF_FFFF {
                Some(magnitude as i64)
            } else {
                None
            }
        },
        None => None,
    }
}

/// The unsigned integer that the text denotes in base ten, if it denotes one
/// that fits.
pub fn parse_u64(s: &str) -> (r: Option<u64>)
    ensures
        match r {
            Some(v) => decimal_value(s@, false) == Some(v as int),
            None => decimal_value(s@, false) matches Some(v) ==> v < 0 || v > u64::MAX,
        },
{
    match parse_sign_magnitude(s, false) {
        Some((_, magnitude)) => Some(magnitude),
        None => None,
    }
}

/// Decodes a field that holds a signed decimal integer: `EncodingError`
/// where the bytes are no text, `MalformedField` where the trimmed text is
/// no decimal integer that fits.
pub fn decode_decimal_i64(bytes: &[u8]) -> (r: Result<i64, BdfError>)
    ensures
        r == i64_field(bytes@),
{
    let text = decode_text(bytes)?;
    match parse_i64(text) {
        Some(v) => Ok(v),
        None => Err(BdfError::MalformedField),
    }
}

/// Decodes a field that holds an unsigned decimal integer: `EncodingError`
/// where the bytes are no text, `MalformedField` where the trimmed text is
/// no unsigned decimal integer that fits.
pub fn decode_decimal_u64(bytes: &[u8]) -> (r: Result<u64, BdfError>)
    ensures
        r == u64_field(bytes@),
{
    let text = decode_text(bytes)?;
    match parse_u64(text) {
        Some(v) => Ok(v),
        None => Err(BdfError::MalformedField),
    }
}

/// Decodes a field that holds a decimal size or count: `EncodingError`
/// where the bytes are no text, `MalformedField` where the trimmed text is
/// no unsigned decimal integer that fits.
pub fn decode_decimal_usize(bytes: &[u8]) -> (r: Result<usize, BdfError>)
    ensures
        r == usize_field(bytes@),
{
    let v = decode_decimal_u64(bytes)?;
    if v <= usize::MAX as u64 {
        Ok(v as usize)
    } else {
        Err(BdfError::MalformedField)
    }
}

} // verus!
