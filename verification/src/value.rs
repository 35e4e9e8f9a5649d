//! Typed card values and the ordered coercion cascade that resolves a raw
//! value token to one of them.

use vstd::prelude::*;

use crate::text::all_ascii;
use crate::text::ascii_chars;
use crate::text::bytes_to_string;
use crate::text::copy_range;
use crate::text::is_digit;
use crate::text::is_digit_byte;
use crate::text::lossy_utf8;
use crate::text::to_lower;
use crate::text::to_lower_byte;
use crate::text::trim;
use crate::text::trim_end;
use crate::text::trim_end_index;
use crate::text::trim_start_index;

verus! {

/// The typed value of one parsed card: exactly one variant holds. `Invalid`
/// marks a token the coercion cascade could not resolve and is distinct from
/// `Null`, which stands for an explicitly empty or `NULL` token.
#[derive(Debug, Clone, PartialEq)]
pub enum FITSValue {
    /// A quote-delimited value; the delimiters are not part of the text.
    String(String),
    Integer(i64),
    /// A value recognized as a floating-point literal. The trimmed token is
    /// carried verbatim, to be bound to a machine float by the caller.
    Float(String),
    Bool(bool),
    Null,
    Invalid,
}

/// Mathematical model of a `FITSValue`.
pub enum ValueModel {
    String(Seq<char>),
    Integer(int),
    Float(Seq<char>),
    Bool(bool),
    Null,
    Invalid,
}

impl View for FITSValue {
    type V = ValueModel;

    open spec fn view(&self) -> ValueModel {
        match self {
            FITSValue::String(s) => ValueModel::String(s@),
            FITSValue::Integer(i) => ValueModel::Integer(*i as int),
            FITSValue::Float(t) => ValueModel::Float(t@),
            FITSValue::Bool(b) => ValueModel::Bool(*b),
            FITSValue::Null => ValueModel::Null,
            FITSValue::Invalid => ValueModel::Invalid,
        }
    }
}

/// A call-fatal failure of header extraction.
#[derive(PartialEq, Eq, Structural, Clone, Copy, Debug)]
pub enum HeaderError {
    /// The byte stream ended before a block carried the END sentinel.
    TruncatedHeader,
    /// A raw value token that no rule of the coercion cascade accepts.
    UnrecognizedValue,
}

impl HeaderError {
    /// A short description of the failure.
    pub fn describe(&self) -> (r: &'static str)
        ensures
            *self == HeaderError::TruncatedHeader ==> r@ == "stream ended before the END sentinel was found"@,
            *self == HeaderError::UnrecognizedValue ==> r@ == "unrecognized value token"@,
    {
        match self {
            HeaderError::TruncatedHeader => "stream ended before the END sentinel was found",
            HeaderError::UnrecognizedValue => "unrecognized value token",
        }
    }
}

// ---------------------------------------------------------------------------
// Single-letter and NULL literals (case-insensitive).
// ---------------------------------------------------------------------------

/// Case-insensitive exact `T`.
pub open spec fn is_t_token(s: Seq<u8>) -> bool {
    s.len() == 1 && to_lower(s[0]) == 116
}

/// Case-insensitive exact `F`.
pub open spec fn is_f_token(s: Seq<u8>) -> bool {
    s.len() == 1 && to_lower(s[0]) == 102
}

/// Case-insensitive exact `NULL`.
pub open spec fn is_null_token(s: Seq<u8>) -> bool {
    s.len() == 4 && to_lower(s[0]) == 110 && to_lower(s[1]) == 117 && to_lower(s[2]) == 108
        && to_lower(s[3]) == 108
}

// ---------------------------------------------------------------------------
// Integer tokens.
// ---------------------------------------------------------------------------

/// Numeric value of a run of decimal digit bytes.
pub open spec fn dec_val(s: Seq<u8>) -> int
    decreases s.len(),
{
    if s.len() == 0 {
        0
    } else {
        dec_val(s.drop_last()) * 10 + (s.last() - 48)
    }
}

pub open spec fn all_digits(s: Seq<u8>) -> bool {
    forall|i: int| 0 <= i < s.len() ==> is_digit(s[i])
}

/// The digits of an integer token, after any leading sign.
pub open spec fn int_digits(s: Seq<u8>) -> Seq<u8> {
    if s.len() > 0 && (s[0] == 43 || s[0] == 45) {
        s.skip(1)
    } else {
        s
    }
}

pub open spec fn int_negative(s: Seq<u8>) -> bool {
    s.len() > 0 && s[0] == 45
}

/// An optional sign followed by at least one decimal digit and nothing else.
pub open spec fn is_int_token(s: Seq<u8>) -> bool {
    int_digits(s).len() > 0 && all_digits(int_digits(s))
}

/// The integer an integer-shaped token denotes.
pub open spec fn int_token_val(s: Seq<u8>) -> int {
    if int_negative(s) {
        -dec_val(int_digits(s))
    } else {
        dec_val(int_digits(s))
    }
}

/// True when the token denotes an integer that fits in a signed 64-bit word.
pub open spec fn parses_as_i64(s: Seq<u8>) -> bool {
    is_int_token(s) && -0x8000_0000_0000_0000 <= int_token_val(s) <= 0x7fff_ffff_ffff_ffff
}

/// A run of digits is worth no less than any of its prefixes, and no less
/// than zero.
proof fn lemma_dec_val_prefix(s: Seq<u8>, k: int)
    requires
        all_digits(s),
        0 <= k <= s.len(),
    ensures
        dec_val(s) >= dec_val(s.take(k)) >= 0,
    decreases s.len(),
{
    if s.len() == 0 {
        assert(s.take(k) =~= s);
    } else {
        assert(all_digits(s.drop_last()));
        if k == s.len() {
            assert(s.take(k) =~= s);
            lemma_dec_val_prefix(s.drop_last(), s.len() - 1);
            assert(s.drop_last().take(s.len() - 1) =~= s.drop_last());
        } else {
            lemma_dec_val_prefix(s.drop_last(), k);
            assert(s.take(k) =~= s.drop_last().take(k));
        }
    }
}

/// Parses a token as a signed 64-bit decimal integer, exactly as the fifth
/// rule of the coercion cascade demands: `Some` if and only if the token is
/// an optionally signed digit run whose value fits.
pub fn parse_i64(s: &[u8]) -> (r: Option<i64>)
    ensures
        match r {
            Some(v) => parses_as_i64(s@) && v as int == int_token_val(s@),
            None => !parses_as_i64(s@),
        },
{
    let n = s.len();
    if n == 0 {
        return None;
    }
    let first = s[0];
    let neg = first == 45;
    let start: usize = if first == 43 || first == 45 {
        1
    } else {
        0
    };
    proof {
        assert(int_digits(s@) =~= s@.subrange(start as int, n as int));
    }
    if start == n {
        return None;
    }
    let mut acc: i64 = 0;
    let mut i: usize = start;
    while i < n
        invariant
            start <= i <= n,
            n == s@.len(),
            start < n,
            int_digits(s@) =~= s@.subrange(start as int, n as int),
            neg == int_negative(s@),
            all_digits(s@.subrange(start as int, i as int)),
            acc <= 0,
            acc as int == -dec_val(s@.subrange(start as int, i as int)),
        decreases n - i,
    {
        let b = s[i];
        if b < 48 || b > 57 {
            proof {
                assert(int_digits(s@)[i as int - start as int] == s@[i as int]);
            }
            return None;
        }
        let ghost pre = s@.subrange(start as int, i as int);
        let ghost post = s@.subrange(start as int, i as int + 1);
        proof {
            assert(post.drop_last() =~= pre);
            assert(post.last() == s@[i as int]);
        }
        let d = (b - 48) as i64;
        let m = match acc.checked_mul(10) {
            Some(m) => m,
            None => {
                proof {
                    overflow_means_no_i64(s@, start as int, i as int + 1);
                }
                return None;
            },
        };
        let v = match m.checked_sub(d) {
            Some(v) => v,
            None => {
                proof {
                    overflow_means_no_i64(s@, start as int, i as int + 1);
                }
                return None;
            },
        };
        acc = v;
        i = i + 1;
    }
    proof {
        assert(s@.subrange(start as int, i as int) =~= int_digits(s@));
    }
    if neg {
        Some(acc)
    } else if acc == i64::MIN {
        None
    } else {
        Some(-acc)
    }
}

/// When the digits seen so far already exceed the signed 64-bit range, no
/// extension of them denotes a representable integer.
proof fn overflow_means_no_i64(s: Seq<u8>, start: int, upto: int)
    requires
        0 <= start <= upto <= s.len(),
        int_digits(s) =~= s.subrange(start, s.len() as int),
        all_digits(s.subrange(start, upto)),
        dec_val(s.subrange(start, upto)) > 0x8000_0000_0000_0000,
    ensures
        !parses_as_i64(s),
{
    if is_int_token(s) {
        lemma_dec_val_prefix(int_digits(s), upto - start);
        assert(int_digits(s).take(upto - start) =~= s.subrange(start, upto));
    }
}

// ---------------------------------------------------------------------------
// Floating-point tokens.
// ---------------------------------------------------------------------------

/// Number of consecutive decimal digit bytes at position `i`.
pub open spec fn digit_run(s: Seq<u8>, i: int) -> int
    decreases s.len() - i,
    when 0 <= i <= s.len()
{
    if i < s.len() && is_digit(s[i]) {
        1 + digit_run(s, i + 1)
    } else {
        0
    }
}

/// An exponent part filling the rest of the token: `e` or `E`, an optional
/// sign, and at least one digit.
pub open spec fn is_exp_at(s: Seq<u8>, i: int) -> bool {
    0 <= i < s.len() && (s[i] == 101 || s[i] == 69) && {
        let k = if i + 1 < s.len() && (s[i + 1] == 43 || s[i + 1] == 45) {
            i + 2
        } else {
            i + 1
        };
        digit_run(s, k) > 0 && k + digit_run(s, k) == s.len()
    }
}

/// A decimal number starting at `o`: digits around an optional dot -- at
/// least one digit in all -- and an optional exponent reaching the end.
pub open spec fn is_number_at(s: Seq<u8>, o: int) -> bool {
    let d1 = digit_run(s, o);
    if o + d1 < s.len() && s[o + d1] == 46 {
        let d2 = digit_run(s, o + d1 + 1);
        d1 + d2 > 0 && (o + d1 + 1 + d2 == s.len() || is_exp_at(s, o + d1 + 1 + d2))
    } else {
        d1 > 0 && (o + d1 == s.len() || is_exp_at(s, o + d1))
    }
}

/// Case-insensitive `inf` filling the token from `o` on.
pub open spec fn is_inf_at(s: Seq<u8>, o: int) -> bool {
    s.len() - o == 3 && to_lower(s[o]) == 105 && to_lower(s[o + 1]) == 110 && to_lower(s[o + 2])
        == 102
}

/// Case-insensitive `infinity` filling the token from `o` on.
pub open spec fn is_infinity_at(s: Seq<u8>, o: int) -> bool {
    s.len() - o == 8 && to_lower(s[o]) == 105 && to_lower(s[o + 1]) == 110 && to_lower(s[o + 2])
        == 102 && to_lower(s[o + 3]) == 105 && to_lower(s[o + 4]) == 110 && to_lower(s[o + 5])
        == 105 && to_lower(s[o + 6]) == 116 && to_lower(s[o + 7]) == 121
}

/// Case-insensitive `nan` filling the token from `o` on.
pub open spec fn is_nan_at(s: Seq<u8>, o: int) -> bool {
    s.len() - o == 3 && to_lower(s[o]) == 110 && to_lower(s[o + 1]) == 97 && to_lower(s[o + 2])
        == 110
}

/// True when the token parses as a 64-bit floating-point literal: an
/// optional sign, then a decimal number with optional fraction and exponent,
/// or one of `inf`, `infinity`, `nan`, case-insensitively.
pub open spec fn is_float_token(s: Seq<u8>) -> bool {
    s.len() > 0 && {
        let o: int = if s[0] == 43 || s[0] == 45 {
            1
        } else {
            0
        };
        is_number_at(s, o) || is_inf_at(s, o) || is_infinity_at(s, o) || is_nan_at(s, o)
    }
}

/// `digit_run` counts a non-negative number of bytes within the sequence.
proof fn lemma_digit_run_bounds(s: Seq<u8>, i: int)
    requires
        0 <= i <= s.len(),
    ensures
        0 <= digit_run(s, i) <= s.len() - i,
    decreases s.len() - i,
{
    if i < s.len() && is_digit(s[i]) {
        lemma_digit_run_bounds(s, i + 1);
    }
}

/// Every byte counted by `digit_run` is a digit, and lies in the sequence.
proof fn lemma_digit_run_digits(s: Seq<u8>, i: int, j: int)
    requires
        0 <= i <= j,
        i <= s.len(),
        j < i + digit_run(s, i),
    ensures
        j < s.len() && is_digit(s[j]),
    decreases j - i,
{
    if j > i {
        lemma_digit_run_digits(s, i + 1, j);
    }
}

/// Every byte of a number-shaped tail is ASCII.
proof fn lemma_number_at_ascii_byte(s: Seq<u8>, o: int, x: int)
    requires
        0 <= o,
        is_number_at(s, o),
        o <= x < s.len(),
    ensures
        s[x] < 128,
{
    let d1 = digit_run(s, o);
    lemma_digit_run_bounds(s, o);
    if o + d1 < s.len() && s[o + d1] == 46 {
        lemma_digit_run_bounds(s, o + d1 + 1);
    }
    let m = if o + d1 < s.len() && s[o + d1] == 46 {
        o + d1 + 1 + digit_run(s, o + d1 + 1)
    } else {
        o + d1
    };
    if x < o + d1 {
        lemma_digit_run_digits(s, o, x);
    } else if o + d1 < s.len() && s[o + d1] == 46 && x < m {
        if x > o + d1 {
            lemma_digit_run_digits(s, o + d1 + 1, x);
        }
    } else {
        // x lies in the exponent part
        assert(is_exp_at(s, m));
        let k = if m + 1 < s.len() && (s[m + 1] == 43 || s[m + 1] == 45) {
            m + 2
        } else {
            m + 1
        };
        if x >= k {
            lemma_digit_run_digits(s, k, x);
        }
    }
}

/// A float-shaped token consists of ASCII bytes only.
proof fn lemma_float_token_ascii(s: Seq<u8>)
    requires
        is_float_token(s),
    ensures
        all_ascii(s),
{
    let o: int = if s[0] == 43 || s[0] == 45 {
        1
    } else {
        0
    };
    assert forall|x: int| 0 <= x < s.len() implies s[x] < 128 by {
        if x >= o && is_number_at(s, o) {
            lemma_number_at_ascii_byte(s, o, x);
        }
    }
}

/// Executable mirror of `digit_run`.
pub fn digit_run_len(s: &[u8], i: usize) -> (r: usize)
    requires
        i <= s@.len(),
    ensures
        i + r <= s@.len(),
        r == digit_run(s@, i as int),
{
    let mut j = i;
    while j < s.len() && is_digit_byte(s[j])
        invariant
            i <= j <= s@.len(),
            digit_run(s@, i as int) == j - i + digit_run(s@, j as int),
        decreases s@.len() - j,
    {
        j = j + 1;
    }
    j - i
}

/// Executable mirror of `is_exp_at`.
fn is_exp_at_exec(s: &[u8], i: usize) -> (r: bool)
    requires
        i <= s@.len(),
    ensures
        r == is_exp_at(s@, i as int),
{
    let n = s.len();
    if i >= n {
        return false;
    }
    if s[i] != 101 && s[i] != 69 {
        return false;
    }
    let k = if i + 1 < n && (s[i + 1] == 43 || s[i + 1] == 45) {
        i + 2
    } else {
        i + 1
    };
    let d = digit_run_len(s, k);
    d > 0 && k + d == n
}

/// Executable mirror of `is_number_at`.
fn is_number_at_exec(s: &[u8], o: usize) -> (r: bool)
    requires
        o <= s@.len(),
    ensures
        r == is_number_at(s@, o as int),
{
    let n = s.len();
    let d1 = digit_run_len(s, o);
    if o + d1 < n && s[o + d1] == 46 {
        let d2 = digit_run_len(s, o + d1 + 1);
        d1 + d2 > 0 && (o + d1 + 1 + d2 == n || is_exp_at_exec(s, o + d1 + 1 + d2))
    } else {
        d1 > 0 && (o + d1 == n || is_exp_at_exec(s, o + d1))
    }
}

/// Decides the sixth rule of the cascade: whether the token is a
/// floating-point literal.
pub fn is_float_token_exec(s: &[u8]) -> (r: bool)
    ensures
        r == is_float_token(s@),
{
    let n = s.len();
    if n == 0 {
        return false;
    }
    let o: usize = if s[0] == 43 || s[0] == 45 {
        1
    } else {
        0
    };
    if is_number_at_exec(s, o) {
        return true;
    }
    if n - o == 3 && to_lower_byte(s[o]) == 105 && to_lower_byte(s[o + 1]) == 110 && to_lower_byte(
        s[o + 2],
    ) == 102 {
        return true;
    }
    if n - o == 8 && to_lower_byte(s[o]) == 105 && to_lower_byte(s[o + 1]) == 110 && to_lower_byte(
        s[o + 2],
    ) == 102 && to_lower_byte(s[o + 3]) == 105 && to_lower_byte(s[o + 4]) == 110 && to_lower_byte(
        s[o + 5],
    ) == 105 && to_lower_byte(s[o + 6]) == 116 && to_lower_byte(s[o + 7]) == 121 {
        return true;
    }
    if n - o == 3 && to_lower_byte(s[o]) == 110 && to_lower_byte(s[o + 1]) == 97 && to_lower_byte(
        s[o + 2],
    ) == 110 {
        return true;
    }
    false
}

// ---------------------------------------------------------------------------
// The coercion cascade.
// ---------------------------------------------------------------------------

/// The ordered coercion cascade on a raw value token: quoted text, `T`, `F`,
/// `NULL`, integer, float, the empty token, and otherwise failure.
pub open spec fn spec_coerce(token: Seq<u8>, quoted: bool) -> ValueModel {
    if quoted {
        ValueModel::String(lossy_utf8(trim_end(token)))
    } else if is_t_token(token) {
        ValueModel::Bool(true)
    } else if is_f_token(token) {
        ValueModel::Bool(false)
    } else if is_null_token(token) {
        ValueModel::Null
    } else if parses_as_i64(token) {
        ValueModel::Integer(int_token_val(token))
    } else if is_float_token(token) {
        ValueModel::Float(ascii_chars(token))
    } else if token.len() == 0 {
        ValueModel::Null
    } else {
        ValueModel::Invalid
    }
}

/// Resolves a raw value token, with its quoting flag, to a typed value by
/// the ordered cascade.
pub fn coerce_value(token: &[u8], quoted: bool) -> (r: FITSValue)
    ensures
        r@ == spec_coerce(token@, quoted),
{
    if quoted {
        let e = trim_end_index(token, 0, token.len());
        let content = copy_range(token, 0, e);
        proof {
            assert(token@.subrange(0, token@.len() as int) =~= token@);
        }
        FITSValue::String(bytes_to_string(content.as_slice()))
    } else if token.len() == 1 && to_lower_byte(token[0]) == 116 {
        FITSValue::Bool(true)
    } else if token.len() == 1 && to_lower_byte(token[0]) == 102 {
        FITSValue::Bool(false)
    } else if token.len() == 4 && to_lower_byte(token[0]) == 110 && to_lower_byte(token[1]) == 117
        && to_lower_byte(token[2]) == 108 && to_lower_byte(token[3]) == 108 {
        FITSValue::Null
    } else if let Some(v) = parse_i64(token) {
        FITSValue::Integer(v)
    } else if is_float_token_exec(token) {
        proof {
            lemma_float_token_ascii(token@);
        }
        FITSValue::Float(bytes_to_string(token))
    } else if token.len() == 0 {
        FITSValue::Null
    } else {
        FITSValue::Invalid
    }
}

/// Model of `parse_keyword_value`: the raw bytes are trimmed, matching quote
/// delimiters are stripped, and the cascade decides the rest.
pub open spec fn spec_parse_keyword_value(raw: Seq<u8>) -> ValueModel {
    let t = trim(raw);
    if t.len() >= 2 && t[0] == 39 && t.last() == 39 {
        spec_coerce(t.subrange(1, t.len() - 1), true)
    } else {
        spec_coerce(t, false)
    }
}

/// Parses a raw value token into a typed value. Fails, with
/// `UnrecognizedValue`, exactly when the coercion cascade resolves to
/// `Invalid`; the engine then records the keyword as invalid instead of
/// aborting.
pub fn parse_keyword_value(value: &[u8]) -> (r: Result<FITSValue, HeaderError>)
    ensures
        match r {
            Ok(v) => v@ == spec_parse_keyword_value(value@) && !(spec_parse_keyword_value(value@)
                is Invalid),
            Err(e) => e == HeaderError::UnrecognizedValue && spec_parse_keyword_value(value@)
                is Invalid,
        },
{
    let si = trim_start_index(value);
    let ei = trim_end_index(value, si, value.len());
    let ghost t = trim(value@);
    proof {
        assert(value@.subrange(si as int, ei as int) == t);
    }
    let v = if ei - si >= 2 && value[si] == 39 && value[ei - 1] == 39 {
        proof {
            assert(t[0] == value@[si as int]);
            assert(t.last() == value@[ei as int - 1]);
            assert(value@.subrange(si as int + 1, ei as int - 1) =~= t.subrange(1, t.len() - 1));
        }
        let content = copy_range(value, si + 1, ei - 1);
        coerce_value(content.as_slice(), true)
    } else {
        proof {
            if t.len() >= 2 {
                assert(t[0] == value@[si as int]);
                assert(t.last() == value@[ei as int - 1]);
            }
        }
        let content = copy_range(value, si, ei);
        coerce_value(content.as_slice(), false)
    };
    if let FITSValue::Invalid = v {
        Err(HeaderError::UnrecognizedValue)
    } else {
        Ok(v)
    }
}

} // verus!
