//! Byte-level text helpers shared by the card parser and the value coercion
//! cascade: ASCII classification, whitespace trimming, and conversion of raw
//! bytes to owned strings.

use vstd::prelude::*;

verus! {

/// ASCII whitespace as the card pattern understands it: space, tab, line
/// feed, vertical tab, form feed, carriage return.
pub open spec fn is_space(b: u8) -> bool {
    b == 32 || b == 9 || b == 10 || b == 11 || b == 12 || b == 13
}

/// An ASCII decimal digit.
pub open spec fn is_digit(b: u8) -> bool {
    48 <= b <= 57
}

/// Lower-cases an ASCII upper-case letter; every other byte is unchanged.
pub open spec fn to_lower(b: u8) -> u8 {
    if 65 <= b <= 90 {
        (b + 32) as u8
    } else {
        b
    }
}

/// The sequence without its trailing ASCII whitespace.
pub open spec fn trim_end(s: Seq<u8>) -> Seq<u8>
    decreases s.len(),
{
    if s.len() > 0 && is_space(s.last()) {
        trim_end(s.drop_last())
    } else {
        s
    }
}

/// The sequence without its leading ASCII whitespace.
pub open spec fn trim_start(s: Seq<u8>) -> Seq<u8>
    decreases s.len(),
{
    if s.len() > 0 && is_space(s[0]) {
        trim_start(s.skip(1))
    } else {
        s
    }
}

/// The sequence without leading or trailing ASCII whitespace.
pub open spec fn trim(s: Seq<u8>) -> Seq<u8> {
    trim_end(trim_start(s))
}

pub open spec fn all_ascii(bytes: Seq<u8>) -> bool {
    forall|i: int| 0 <= i < bytes.len() ==> bytes[i] < 128
}

/// The characters that a sequence of ASCII bytes spells.
pub open spec fn ascii_chars(bytes: Seq<u8>) -> Seq<char> {
    bytes.map_values(|b: u8| b as char)
}

/// The characters that an arbitrary byte sequence decodes to under lossy
/// UTF-8 decoding; named here, stated only by `bytes_to_string`.
pub uninterp spec fn lossy_utf8(bytes: Seq<u8>) -> Seq<char>;

/// Relies on `String::from_utf8_lossy`: decodes the bytes as UTF-8 with
/// invalid sequences replaced by U+FFFD; valid UTF-8 -- in particular pure
/// ASCII -- decodes to itself.
#[verifier::external_body]
pub(crate) fn bytes_to_string(bytes: &[u8]) -> (r: String)
    ensures
        r@ == lossy_utf8(bytes@),
        all_ascii(bytes@) ==> r@ == ascii_chars(bytes@),
{
    String::from_utf8_lossy(bytes).into_owned()
}

/// Executable mirror of `is_space`.
pub fn is_space_byte(b: u8) -> (r: bool)
    ensures
        r == is_space(b),
{
    b == 32 || (9 <= b && b <= 13)
}

/// Executable mirror of `is_digit`.
pub fn is_digit_byte(b: u8) -> (r: bool)
    ensures
        r == is_digit(b),
{
    48 <= b && b <= 57
}

/// Executable mirror of `to_lower`.
pub fn to_lower_byte(b: u8) -> (r: u8)
    ensures
        r == to_lower(b),
{
    if 65 <= b && b <= 90 {
        b + 32
    } else {
        b
    }
}

/// Copies `s[from..to]` into a fresh vector.
pub fn copy_range(s: &[u8], from: usize, to: usize) -> (r: Vec<u8>)
    requires
        from <= to <= s@.len(),
    ensures
        r@ == s@.subrange(from as int, to as int),
{
    let mut r: Vec<u8> = Vec::new();
    let mut i: usize = from;
    while i < to
        invariant
            from <= i <= to <= s@.len(),
            r@ == s@.subrange(from as int, i as int),
        decreases to - i,
    {
        r.push(s[i]);
        i = i + 1;
        proof {
            assert(r@ =~= s@.subrange(from as int, i as int));
        }
    }
    r
}

/// Advances past any leading ASCII whitespace of `s`.
pub fn trim_start_index(s: &[u8]) -> (i: usize)
    ensures
        i <= s@.len(),
        s@.subrange(i as int, s@.len() as int) == trim_start(s@),
{
    let mut i: usize = 0;
    proof {
        assert(s@.subrange(0, s@.len() as int) =~= s@);
    }
    while i < s.len() && is_space_byte(s[i])
        invariant
            i <= s@.len(),
            trim_start(s@) == trim_start(s@.subrange(i as int, s@.len() as int)),
        decreases s@.len() - i,
    {
        proof {
            let sub = s@.subrange(i as int, s@.len() as int);
            assert(sub[0] == s@[i as int]);
            assert(sub.skip(1) =~= s@.subrange(i as int + 1, s@.len() as int));
        }
        i = i + 1;
    }
    proof {
        let sub = s@.subrange(i as int, s@.len() as int);
        if sub.len() > 0 {
            assert(sub[0] == s@[i as int]);
        }
        assert(trim_start(sub) == sub);
    }
    i
}

/// Shrinks `to` past any trailing ASCII whitespace of `s[from..to]`.
pub fn trim_end_index(s: &[u8], from: usize, to: usize) -> (e: usize)
    requires
        from <= to <= s@.len(),
    ensures
        from <= e <= to,
        s@.subrange(from as int, e as int) == trim_end(s@.subrange(from as int, to as int)),
{
    let mut e = to;
    while e > from && is_space_byte(s[e - 1])
        invariant
            from <= e <= to <= s@.len(),
            trim_end(s@.subrange(from as int, e as int)) == trim_end(
                s@.subrange(from as int, to as int),
            ),
        decreases e,
    {
        proof {
            let sub = s@.subrange(from as int, e as int);
            assert(sub.last() == s@[e - 1]);
            assert(sub.drop_last() =~= s@.subrange(from as int, e - 1));
        }
        e = e - 1;
    }
    proof {
        let sub = s@.subrange(from as int, e as int);
        if sub.len() > 0 {
            assert(sub.last() == s@[e - 1]);
        }
        assert(trim_end(sub) == sub);
    }
    e
}

} // verus!
