//! The fixed-width card pattern: a name of one to eight bytes from
//! `A`-`Z`, `0`-`9`, `_`, `-`, an `=` after optional blanks, a quoted or
//! bare value token, and an optional `/`-introduced comment. The match is
//! the leftmost one, with the greedy preferences of the original pattern:
//! a quoted token is preferred over a bare one, and a bare token is the
//! longest run free of whitespace and `/`.

use vstd::prelude::*;

use crate::text::is_space;
use crate::text::is_space_byte;
use crate::text::trim_end;
use crate::text::trim_end_index;
use crate::text::copy_range;

verus! {

/// A byte allowed in a keyword name.
pub open spec fn is_name_byte(b: u8) -> bool {
    (65 <= b <= 90) || (48 <= b <= 57) || b == 95 || b == 45
}

/// First position at or after `i` that does not hold ASCII whitespace.
pub open spec fn skip_spaces(s: Seq<u8>, i: int) -> int
    decreases s.len() - i,
    when 0 <= i <= s.len()
{
    if i < s.len() && is_space(s[i]) {
        skip_spaces(s, i + 1)
    } else {
        i
    }
}

/// End of the run of name bytes starting at `i`.
pub open spec fn name_run_end(s: Seq<u8>, i: int) -> int
    decreases s.len() - i,
    when 0 <= i <= s.len()
{
    if i < s.len() && is_name_byte(s[i]) {
        name_run_end(s, i + 1)
    } else {
        i
    }
}

/// End of the run, starting at `i`, of bytes that are neither whitespace
/// nor `/`: the shape of a bare (unquoted) value token.
pub open spec fn bare_token_end(s: Seq<u8>, i: int) -> int
    decreases s.len() - i,
    when 0 <= i <= s.len()
{
    if i < s.len() && !is_space(s[i]) && s[i] != 47 {
        bare_token_end(s, i + 1)
    } else {
        i
    }
}

/// First single-quote byte at or after `i`, or the length if there is none.
pub open spec fn find_quote(s: Seq<u8>, i: int) -> int
    decreases s.len() - i,
    when 0 <= i <= s.len()
{
    if i < s.len() {
        if s[i] == 39 {
            i
        } else {
            find_quote(s, i + 1)
        }
    } else {
        i
    }
}

/// First line-feed byte at or after `i`, or the length if there is none.
pub open spec fn find_newline(s: Seq<u8>, i: int) -> int
    decreases s.len() - i,
    when 0 <= i <= s.len()
{
    if i < s.len() {
        if s[i] == 10 {
            i
        } else {
            find_newline(s, i + 1)
        }
    } else {
        i
    }
}

/// The pattern can match with its name token starting exactly at `i`: a run
/// of at most eight name bytes there, then optional blanks, then `=`. (A
/// longer run cannot carry a match, but its last eight bytes, reached later,
/// can.)
pub open spec fn match_at(s: Seq<u8>, i: int) -> bool {
    0 <= i < s.len() && is_name_byte(s[i]) && {
        let e = name_run_end(s, i + 1);
        e - i <= 8 && {
            let j = skip_spaces(s, e);
            j < s.len() && s[j] == 61
        }
    }
}

/// The leftmost position at or after `i` where the pattern matches.
pub open spec fn find_match(s: Seq<u8>, i: int) -> Option<int>
    decreases s.len() - i,
    when 0 <= i <= s.len()
{
    if i >= s.len() {
        None
    } else if match_at(s, i) {
        Some(i)
    } else {
        find_match(s, i + 1)
    }
}

/// `find_match` names the leftmost pattern match at or after `i`: where it
/// finds one, nothing earlier matches, and where it finds none, no position
/// matches at all.
pub proof fn lemma_find_match_leftmost(s: Seq<u8>, i: int)
    requires
        0 <= i <= s.len(),
    ensures
        match find_match(s, i) {
            Some(m) => i <= m < s.len() && match_at(s, m) && (forall|j: int|
                i <= j < m ==> !match_at(s, j)),
            None => forall|j: int| i <= j < s.len() ==> !match_at(s, j),
        },
    decreases s.len() - i,
{
    if i < s.len() && !match_at(s, i) {
        lemma_find_match_leftmost(s, i + 1);
    }
}

/// The pieces extracted from one card, before value coercion.
pub struct CardParts {
    /// The name token.
    pub name: Vec<u8>,
    /// The raw value token; for a quoted value the delimiters are stripped
    /// and trailing whitespace inside them removed.
    pub token: Vec<u8>,
    /// Whether the value token was quote-delimited.
    pub quoted: bool,
    /// The comment, trimmed of surrounding whitespace; empty when absent.
    pub comment: Vec<u8>,
}

/// Mathematical model of `CardParts`.
pub struct CardPartsModel {
    pub name: Seq<u8>,
    pub token: Seq<u8>,
    pub quoted: bool,
    pub comment: Seq<u8>,
}

impl View for CardParts {
    type V = CardPartsModel;

    open spec fn view(&self) -> CardPartsModel {
        CardPartsModel {
            name: self.name@,
            token: self.token@,
            quoted: self.quoted,
            comment: self.comment@,
        }
    }
}

/// Field-by-field extraction from one card under the leftmost match of the
/// pattern. `None` when no name-`=` pair is present: such a card produces no
/// record at all.
pub open spec fn spec_extract(s: Seq<u8>) -> Option<CardPartsModel> {
    match find_match(s, 0) {
        None => None,
        Some(i) => {
            let e = name_run_end(s, i + 1);
            let j = skip_spaces(s, e);  // position of '='
            let k = skip_spaces(s, j + 1);  // start of the value token
            let quoted = k < s.len() && s[k] == 39 && find_quote(s, k + 1) < s.len();
            let token = if quoted {
                trim_end(s.subrange(k + 1, find_quote(s, k + 1)))
            } else {
                s.subrange(k, bare_token_end(s, k))
            };
            let vend = if quoted {
                find_quote(s, k + 1) + 1
            } else {
                bare_token_end(s, k)
            };
            let c = skip_spaces(s, vend);
            let comment = if c < s.len() && s[c] == 47 {
                let d = skip_spaces(s, c + 1);
                trim_end(s.subrange(d, find_newline(s, d)))
            } else {
                Seq::empty()
            };
            Some(CardPartsModel { name: s.subrange(i, e), token, quoted, comment })
        },
    }
}

/// Every byte before the end of a name run is a name byte.
proof fn lemma_name_run_bytes(s: Seq<u8>, i: int, x: int)
    requires
        0 <= i <= x,
        i <= s.len(),
        x < name_run_end(s, i),
    ensures
        x < s.len() && is_name_byte(s[x]),
    decreases x - i,
{
    if x > i {
        lemma_name_run_bytes(s, i + 1, x);
    }
}

/// Executable mirror of `is_name_byte`.
pub fn is_name_byte_exec(b: u8) -> (r: bool)
    ensures
        r == is_name_byte(b),
{
    (65 <= b && b <= 90) || (48 <= b && b <= 57) || b == 95 || b == 45
}

/// Executable mirror of `skip_spaces`.
fn skip_spaces_exec(s: &[u8], i: usize) -> (r: usize)
    requires
        i <= s@.len(),
    ensures
        i <= r <= s@.len(),
        r == skip_spaces(s@, i as int),
{
    let mut j = i;
    while j < s.len() && is_space_byte(s[j])
        invariant
            i <= j <= s@.len(),
            skip_spaces(s@, i as int) == skip_spaces(s@, j as int),
        decreases s@.len() - j,
    {
        j = j + 1;
    }
    j
}

/// Executable mirror of `name_run_end`.
fn name_run_end_exec(s: &[u8], i: usize) -> (r: usize)
    requires
        i <= s@.len(),
    ensures
        i <= r <= s@.len(),
        r == name_run_end(s@, i as int),
{
    let mut j = i;
    while j < s.len() && is_name_byte_exec(s[j])
        invariant
            i <= j <= s@.len(),
            name_run_end(s@, i as int) == name_run_end(s@, j as int),
        decreases s@.len() - j,
    {
        j = j + 1;
    }
    j
}

/// Executable mirror of `bare_token_end`.
fn bare_token_end_exec(s: &[u8], i: usize) -> (r: usize)
    requires
        i <= s@.len(),
    ensures
        i <= r <= s@.len(),
        r == bare_token_end(s@, i as int),
{
    let mut j = i;
    while j < s.len() && !is_space_byte(s[j]) && s[j] != 47
        invariant
            i <= j <= s@.len(),
            bare_token_end(s@, i as int) == bare_token_end(s@, j as int),
        decreases s@.len() - j,
    {
        j = j + 1;
    }
    j
}

/// Executable mirror of `find_quote`.
fn find_quote_exec(s: &[u8], i: usize) -> (r: usize)
    requires
        i <= s@.len(),
    ensures
        i <= r <= s@.len(),
        r == find_quote(s@, i as int),
{
    let mut j = i;
    while j < s.len() && s[j] != 39
        invariant
            i <= j <= s@.len(),
            find_quote(s@, i as int) == find_quote(s@, j as int),
        decreases s@.len() - j,
    {
        j = j + 1;
    }
    j
}

/// Executable mirror of `find_newline`.
fn find_newline_exec(s: &[u8], i: usize) -> (r: usize)
    requires
        i <= s@.len(),
    ensures
        i <= r <= s@.len(),
        r == find_newline(s@, i as int),
{
    let mut j = i;
    while j < s.len() && s[j] != 10
        invariant
            i <= j <= s@.len(),
            find_newline(s@, i as int) == find_newline(s@, j as int),
        decreases s@.len() - j,
    {
        j = j + 1;
    }
    j
}

/// Executable mirror of `match_at`.
fn match_at_exec(s: &[u8], i: usize) -> (r: bool)
    requires
        i < s@.len(),
    ensures
        r == match_at(s@, i as int),
{
    if !is_name_byte_exec(s[i]) {
        return false;
    }
    let e = name_run_end_exec(s, i + 1);
    if e - i > 8 {
        return false;
    }
    let j = skip_spaces_exec(s, e);
    j < s.len() && s[j] == 61
}

/// The leftmost match of the pattern in the card, if any.
fn find_match_exec(s: &[u8]) -> (r: Option<usize>)
    ensures
        match r {
            Some(i) => i < s@.len() && match_at(s@, i as int) && find_match(s@, 0) == Some(
                i as int,
            ) && (forall|j: int| 0 <= j < i ==> !match_at(s@, j)),
            None => find_match(s@, 0) is None && (forall|j: int|
                0 <= j < s@.len() ==> !match_at(s@, j)),
        },
{
    let mut i: usize = 0;
    while i < s.len()
        invariant
            i <= s@.len(),
            find_match(s@, 0) == find_match(s@, i as int),
        decreases s@.len() - i,
    {
        if match_at_exec(s, i) {
            proof {
                assert(find_match(s@, i as int) == Some(i as int));
                lemma_find_match_leftmost(s@, 0);
            }
            return Some(i);
        }
        i = i + 1;
    }
    proof {
        lemma_find_match_leftmost(s@, 0);
    }
    None
}

/// Applies the card pattern to one card's bytes; `None` when the pattern
/// does not match and the card is to be skipped.
pub fn extract_card(card: &[u8]) -> (r: Option<CardParts>)
    ensures
        match r {
            Some(p) => spec_extract(card@) == Some(p@) && p.name@.len() >= 1 && (forall|x: int|
                0 <= x < p.name@.len() ==> is_name_byte(#[trigger] p.name@[x])),
            None => spec_extract(card@) is None,
        },
{
    let i = match find_match_exec(card) {
        Some(i) => i,
        None => {
            return None;
        },
    };
    let n = card.len();
    let e = name_run_end_exec(card, i + 1);
    let j = skip_spaces_exec(card, e);
    let k = skip_spaces_exec(card, j + 1);
    let quoted = k < n && card[k] == 39 && find_quote_exec(card, k + 1) < n;
    let token: Vec<u8>;
    let vend: usize;
    if quoted {
        let m = find_quote_exec(card, k + 1);
        let te = trim_end_index(card, k + 1, m);
        token = copy_range(card, k + 1, te);
        vend = m + 1;
    } else {
        let ve = bare_token_end_exec(card, k);
        token = copy_range(card, k, ve);
        vend = ve;
    }
    let c = skip_spaces_exec(card, vend);
    let comment: Vec<u8>;
    if c < n && card[c] == 47 {
        let d = skip_spaces_exec(card, c + 1);
        let nl = find_newline_exec(card, d);
        let ce = trim_end_index(card, d, nl);
        comment = copy_range(card, d, ce);
    } else {
        comment = Vec::new();
        proof {
            assert(comment@ =~= Seq::<u8>::empty());
        }
    }
    let name = copy_range(card, i, e);
    proof {
        assert forall|x: int| 0 <= x < name@.len() implies is_name_byte(#[trigger] name@[x]) by {
            assert(name@[x] == card@[i + x]);
            if x > 0 {
                lemma_name_run_bytes(card@, i as int + 1, i + x);
            }
        }
    }
    Some(CardParts { name, token, quoted, comment })
}

} // verus!
