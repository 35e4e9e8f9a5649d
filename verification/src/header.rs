//! The header engine: keyword records, the append-only header store, the
//! END-sentinel block scan, and the card-by-card parse of the accumulated
//! header bytes.

use vstd::prelude::*;

use crate::card::CardPartsModel;
use crate::card::extract_card;
use crate::card::spec_extract;
use crate::text::all_ascii;
use crate::text::ascii_chars;
use crate::text::bytes_to_string;
use crate::text::copy_range;
use crate::text::is_space;
use crate::text::is_space_byte;
use crate::text::lossy_utf8;
use crate::value::FITSValue;
use crate::value::HeaderError;
use crate::value::ValueModel;
use crate::value::coerce_value;
use crate::value::spec_coerce;

verus! {

/// Size in bytes of one physical block: 36 cards.
pub const BLOCK_SIZE: usize = 2880;

/// Size in bytes of one card.
pub const CARD_SIZE: usize = 80;

/// Mathematical model of a `Keyword`.
pub struct KeywordModel {
    pub name: Seq<char>,
    pub value: ValueModel,
    pub comment: Option<Seq<char>>,
    pub raw: Seq<u8>,
    pub valid: bool,
}

/// The view of an optional comment string.
pub open spec fn comment_view(c: &Option<String>) -> Option<Seq<char>> {
    match c {
        Some(s) => Some(s@),
        None => None,
    }
}

/// A single parsed keyword: one card whose text matched the extraction
/// pattern.
#[derive(Debug, Clone)]
pub struct Keyword {
    /// The name token of the card.
    pub name: String,
    /// The typed value of the card.
    pub value: FITSValue,
    /// The comment of the card, absent when empty after trimming.
    pub comment: Option<String>,
    /// The raw bytes of the value token exactly as extracted.
    raw_value: Vec<u8>,
    /// Whether value coercion succeeded.
    valid: bool,
}

impl View for Keyword {
    type V = KeywordModel;

    closed spec fn view(&self) -> KeywordModel {
        KeywordModel {
            name: self.name@,
            value: self.value@,
            comment: comment_view(&self.comment),
            raw: self.raw_value@,
            valid: self.valid,
        }
    }
}

impl Keyword {
    /// Whether the raw value token was coerced successfully; an invalid
    /// keyword still carries its name, raw bytes and comment.
    pub fn is_valid(&self) -> (r: bool)
        ensures
            r == self@.valid,
    {
        self.valid
    }

    /// The raw bytes of the value token exactly as extracted,
    /// pre-coercion and whitespace-trimmed.
    pub fn raw_value(&self) -> (r: &Vec<u8>)
        ensures
            r@ == self@.raw,
    {
        &self.raw_value
    }
}

/// The keyword record a matched card denotes: the name read as characters,
/// the coerced value, the comment when present, the raw token, and the
/// validity flag of the coercion.
pub open spec fn spec_keyword_of(p: CardPartsModel) -> KeywordModel {
    KeywordModel {
        name: ascii_chars(p.name),
        value: spec_coerce(p.token, p.quoted),
        comment: if p.comment.len() == 0 {
            None
        } else {
            Some(lossy_utf8(p.comment))
        },
        raw: p.token,
        valid: !(spec_coerce(p.token, p.quoted) is Invalid),
    }
}

/// The record of one card: `None` when the card does not match the pattern.
pub open spec fn spec_parse_card(card: Seq<u8>) -> Option<KeywordModel> {
    match spec_extract(card) {
        None => None,
        Some(p) => Some(spec_keyword_of(p)),
    }
}

/// Parses one card (80 bytes, or a shorter trailing chunk). A card that
/// does not match the pattern -- no `=`, or a malformed name -- produces no
/// record at all; a card whose value token fails coercion still produces a
/// record, marked invalid.
pub fn parse_card(card: &[u8]) -> (r: Option<Keyword>)
    ensures
        match r {
            Some(k) => spec_parse_card(card@) == Some(k@),
            None => spec_parse_card(card@) is None,
        },
{
    let p = match extract_card(card) {
        Some(p) => p,
        None => {
            return None;
        },
    };
    let value = coerce_value(p.token.as_slice(), p.quoted);
    let valid = match value {
        FITSValue::Invalid => false,
        _ => true,
    };
    proof {
        assert(all_ascii(p.name@));
    }
    let name = bytes_to_string(p.name.as_slice());
    let comment = if p.comment.len() == 0 {
        None
    } else {
        Some(bytes_to_string(p.comment.as_slice()))
    };
    Some(Keyword { name, value, comment, raw_value: p.token, valid })
}

/// An ordered, append-only collection of parsed keywords: insertion order
/// equals the file's card order, and duplicate names are both retained.
#[derive(Debug, Clone)]
pub struct Header {
    /// The keywords in the header.
    pub keywords: Vec<Keyword>,
}

impl View for Header {
    type V = Seq<KeywordModel>;

    open spec fn view(&self) -> Seq<KeywordModel> {
        self.keywords@.map_values(|k: Keyword| k@)
    }
}

impl Header {
    /// Creates a new, empty header.
    pub fn new() -> (h: Header)
        ensures
            h@ == Seq::<KeywordModel>::empty(),
    {
        let h = Header { keywords: Vec::new() };
        proof {
            assert(h@ =~= Seq::<KeywordModel>::empty());
        }
        h
    }

    /// Appends a keyword; nothing already stored moves or changes.
    pub fn add_keyword(&mut self, keyword: Keyword)
        ensures
            final(self)@ == old(self)@.push(keyword@),
    {
        self.keywords.push(keyword);
        proof {
            assert(self@ =~= old(self)@.push(keyword@));
        }
    }

    /// Number of stored keywords: the count of cards that matched the
    /// pattern, not the raw card count.
    pub fn num_keywords(&self) -> (n: usize)
        ensures
            n == self@.len(),
    {
        self.keywords.len()
    }

    /// Retrieves a keyword by name: a linear scan in insertion order, so
    /// under duplicate names the first stored record wins; `None` when no
    /// stored keyword bears the name.
    pub fn get_keyword(&self, key: &str) -> (r: Option<&Keyword>)
        ensures
            match r {
                Some(k) => exists|i: int|
                    0 <= i < self@.len() && (#[trigger] self@[i]).name == key@ && k@ == self@[i]
                        && (forall|j: int| 0 <= j < i ==> (#[trigger] self@[j]).name != key@),
                None => forall|i: int| 0 <= i < self@.len() ==> (#[trigger] self@[i]).name != key@,
            },
    {
        let key_string: String = key.to_owned();
        let n = self.keywords.len();
        let mut i: usize = 0;
        while i < n
            invariant
                i <= n,
                n == self@.len(),
                key_string@ == key@,
                forall|j: int| 0 <= j < i ==> (#[trigger] self@[j]).name != key@,
            decreases n - i,
        {
            if self.keywords[i].name == key_string {
                proof {
                    assert(self@[i as int] == self.keywords@[i as int]@);
                    assert((self@[i as int]).name == key@);
                }
                return Some(&self.keywords[i]);
            }
            i = i + 1;
        }
        None
    }

    /// Consumes the header, yielding its `(name, value, comment)` triples
    /// in insertion order, which is the file's card order.
    pub fn into_records(self) -> (r: Vec<(String, FITSValue, Option<String>)>)
        ensures
            r@.len() == self@.len(),
            forall|i: int|
                0 <= i < r@.len() ==> (#[trigger] r@[i]).0@ == self@[i].name && r@[i].1@
                    == self@[i].value && comment_view(&r@[i].2) == self@[i].comment,
    {
        let ghost orig = self@;
        let mut kws = self.keywords;
        let mut r: Vec<(String, FITSValue, Option<String>)> = Vec::new();
        while kws.len() > 0
            invariant
                r@.len() + kws@.len() == orig.len(),
                forall|i: int|
                    0 <= i < kws@.len() ==> (#[trigger] kws@[i])@ == orig[r@.len() + i],
                forall|i: int|
                    0 <= i < r@.len() ==> (#[trigger] r@[i]).0@ == orig[i].name && r@[i].1@
                        == orig[i].value && comment_view(&r@[i].2) == orig[i].comment,
            decreases kws.len(),
        {
            let k = kws.remove(0);
            r.push((k.name, k.value, k.comment));
        }
        r
    }
}

// ---------------------------------------------------------------------------
// The END sentinel scan.
// ---------------------------------------------------------------------------

/// `END` stands at `i` and nothing but whitespace follows it through the
/// end of the block.
pub open spec fn end_match_at(block: Seq<u8>, i: int) -> bool {
    0 <= i && i + 3 <= block.len() && block[i] == 69 && block[i + 1] == 78 && block[i + 2] == 68
        && (forall|j: int| i + 3 <= j < block.len() ==> is_space(#[trigger] block[j]))
}

/// Start of the whitespace-only suffix of the block.
pub open spec fn ws_suffix_start(block: Seq<u8>) -> int
    decreases block.len(),
{
    if block.len() > 0 && is_space(block.last()) {
        ws_suffix_start(block.drop_last())
    } else {
        block.len() as int
    }
}

/// Position of the END sentinel in the block, if the block carries one.
pub open spec fn spec_find_end(block: Seq<u8>) -> Option<int> {
    let w = ws_suffix_start(block);
    if w >= 3 && block[w - 3] == 69 && block[w - 2] == 78 && block[w - 1] == 68 {
        Some(w - 3)
    } else {
        None
    }
}

/// The whitespace-only suffix starts within the block, everything at or
/// after its start is whitespace, and the byte before it, if any, is not.
proof fn lemma_ws_suffix(block: Seq<u8>)
    ensures
        0 <= ws_suffix_start(block) <= block.len(),
        forall|j: int| ws_suffix_start(block) <= j < block.len() ==> is_space(#[trigger] block[j]),
        ws_suffix_start(block) > 0 ==> !is_space(block[ws_suffix_start(block) - 1]),
    decreases block.len(),
{
    if block.len() > 0 && is_space(block.last()) {
        lemma_ws_suffix(block.drop_last());
        assert forall|j: int|
            ws_suffix_start(block) <= j < block.len() implies is_space(#[trigger] block[j]) by {
            if j < block.len() - 1 {
                assert(block.drop_last()[j] == block[j]);
            }
        }
    }
}

/// `spec_find_end` names exactly the leftmost END-sentinel match: the
/// sentinel it finds matches, nothing earlier matches, and when it finds
/// none, no position matches.
pub proof fn lemma_find_end_correct(block: Seq<u8>)
    ensures
        match spec_find_end(block) {
            Some(i) => end_match_at(block, i) && forall|j: int| 0 <= j < i ==> !end_match_at(
                block,
                j,
            ),
            None => forall|j: int| !end_match_at(block, j),
        },
{
    lemma_ws_suffix(block);
    let w = ws_suffix_start(block);
    match spec_find_end(block) {
        Some(i) => {
            assert(end_match_at(block, i));
            assert forall|j: int| 0 <= j < i implies !end_match_at(block, j) by {
                if end_match_at(block, j) {
                    assert(is_space(block[w - 1]));
                }
            }
        },
        None => {
            assert forall|j: int| !end_match_at(block, j) by {
                if end_match_at(block, j) {
                    // the suffix from j + 3 is all whitespace, so the
                    // whitespace suffix starts at j + 3 exactly, and the
                    // sentinel bytes stand right before it
                    assert(!is_space(block[j + 2]));
                    assert(j + 2 < w);
                    if w > j + 3 {
                        assert(is_space(block[w - 1]));
                    }
                    assert(w == j + 3);
                    assert(block[w - 3] == 69 && block[w - 2] == 78 && block[w - 1] == 68);
                }
            }
        },
    }
}

/// Scans one block for the END sentinel; `Some` gives the leftmost position
/// where `END` is followed by nothing but whitespace through the block's
/// end, and `None` says no position matches.
pub fn find_end(block: &[u8]) -> (r: Option<usize>)
    ensures
        match r {
            Some(i) => i + 3 <= block@.len() && spec_find_end(block@) == Some(i as int)
                && end_match_at(block@, i as int) && (forall|j: int|
                0 <= j < i ==> !end_match_at(block@, j)),
            None => spec_find_end(block@) is None && (forall|j: int| !end_match_at(block@, j)),
        },
{
    proof {
        lemma_find_end_correct(block@);
    }
    let mut w = block.len();
    proof {
        assert(block@.subrange(0, block@.len() as int) =~= block@);
    }
    while w > 0 && is_space_byte(block[w - 1])
        invariant
            w <= block@.len(),
            ws_suffix_start(block@) == ws_suffix_start(block@.subrange(0, w as int)),
        decreases w,
    {
        proof {
            let sub = block@.subrange(0, w as int);
            assert(sub.last() == block@[w - 1]);
            assert(sub.drop_last() =~= block@.subrange(0, w as int - 1));
        }
        w = w - 1;
    }
    proof {
        let sub = block@.subrange(0, w as int);
        if sub.len() > 0 {
            assert(sub.last() == block@[w - 1]);
        }
        assert(ws_suffix_start(sub) == w);
    }
    if w >= 3 && block[w - 3] == 69 && block[w - 2] == 78 && block[w - 1] == 68 {
        Some(w - 3)
    } else {
        None
    }
}

// ---------------------------------------------------------------------------
// Streaming accumulation and the full parse.
// ---------------------------------------------------------------------------

/// The records of the consecutive 80-byte cards of the header bytes, in
/// order; a trailing chunk shorter than a card is parsed like one.
pub open spec fn spec_parse_header(bytes: Seq<u8>) -> Seq<KeywordModel>
    decreases bytes.len(),
{
    if bytes.len() == 0 {
        Seq::empty()
    } else if bytes.len() <= CARD_SIZE {
        match spec_parse_card(bytes) {
            Some(k) => seq![k],
            None => Seq::empty(),
        }
    } else {
        (match spec_parse_card(bytes.take(CARD_SIZE as int)) {
            Some(k) => seq![k],
            None => Seq::empty(),
        }) + spec_parse_header(bytes.skip(CARD_SIZE as int))
    }
}

/// Splits the header bytes into consecutive 80-byte cards and parses each;
/// cards that do not match the pattern yield no record.
pub fn parse_header_bytes(bytes: &[u8]) -> (h: Header)
    ensures
        h@ == spec_parse_header(bytes@),
{
    let mut h = Header::new();
    let n = bytes.len();
    let mut pos: usize = 0;
    proof {
        assert(bytes@.skip(0) =~= bytes@);
    }
    while pos < n
        invariant
            pos <= n,
            n == bytes@.len(),
            spec_parse_header(bytes@) =~= h@ + spec_parse_header(bytes@.skip(pos as int)),
        decreases n - pos,
    {
        let end = if n - pos > CARD_SIZE {
            pos + CARD_SIZE
        } else {
            n
        };
        let card = copy_range(bytes, pos, end);
        let ghost rest = bytes@.skip(pos as int);
        proof {
            if n - pos <= CARD_SIZE {
                assert(card@ =~= rest);
            } else {
                assert(card@ =~= rest.take(CARD_SIZE as int));
                assert(rest.skip(CARD_SIZE as int) =~= bytes@.skip(end as int));
            }
        }
        match parse_card(card.as_slice()) {
            Some(k) => {
                h.add_keyword(k);
            },
            None => {},
        }
        proof {
            if n - pos <= CARD_SIZE {
                assert(bytes@.skip(end as int) =~= Seq::<u8>::empty());
            }
            assert(spec_parse_header(bytes@) =~= h@ + spec_parse_header(bytes@.skip(end as int)));
        }
        pos = end;
    }
    proof {
        assert(spec_parse_header(bytes@.skip(pos as int)) =~= Seq::<KeywordModel>::empty());
        assert(h@ =~= h@ + Seq::<KeywordModel>::empty());
    }
    h
}

/// Streaming scanner for the header section. Blocks are fed in file order:
/// bytes before the END sentinel accumulate, and the scan completes on the
/// block that carries the sentinel, after which no further block is wanted.
pub struct HeaderScanner {
    buf: Vec<u8>,
    done: bool,
}

impl HeaderScanner {
    /// Bytes accumulated so far.
    pub closed spec fn bytes(&self) -> Seq<u8> {
        self.buf@
    }

    /// Whether the END sentinel has been seen.
    pub closed spec fn complete(&self) -> bool {
        self.done
    }

    /// A scanner with nothing fed yet.
    pub fn new() -> (s: HeaderScanner)
        ensures
            s.bytes() == Seq::<u8>::empty(),
            !s.complete(),
    {
        HeaderScanner { buf: Vec::new(), done: false }
    }

    /// Whether the END sentinel has been seen.
    pub fn is_complete(&self) -> (r: bool)
        ensures
            r == self.complete(),
    {
        self.done
    }

    /// Feeds the next block. When the block carries the END sentinel, only
    /// the bytes before it are kept and the scan completes; otherwise the
    /// whole block is appended and scanning must continue.
    pub fn feed_block(&mut self, block: &[u8]) -> (done: bool)
        requires
            !old(self).complete(),
            block@.len() == BLOCK_SIZE,
        ensures
            done == final(self).complete(),
            match spec_find_end(block@) {
                Some(i) => final(self).complete() && final(self).bytes() == old(self).bytes()
                    + block@.subrange(0, i),
                None => !final(self).complete() && final(self).bytes() == old(self).bytes()
                    + block@,
            },
    {
        match find_end(block) {
            Some(i) => {
                let mut part = copy_range(block, 0, i);
                self.buf.append(&mut part);
                self.done = true;
                true
            },
            None => {
                let mut part = copy_range(block, 0, block.len());
                proof {
                    assert(block@.subrange(0, block@.len() as int) =~= block@);
                }
                self.buf.append(&mut part);
                false
            },
        }
    }

    /// Finishes the scan: a header parsed from the accumulated bytes when
    /// the sentinel was found, and a truncated-header error -- never a
    /// silently empty header -- when the stream ended first.
    pub fn finish(self) -> (r: Result<Header, HeaderError>)
        ensures
            match r {
                Ok(h) => self.complete() && h@ == spec_parse_header(self.bytes()),
                Err(e) => !self.complete() && e == HeaderError::TruncatedHeader,
            },
    {
        if self.done {
            Ok(parse_header_bytes(self.buf.as_slice()))
        } else {
            Err(HeaderError::TruncatedHeader)
        }
    }
}

} // verus!
