//! Recognition of `<thinking>` blocks inside model text.
//!
//! A tag counts only where it is not a quotation of the tag: a neighbouring quote or punctuation
//! character marks it as text about the tag rather than the tag itself.

use vstd::prelude::*;
use vstd::string::*;
use vstd::utf8::*;

use crate::text;

verus! {

broadcast use vstd::utf8::group_utf8_lib;

/// The characters that mark a neighbouring tag as quoted.
pub open spec fn is_quote_byte(b: u8) -> bool {
    ||| b == 0x60 || b == 0x22 || b == 0x27 || b == 0x5c || b == 0x23 || b == 0x21
    ||| b == 0x40 || b == 0x24 || b == 0x25 || b == 0x5e || b == 0x26 || b == 0x2a
    ||| b == 0x28 || b == 0x29 || b == 0x2d || b == 0x5f || b == 0x3d || b == 0x2b
    ||| b == 0x5b || b == 0x5d || b == 0x7b || b == 0x7d || b == 0x3b || b == 0x3a
    ||| b == 0x3c || b == 0x3e || b == 0x2c || b == 0x2e || b == 0x3f || b == 0x2f
}

/// There is a quote character at offset `pos`.
pub open spec fn quote_at(b: Seq<u8>, pos: int) -> bool {
    0 <= pos < b.len() && is_quote_byte(b[pos])
}

/// The `n` bytes at `p` have a quote character right before or right after them.
pub open spec fn is_quoted(b: Seq<u8>, p: int, n: int) -> bool {
    quote_at(b, p - 1) || quote_at(b, p + n)
}

/// The bytes of `<thinking>`.
pub open spec fn start_tag() -> Seq<u8> {
    text::bytes_of("<thinking>"@)
}

/// The bytes of `</thinking>`.
pub open spec fn end_tag() -> Seq<u8> {
    text::bytes_of("</thinking>"@)
}

/// An opening tag stands at `p` and is not quoted.
pub open spec fn is_start_tag(b: Seq<u8>, p: int) -> bool {
    text::occurs_at(b, start_tag(), p) && !is_quoted(b, p, 10)
}

/// A closing tag stands at `p`, is not quoted and is followed by an empty line.
pub open spec fn is_end_tag(b: Seq<u8>, p: int) -> bool {
    &&& text::occurs_at(b, end_tag(), p)
    &&& !is_quoted(b, p, 11)
    &&& p + 13 <= b.len()
    &&& b[p + 11] == 0x0a
    &&& b[p + 12] == 0x0a
}

/// A closing tag stands at `p`, is not quoted and only white space follows it.
pub open spec fn is_trailing_end_tag(b: Seq<u8>, p: int) -> bool {
    &&& text::occurs_at(b, end_tag(), p)
    &&& !is_quoted(b, p, 11)
    &&& text::is_blank(decode_utf8(b.subrange(p + 11, b.len() as int)))
}

/// `p` is the least non-negative offset of which `holds` is true.
pub open spec fn is_first(holds: spec_fn(int) -> bool, p: int) -> bool {
    &&& 0 <= p
    &&& holds(p)
    &&& forall|q: int| 0 <= q < p ==> !#[trigger] holds(q)
}

/// The least non-negative offset of which `holds` is true, if there is one.
pub open spec fn first_offset(holds: spec_fn(int) -> bool) -> Option<int> {
    if exists|p: int| is_first(holds, p) {
        Some(choose|p: int| is_first(holds, p))
    } else {
        None
    }
}

/// A quote character in front of the bytes does not quote what stands at `p`.
pub open spec fn is_clear(after_quote: bool, p: int) -> bool {
    !(after_quote && p == 0)
}

/// Where the first opening tag of `text` stands. `after_quote` says that a quote character came
/// right before the text.
pub open spec fn start_tag_after(after_quote: bool, text: Seq<char>) -> Option<int> {
    first_offset(|p: int| is_start_tag(text::bytes_of(text), p) && is_clear(after_quote, p))
}

/// Where the first closing tag of `text` stands that an empty line follows.
pub open spec fn end_tag_after(after_quote: bool, text: Seq<char>) -> Option<int> {
    first_offset(|p: int| is_end_tag(text::bytes_of(text), p) && is_clear(after_quote, p))
}

/// Where the first closing tag of `text` stands that ends the text.
pub open spec fn trailing_end_tag_after(after_quote: bool, text: Seq<char>) -> Option<int> {
    first_offset(|p: int| is_trailing_end_tag(text::bytes_of(text), p) && is_clear(after_quote, p))
}

/// Where the first opening tag of a complete text stands.
pub open spec fn start_tag_offset(text: Seq<char>) -> Option<int> {
    start_tag_after(false, text)
}

/// Where the first closing tag of a complete text stands that an empty line follows.
pub open spec fn end_tag_offset(text: Seq<char>) -> Option<int> {
    end_tag_after(false, text)
}

/// Where the first closing tag of a complete text stands that ends the text.
pub open spec fn trailing_end_tag_offset(text: Seq<char>) -> Option<int> {
    trailing_end_tag_after(false, text)
}

/// The bytes from `at` on may be the beginning of a closing tag.
pub open spec fn is_begun_tag(b: Seq<u8>, at: int) -> bool {
    &&& b.len() - 10 <= at <= b.len()
    &&& forall|j: int| at <= j < b.len() ==> #[trigger] b[j] == end_tag()[j - at]
}

/// Where the end of `text` begins that may be the beginning of a closing tag; the length of the
/// text where there is none.
pub open spec fn begun_tag_offset(text: Seq<char>) -> int {
    first_offset(|p: int| is_begun_tag(text::bytes_of(text), p))->0
}

/// The text ends with a quote character.
pub open spec fn ends_in_quote(s: Seq<char>) -> bool {
    quote_at(text::bytes_of(s), text::bytes_of(s).len() - 1)
}

/// An offset as an executable function returns it, as an offset of the model.
pub open spec fn offset(r: Option<usize>) -> Option<int> {
    match r {
        Some(p) => Some(p as int),
        None => None,
    }
}

pub proof fn lemma_first_offset(holds: spec_fn(int) -> bool, p: int)
    requires
        is_first(holds, p),
    ensures
        first_offset(holds) == Some(p),
{
    let q = choose|q: int| is_first(holds, q);
    assert(is_first(holds, q));
    if q < p {
        assert(!holds(q));
    }
    if p < q {
        assert(!holds(p));
    }
}

pub proof fn lemma_no_first_offset(holds: spec_fn(int) -> bool)
    requires
        forall|q: int| 0 <= q ==> !#[trigger] holds(q),
    ensures
        first_offset(holds) is None,
{
}

/// The lengths and bytes of the tags that the offsets below depend on.
pub proof fn lemma_tags()
    ensures
        start_tag().len() == 10,
        start_tag()[0] == 0x3c,
        start_tag()[9] == 0x3e,
        forall|i: int| 0 < i < 10 ==> start_tag()[i] != 0x3c,
        end_tag().len() == 11,
        end_tag()[0] == 0x3c,
        end_tag()[10] == 0x3e,
        forall|i: int| 0 < i < 11 ==> end_tag()[i] != 0x3c,
{
    reveal_strlit("<thinking>");
    reveal_strlit("</thinking>");
    is_ascii_chars_encode_utf8("<thinking>"@);
    is_ascii_chars_encode_utf8("</thinking>"@);
}

/// The ends of an opening tag are character boundaries.
pub proof fn lemma_start_tag_boundaries(text: Seq<char>, p: int)
    requires
        is_start_tag(text::bytes_of(text), p),
    ensures
        p + 10 <= text::bytes_of(text).len(),
        is_char_boundary(text::bytes_of(text), p),
        is_char_boundary(text::bytes_of(text), p + 10),
{
    lemma_tags();
    let b = text::bytes_of(text);
    let w = b.subrange(p, p + 10);
    assert(w[0] == b[p] && w[9] == b[p + 9]);
    text::lemma_ascii_boundaries(text, p);
    text::lemma_ascii_boundaries(text, p + 9);
}

/// The ends of a closing tag are character boundaries.
pub proof fn lemma_end_tag_boundaries(text: Seq<char>, p: int)
    requires
        text::occurs_at(text::bytes_of(text), end_tag(), p),
    ensures
        p + 11 <= text::bytes_of(text).len(),
        is_char_boundary(text::bytes_of(text), p),
        is_char_boundary(text::bytes_of(text), p + 11),
        is_end_tag(text::bytes_of(text), p) ==> is_char_boundary(text::bytes_of(text), p + 13),
{
    lemma_tags();
    let b = text::bytes_of(text);
    let w = b.subrange(p, p + 11);
    assert(w[0] == b[p] && w[10] == b[p + 10]);
    text::lemma_ascii_boundaries(text, p);
    text::lemma_ascii_boundaries(text, p + 10);
    if is_end_tag(b, p) {
        text::lemma_ascii_boundaries(text, p + 12);
    }
}

/// Where a closing tag has begun is known, and is a character boundary.
pub proof fn lemma_begun_tag(text: Seq<char>)
    ensures
        ({
            let b = text::bytes_of(text);
            let at = begun_tag_offset(text);
            &&& is_first(|p: int| is_begun_tag(b, p), at)
            &&& 0 <= at <= b.len()
            &&& is_char_boundary(b, at)
        }),
{
    lemma_tags();
    let b = text::bytes_of(text);
    let len = b.len() as int;
    let holds = |p: int| is_begun_tag(b, p);
    assert(holds(len));
    lemma_first_exists(holds, 0, len);
    let at = begun_tag_offset(text);
    assert(is_first(holds, at));
    assert(holds(at));
    encode_utf8_valid_utf8(text);
    is_char_boundary_start_end_of_seq(b);
    if at < len {
        assert(b[at] == end_tag()[at - at]);
        text::lemma_ascii_boundaries(text, at);
    }
}

/// Where something holds of an offset, there is a first one.
pub proof fn lemma_first_exists(holds: spec_fn(int) -> bool, low: int, high: int)
    requires
        0 <= low <= high,
        holds(high),
        forall|q: int| 0 <= q < low ==> !#[trigger] holds(q),
    ensures
        exists|p: int| is_first(holds, p),
    decreases high - low,
{
    if holds(low) {
        assert(is_first(holds, low));
    } else {
        lemma_first_exists(holds, low + 1, high);
    }
}

/// Occurrences of the closing tag do not overlap.
proof fn lemma_end_tags_apart(b: Seq<u8>, p: int, q: int)
    requires
        text::occurs_at(b, end_tag(), p),
        text::occurs_at(b, end_tag(), q),
        p < q,
    ensures
        p + 11 <= q,
{
    lemma_tags();
    if q < p + 11 {
        assert(b.subrange(q, q + 11)[0] == b[q]);
        assert(b.subrange(p, p + 11)[q - p] == b[q]);
        assert(end_tag()[q - p] != 0x3c);
    }
}

/// The greatest character boundary not above `target`; the length where `target` is beyond it.
pub open spec fn boundary_at_or_before(b: Seq<u8>, target: int) -> int
    decreases target,
{
    if target >= b.len() {
        b.len() as int
    } else if target <= 0 {
        0
    } else if is_char_boundary(b, target) {
        target
    } else {
        boundary_at_or_before(b, target - 1)
    }
}

/// [`boundary_at_or_before`] is a boundary in range.
pub proof fn lemma_boundary_at_or_before(text: Seq<char>, target: int)
    requires
        0 <= target,
    ensures
        is_char_boundary(text::bytes_of(text), boundary_at_or_before(text::bytes_of(text), target)),
        0 <= boundary_at_or_before(text::bytes_of(text), target) <= text::bytes_of(text).len(),
        boundary_at_or_before(text::bytes_of(text), target) <= target,
    decreases target,
{
    let b = text::bytes_of(text);
    encode_utf8_valid_utf8(text);
    is_char_boundary_start_end_of_seq(b);
    if target >= b.len() || target <= 0 {
    } else if is_char_boundary(b, target) {
    } else {
        lemma_boundary_at_or_before(text, target - 1);
    }
}

/// The greatest character boundary of `s` not above `target`.
pub fn find_char_boundary(s: &str, target: usize) -> (r: usize)
    ensures
        r == boundary_at_or_before(text::bytes_of(s@), target as int),
        is_char_boundary(text::bytes_of(s@), r as int),
        r <= target,
        r <= text::bytes_of(s@).len(),
{
    let len: usize = s.as_bytes().len();
    proof {
        lemma_boundary_at_or_before(s@, target as int);
    }
    if target >= len {
        return len;
    }
    if target == 0 {
        return 0;
    }
    let mut pos: usize = target;
    while pos > 0 && !s.is_char_boundary(pos)
        invariant
            len == text::bytes_of(s@).len(),
            pos < len,
            boundary_at_or_before(text::bytes_of(s@), target as int) == boundary_at_or_before(
                text::bytes_of(s@),
                pos as int,
            ),
        decreases pos,
    {
        pos = pos - 1;
    }
    pos
}

/// Whether there is a quote character at offset `pos`.
pub fn is_quote_char(buffer: &str, pos: usize) -> (r: bool)
    ensures
        r == quote_at(text::bytes_of(buffer@), pos as int),
{
    let bytes = buffer.as_bytes();
    if pos >= bytes.len() {
        return false;
    }
    let b: u8 = bytes[pos];
    b == 0x60 || b == 0x22 || b == 0x27 || b == 0x5c || b == 0x23 || b == 0x21 || b == 0x40 || b
        == 0x24 || b == 0x25 || b == 0x5e || b == 0x26 || b == 0x2a || b == 0x28 || b == 0x29 || b
        == 0x2d || b == 0x5f || b == 0x3d || b == 0x2b || b == 0x5b || b == 0x5d || b == 0x7b || b
        == 0x7d || b == 0x3b || b == 0x3a || b == 0x3c || b == 0x3e || b == 0x2c || b == 0x2e || b
        == 0x3f || b == 0x2f
}

/// Where the end of `s` begins that may be the beginning of a closing tag.
pub fn find_begun_tag(s: &str) -> (r: usize)
    ensures
        r == begun_tag_offset(s@),
        is_char_boundary(text::bytes_of(s@), r as int),
        r <= text::bytes_of(s@).len(),
{
    let bytes = s.as_bytes();
    let tag = "</thinking>".as_bytes();
    let len: usize = bytes.len();
    let mut at: usize = if len > 10 {
        len - 10
    } else {
        0
    };
    let ghost b = text::bytes_of(s@);
    proof {
        lemma_tags();
        lemma_begun_tag(s@);
    }
    while at < len
        invariant
            len == b.len(),
            bytes@ == b,
            tag@ == end_tag(),
            end_tag().len() == 11,
            b.len() - 10 <= at <= len,
            forall|q: int| 0 <= q < at ==> !is_begun_tag(b, q),
        ensures
            at <= len,
            is_begun_tag(b, at as int),
            forall|q: int| 0 <= q < at ==> !is_begun_tag(b, q),
        decreases len - at,
    {
        let mut same: bool = true;
        let mut i: usize = at;
        while i < len && same
            invariant
                len == b.len(),
                bytes@ == b,
                tag@ == end_tag(),
                end_tag().len() == 11,
                b.len() - 10 <= at <= i <= len,
                same ==> forall|j: int| at <= j < i ==> #[trigger] b[j] == end_tag()[j - at],
                !same ==> !is_begun_tag(b, at as int),
            decreases len - i + (if same { 1int } else { 0 }),
        {
            if bytes[i] == tag[i - at] {
                i = i + 1;
            } else {
                same = false;
            }
        }
        if same {
            break;
        }
        at = at + 1;
    }
    proof {
        let holds = |p: int| is_begun_tag(b, p);
        assert(is_first(holds, at as int));
        lemma_first_offset(holds, at as int);
    }
    at
}

/// Whether the text ends with a quote character.
pub fn text_ends_in_quote(s: &str) -> (r: bool)
    ensures
        r == ends_in_quote(s@),
{
    let len: usize = s.as_bytes().len();
    len > 0 && is_quote_char(s, len - 1)
}

/// Where the first unquoted `<thinking>` of `buffer` stands.
pub fn find_real_thinking_start_tag(buffer: &str) -> (r: Option<usize>)
    ensures
        offset(r) == start_tag_offset(buffer@),
        r matches Some(p) ==> is_start_tag(text::bytes_of(buffer@), p as int),
        text::bytes_of(buffer@).len() <= usize::MAX,
{
    find_start_tag_after(buffer, false)
}

/// The same search in text that goes on: `after_quote` says that a quote character came right
/// before `buffer`.
pub fn find_start_tag_after(buffer: &str, after_quote: bool) -> (r: Option<usize>)
    ensures
        offset(r) == start_tag_after(after_quote, buffer@),
        r matches Some(p) ==> is_start_tag(text::bytes_of(buffer@), p as int),
        text::bytes_of(buffer@).len() <= usize::MAX,
{
    let ghost b = text::bytes_of(buffer@);
    let ghost holds = |p: int|
        is_start_tag(text::bytes_of(buffer@), p) && is_clear(after_quote, p);
    let tag = "<thinking>".as_bytes();
    proof {
        lemma_tags();
    }
    let bytes = buffer.as_bytes();
    let len: usize = bytes.len();
    let mut from: usize = 0;
    loop
        invariant
            b == text::bytes_of(buffer@),
            bytes@ == b,
            len == b.len(),
            tag@ == start_tag(),
            start_tag().len() == 10,
            from <= b.len(),
            forall|q: int| 0 <= q < from ==> !(is_start_tag(b, q) && is_clear(after_quote, q)),
            holds == (|p: int| is_start_tag(text::bytes_of(buffer@), p) && is_clear(after_quote, p)),
        decreases b.len() - from,
    {
        match text::find_bytes(bytes, tag, from) {
            None => {
                proof {
                    assert forall|q: int| 0 <= q implies !#[trigger] holds(q) by {
                        assert(!(is_start_tag(b, q) && is_clear(after_quote, q)));
                    }
                    lemma_no_first_offset(holds);
                }
                return None;
            },
            Some(at) => {
                let before: bool = if at > 0 {
                    is_quote_char(buffer, at - 1)
                } else {
                    after_quote
                };
                let after: bool = is_quote_char(buffer, at + 10);
                if !before && !after {
                    proof {
                        assert(holds(at as int));
                        assert forall|q: int| 0 <= q < at implies !#[trigger] holds(q) by {
                            assert(!(is_start_tag(b, q) && is_clear(after_quote, q)));
                        }
                        lemma_first_offset(holds, at as int);
                    }
                    return Some(at);
                }
                from = at + 1;
            },
        }
    }
}

/// Where the first unquoted `</thinking>` of `buffer` stands that an empty line follows.
///
/// A closing tag that the empty line does not follow yet is not reported: more text may come.
pub fn find_real_thinking_end_tag(buffer: &str) -> (r: Option<usize>)
    ensures
        offset(r) == end_tag_offset(buffer@),
        r matches Some(p) ==> is_end_tag(text::bytes_of(buffer@), p as int),
        text::bytes_of(buffer@).len() <= usize::MAX,
{
    find_end_tag_after(buffer, false)
}

/// The same search in text that goes on: `after_quote` says that a quote character came right
/// before `buffer`.
pub fn find_end_tag_after(buffer: &str, after_quote: bool) -> (r: Option<usize>)
    ensures
        offset(r) == end_tag_after(after_quote, buffer@),
        r matches Some(p) ==> is_end_tag(text::bytes_of(buffer@), p as int),
        text::bytes_of(buffer@).len() <= usize::MAX,
{
    let ghost b = text::bytes_of(buffer@);
    let ghost holds = |p: int|
        is_end_tag(text::bytes_of(buffer@), p) && is_clear(after_quote, p);
    let tag = "</thinking>".as_bytes();
    proof {
        lemma_tags();
    }
    let bytes = buffer.as_bytes();
    let len: usize = bytes.len();
    let mut from: usize = 0;
    loop
        invariant
            b == text::bytes_of(buffer@),
            bytes@ == b,
            len == b.len(),
            tag@ == end_tag(),
            end_tag().len() == 11,
            from <= b.len(),
            forall|q: int| 0 <= q < from ==> !(is_end_tag(b, q) && is_clear(after_quote, q)),
            holds == (|p: int| is_end_tag(text::bytes_of(buffer@), p) && is_clear(after_quote, p)),
        decreases b.len() - from,
    {
        match text::find_bytes(bytes, tag, from) {
            None => {
                proof {
                    assert forall|q: int| 0 <= q implies !#[trigger] holds(q) by {
                        assert(!(is_end_tag(b, q) && is_clear(after_quote, q)));
                    }
                    lemma_no_first_offset(holds);
                }
                return None;
            },
            Some(at) => {
                let before: bool = if at > 0 {
                    is_quote_char(buffer, at - 1)
                } else {
                    after_quote
                };
                let after: bool = is_quote_char(buffer, at + 11);
                if before || after {
                    from = at + 1;
                    continue;
                }
                if bytes.len() - (at + 11) < 2 {
                    proof {
                        assert forall|q: int| 0 <= q implies !#[trigger] holds(q) by {
                            if is_end_tag(b, q) && q > at {
                                lemma_end_tags_apart(b, at as int, q);
                            }
                            assert(!(is_end_tag(b, q) && is_clear(after_quote, q)));
                        }
                        lemma_no_first_offset(holds);
                    }
                    return None;
                }
                if bytes[at + 11] == 0x0a && bytes[at + 12] == 0x0a {
                    proof {
                        assert(holds(at as int));
                        assert forall|q: int| 0 <= q < at implies !#[trigger] holds(q) by {
                            assert(!(is_end_tag(b, q) && is_clear(after_quote, q)));
                        }
                        lemma_first_offset(holds, at as int);
                    }
                    return Some(at);
                }
                from = at + 1;
            },
        }
    }
}

/// Where the first unquoted `</thinking>` of `buffer` stands that only white space follows.
pub fn find_real_thinking_end_tag_at_buffer_end(buffer: &str) -> (r: Option<usize>)
    ensures
        offset(r) == trailing_end_tag_offset(buffer@),
        r matches Some(p) ==> is_trailing_end_tag(text::bytes_of(buffer@), p as int),
        text::bytes_of(buffer@).len() <= usize::MAX,
{
    find_trailing_end_tag_after(buffer, false)
}

/// The same search in text that goes on: `after_quote` says that a quote character came right
/// before `buffer`.
pub fn find_trailing_end_tag_after(buffer: &str, after_quote: bool) -> (r: Option<usize>)
    ensures
        offset(r) == trailing_end_tag_after(after_quote, buffer@),
        r matches Some(p) ==> is_trailing_end_tag(text::bytes_of(buffer@), p as int),
        text::bytes_of(buffer@).len() <= usize::MAX,
{
    let ghost b = text::bytes_of(buffer@);
    let ghost holds = |p: int|
        is_trailing_end_tag(text::bytes_of(buffer@), p) && is_clear(after_quote, p);
    let tag = "</thinking>".as_bytes();
    proof {
        lemma_tags();
    }
    let bytes = buffer.as_bytes();
    let len: usize = bytes.len();
    let mut from: usize = 0;
    loop
        invariant
            b == text::bytes_of(buffer@),
            bytes@ == b,
            len == b.len(),
            tag@ == end_tag(),
            end_tag().len() == 11,
            from <= b.len(),
            forall|q: int| 0 <= q < from ==> !(is_trailing_end_tag(b, q) && is_clear(after_quote, q)),
            holds == (|p: int| is_trailing_end_tag(text::bytes_of(buffer@), p) && is_clear(after_quote, p)),
        decreases b.len() - from,
    {
        match text::find_bytes(bytes, tag, from) {
            None => {
                proof {
                    assert forall|q: int| 0 <= q implies !#[trigger] holds(q) by {
                        assert(!(is_trailing_end_tag(b, q) && is_clear(after_quote, q)));
                    }
                    lemma_no_first_offset(holds);
                }
                return None;
            },
            Some(at) => {
                let before: bool = if at > 0 {
                    is_quote_char(buffer, at - 1)
                } else {
                    after_quote
                };
                let after: bool = is_quote_char(buffer, at + 11);
                if before || after {
                    from = at + 1;
                    continue;
                }
                proof {
                    lemma_end_tag_boundaries(buffer@, at as int);
                }
                let (_front, rest) = text::split_text(buffer, at + 11);
                if text::text_is_blank(rest.as_str()) {
                    proof {
                        assert(holds(at as int));
                        assert forall|q: int| 0 <= q < at implies !#[trigger] holds(q) by {
                            assert(!(is_trailing_end_tag(b, q) && is_clear(after_quote, q)));
                        }
                        lemma_first_offset(holds, at as int);
                    }
                    return Some(at);
                }
                from = at + 1;
            },
        }
    }
}

/// `s` without one leading newline.
pub open spec fn without_leading_newline(s: Seq<char>) -> Seq<char> {
    if s.len() > 0 && s[0] == '\n' {
        s.subrange(1, s.len() as int)
    } else {
        s
    }
}

/// The thinking and the visible text that an extraction from `text` with these parts gives. Where
/// nothing stands between the tags there is no thinking, and the text stays as it is.
pub open spec fn assembled(text: Seq<char>, before: Seq<char>, raw: Seq<char>, after: Seq<char>) -> (
    Option<Seq<char>>,
    Seq<char>,
) {
    let thinking = without_leading_newline(raw);
    if thinking.len() == 0 {
        (None, text)
    } else if text::is_blank(before) {
        (Some(thinking), after)
    } else {
        (Some(thinking), before + after)
    }
}

/// The thinking and the visible text of a complete answer.
pub open spec fn extracted(text: Seq<char>) -> (Option<Seq<char>>, Seq<char>) {
    match start_tag_offset(text) {
        None => (None, text),
        Some(p) => {
            let before = text::text_before(text, p);
            let body = text::text_from(text, p + 10);
            match end_tag_offset(body) {
                Some(e) => assembled(
                    text,
                    before,
                    text::text_before(body, e),
                    text::text_from(body, e + 13),
                ),
                None => match trailing_end_tag_offset(body) {
                    Some(e) => assembled(
                        text,
                        before,
                        text::text_before(body, e),
                        text::trimmed_start(text::text_from(body, e + 11)),
                    ),
                    None => (None, text),
                },
            }
        },
    }
}

/// Removes one leading newline.
pub fn strip_leading_newline(s: &str) -> (r: String)
    ensures
        r@ == without_leading_newline(s@),
{
    if s.unicode_len() > 0 && s.get_char(0) == '\n' {
        s.substring_char(1, s.unicode_len()).to_owned()
    } else {
        s.to_owned()
    }
}

fn assemble(answer: &str, before: String, raw: String, after: String) -> (r: (
    Option<String>,
    String,
))
    ensures
        r.1@ == assembled(answer@, before@, raw@, after@).1,
        match r.0 {
            Some(t) => assembled(answer@, before@, raw@, after@).0 == Some(t@),
            None => assembled(answer@, before@, raw@, after@).0 is None,
        },
{
    let thinking = strip_leading_newline(raw.as_str());
    if thinking.as_str().is_empty() {
        return (None, answer.to_owned());
    }
    let mut remaining = String::new();
    if !text::text_is_blank(before.as_str()) {
        remaining.append(before.as_str());
    }
    remaining.append(after.as_str());
    proof {
        assert(Seq::<char>::empty() + before@ + after@ =~= before@ + after@);
        assert(Seq::<char>::empty() + after@ =~= after@);
    }
    (Some(thinking), remaining)
}

/// Splits a complete answer into its thinking and its visible text.
///
/// Without a complete block that holds thinking the text is visible as it stands.
pub fn extract_thinking_from_complete_text(answer: &str) -> (r: (Option<String>, String))
    ensures
        r.1@ == extracted(answer@).1,
        match r.0 {
            Some(t) => extracted(answer@).0 == Some(t@),
            None => extracted(answer@).0 is None,
        },
        r.0 is None ==> r.1@ == answer@,
{
    let start: usize = match find_real_thinking_start_tag(answer) {
        Some(p) => p,
        None => {
            return (None, answer.to_owned());
        },
    };
    proof {
        lemma_start_tag_boundaries(answer@, start as int);
    }
    let (before, _tagged) = text::split_text(answer, start);
    let (_head, body) = text::split_text(answer, start + 10);
    if let Some(end) = find_real_thinking_end_tag(body.as_str()) {
        proof {
            lemma_end_tag_boundaries(body@, end as int);
        }
        let (raw, _a) = text::split_text(body.as_str(), end);
        let (_b, after) = text::split_text(body.as_str(), end + 13);
        assemble(answer, before, raw, after)
    } else if let Some(end) = find_real_thinking_end_tag_at_buffer_end(body.as_str()) {
        proof {
            lemma_end_tag_boundaries(body@, end as int);
        }
        let (raw, _a) = text::split_text(body.as_str(), end);
        let (_b, rest) = text::split_text(body.as_str(), end + 11);
        let after = text::trim_start(rest.as_str());
        assemble(answer, before, raw, after)
    } else {
        (None, answer.to_owned())
    }
}

} // verus!
