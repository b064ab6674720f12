//! Where the tags of thinking are found, and what an answer falls apart into.

use vstd::prelude::*;
use vstd::utf8::*;

use crate::anthropic::delivery;
use crate::anthropic::thinking;
use crate::text;

verus! {

/// The characters that quote a tag next to them: the punctuation of ASCII but for the bar and the
/// tilde. No letter, digit, space or character beyond ASCII does.
pub proof fn punctuation_quotes(b: u8)
    ensures
        thinking::is_quote_byte(b) <==> (33 <= b <= 47 || 58 <= b <= 64 || 91 <= b <= 96 || b == 123
            || b == 125),
{
}

/// No tag begins in the text.
pub open spec fn begins_no_tag(s: Seq<char>) -> bool {
    forall|i: int| 0 <= i < text::bytes_of(s).len() ==> #[trigger] text::bytes_of(s)[i] != 60
}

/// The text does not end with a character that quotes.
pub open spec fn ends_open(s: Seq<char>) -> bool {
    let b = text::bytes_of(s);
    b.len() > 0 ==> !{
        let c = b[b.len() - 1];
        33 <= c <= 47 || 58 <= c <= 64 || 91 <= c <= 96 || c == 123 || c == 125
    }
}

/// The text does not begin with a character that quotes.
pub open spec fn starts_open(s: Seq<char>) -> bool {
    let b = text::bytes_of(s);
    b.len() > 0 ==> !{
        let c = b[0];
        33 <= c <= 47 || 58 <= c <= 64 || 91 <= c <= 96 || c == 123 || c == 125
    }
}

pub proof fn lemma_literals()
    ensures
        text::bytes_of("<thinking>"@) == thinking::start_tag(),
        text::bytes_of("</thinking>"@) == thinking::end_tag(),
        text::bytes_of("</thinking>\n\n"@) == thinking::end_tag() + seq![0x0au8, 0x0au8],
        thinking::start_tag().len() == 10,
        thinking::end_tag().len() == 11,
        thinking::start_tag()[0] == 60,
        thinking::end_tag()[0] == 60,
{
    thinking::lemma_tags();
    reveal_strlit("</thinking>");
    reveal_strlit("</thinking>\n\n");
    is_ascii_chars_encode_utf8("</thinking>"@);
    is_ascii_chars_encode_utf8("</thinking>\n\n"@);
    assert(text::bytes_of("</thinking>\n\n"@) =~= thinking::end_tag() + seq![0x0au8, 0x0au8]);
}

/// An opening tag is found behind text in which none begins, wherever that text ends, unless a
/// character next to the tag quotes it.
pub proof fn opening_tags_are_found(front: Seq<char>, tail: Seq<char>)
    requires
        begins_no_tag(front),
        ends_open(front),
        starts_open(tail),
    ensures
        thinking::start_tag_offset(front + "<thinking>"@ + tail) == Some(
            text::bytes_of(front).len() as int,
        ),
{
    lemma_literals();
    let all = front + "<thinking>"@ + tail;
    text::lemma_bytes_of_concat(front + "<thinking>"@, tail);
    text::lemma_bytes_of_concat(front, "<thinking>"@);
    let f = text::bytes_of(front);
    let t = text::bytes_of(tail);
    let b = text::bytes_of(all);
    let n = f.len() as int;
    let holds = |p: int|
        thinking::is_start_tag(text::bytes_of(all), p) && thinking::is_clear(false, p);
    assert(b =~= f + thinking::start_tag() + t);
    assert(b.subrange(n, n + 10) =~= thinking::start_tag());
    if n > 0 {
        assert(b[n - 1] == f[n - 1]);
    }
    if t.len() > 0 {
        assert(b[n + 10] == t[0]);
    }
    assert(holds(n));
    assert forall|q: int| 0 <= q < n implies !#[trigger] holds(q) by {
        if text::occurs_at(b, thinking::start_tag(), q) {
            assert(b.subrange(q, q + 10)[0] == b[q]);
            assert(b[q] == f[q]);
        }
    }
    thinking::lemma_first_offset(holds, n);
}

/// A closing tag is found behind text in which none begins, where an empty line follows it, unless
/// the text ends with a character that quotes it.
pub proof fn closing_tags_are_found(raw: Seq<char>, tail: Seq<char>)
    requires
        begins_no_tag(raw),
        ends_open(raw),
    ensures
        thinking::end_tag_offset(raw + "</thinking>\n\n"@ + tail) == Some(
            text::bytes_of(raw).len() as int,
        ),
{
    lemma_literals();
    let all = raw + "</thinking>\n\n"@ + tail;
    text::lemma_bytes_of_concat(raw + "</thinking>\n\n"@, tail);
    text::lemma_bytes_of_concat(raw, "</thinking>\n\n"@);
    let f = text::bytes_of(raw);
    let b = text::bytes_of(all);
    let n = f.len() as int;
    let holds = |p: int|
        thinking::is_end_tag(text::bytes_of(all), p) && thinking::is_clear(false, p);
    assert(b =~= f + thinking::end_tag() + seq![0x0au8, 0x0au8] + text::bytes_of(tail));
    assert(b.subrange(n, n + 11) =~= thinking::end_tag());
    if n > 0 {
        assert(b[n - 1] == f[n - 1]);
    }
    assert(b[n + 11] == 0x0a && b[n + 12] == 0x0a);
    assert(holds(n));
    assert forall|q: int| 0 <= q < n implies !#[trigger] holds(q) by {
        if text::occurs_at(b, thinking::end_tag(), q) {
            assert(b.subrange(q, q + 11)[0] == b[q]);
            assert(b[q] == f[q]);
        }
    }
    thinking::lemma_first_offset(holds, n);
}

/// A closing tag without an empty line behind it does not end thinking, unless nothing but white
/// space follows it.
pub proof fn closing_tags_need_an_empty_line(raw: Seq<char>, tail: Seq<char>)
    requires
        begins_no_tag(raw),
        begins_no_tag(tail),
        tail.len() > 0,
        text::bytes_of(tail)[0] != 10,
    ensures
        thinking::end_tag_offset(raw + "</thinking>"@ + tail) is None,
{
    lemma_literals();
    let all = raw + "</thinking>"@ + tail;
    text::lemma_bytes_of_concat(raw + "</thinking>"@, tail);
    text::lemma_bytes_of_concat(raw, "</thinking>"@);
    text::lemma_bytes_nonempty(tail);
    thinking::lemma_tags();
    let f = text::bytes_of(raw);
    let t = text::bytes_of(tail);
    let b = text::bytes_of(all);
    let n = f.len() as int;
    let holds = |p: int|
        thinking::is_end_tag(text::bytes_of(all), p) && thinking::is_clear(false, p);
    assert(b =~= f + thinking::end_tag() + t);
    assert forall|q: int| 0 <= q implies !#[trigger] holds(q) by {
        if text::occurs_at(b, thinking::end_tag(), q) {
            assert(b.subrange(q, q + 11)[0] == b[q]);
            if q < n {
                assert(b[q] == f[q]);
            } else if q == n {
                assert(b[q + 11] == t[0]);
            } else if q < n + 11 {
                assert(b[q] == thinking::end_tag()[q - n]);
            } else {
                assert(b[q] == t[q - n - 11]);
            }
        }
    }
    thinking::lemma_no_first_offset(holds);
}

/// A text in which no tag begins has no thinking and stays as it is.
pub proof fn texts_without_tags_stay(s: Seq<char>)
    requires
        begins_no_tag(s),
    ensures
        thinking::start_tag_offset(s) is None,
        thinking::extracted(s) == (None::<Seq<char>>, s),
        delivery::is_untagged(s),
{
    lemma_literals();
    let b = text::bytes_of(s);
    let holds = |p: int|
        thinking::is_start_tag(text::bytes_of(s), p) && thinking::is_clear(false, p);
    assert forall|q: int| #[trigger] text::occurs_at(b, thinking::start_tag(), q) implies false by {
        assert(b.subrange(q, q + 10)[0] == b[q]);
    }
    assert forall|q: int| 0 <= q implies !#[trigger] holds(q) by {}
    thinking::lemma_no_first_offset(holds);
}

/// A complete answer falls apart at its tags: what stands between them is its thinking, without a
/// newline at its front; what stands around them is its text, and in front of them white space does
/// not count.
pub proof fn answers_fall_apart_at_their_tags(
    before: Seq<char>,
    raw: Seq<char>,
    after: Seq<char>,
)
    requires
        begins_no_tag(before),
        ends_open(before),
        begins_no_tag(raw),
        starts_open(raw),
        ends_open(raw),
        raw.len() > 0,
        raw[0] != '\n',
    ensures
        thinking::extracted(
            before + "<thinking>"@ + (raw + "</thinking>\n\n"@ + after),
        ) == (
            Some(raw),
            if text::is_blank(before) {
                after
            } else {
                before + after
            },
        ),
        thinking::extracted(
            before + "<thinking>"@ + (seq!['\n'] + raw + "</thinking>\n\n"@ + after),
        ) == (
            Some(raw),
            if text::is_blank(before) {
                after
            } else {
                before + after
            },
        ),
{
    lemma_apart(before, raw, after, raw);
    let line = seq!['\n'] + raw;
    assert(text::bytes_of(seq!['\n']) =~= seq![10u8]) by {
        reveal_strlit("\n");
        is_ascii_chars_encode_utf8("\n"@);
        assert(seq!['\n'] =~= "\n"@);
    }
    text::lemma_bytes_of_concat(seq!['\n'], raw);
    text::lemma_bytes_nonempty(raw);
    let b = text::bytes_of(line);
    assert(b =~= seq![10u8] + text::bytes_of(raw));
    assert(begins_no_tag(line)) by {
        assert forall|i: int| 0 <= i < b.len() implies #[trigger] b[i] != 60 by {
            if i > 0 {
                assert(b[i] == text::bytes_of(raw)[i - 1]);
            }
        }
    }
    assert(b[b.len() - 1] == text::bytes_of(raw)[text::bytes_of(raw).len() - 1]);
    assert(line.subrange(1, line.len() as int) =~= raw);
    lemma_apart(before, line, after, raw);
}

proof fn lemma_apart(before: Seq<char>, raw: Seq<char>, after: Seq<char>, thought: Seq<char>)
    requires
        begins_no_tag(before),
        ends_open(before),
        begins_no_tag(raw),
        starts_open(raw),
        ends_open(raw),
        raw.len() > 0,
        thought == thinking::without_leading_newline(raw),
        thought.len() > 0,
    ensures
        thinking::extracted(
            before + "<thinking>"@ + (raw + "</thinking>\n\n"@ + after),
        ) == (
            Some(thought),
            if text::is_blank(before) {
                after
            } else {
                before + after
            },
        ),
{
    lemma_literals();
    let body = raw + "</thinking>\n\n"@ + after;
    let all = before + "<thinking>"@ + body;
    let p = text::bytes_of(before).len() as int;
    let e = text::bytes_of(raw).len() as int;
    text::lemma_bytes_of_concat(raw, "</thinking>\n\n"@ + after);
    text::lemma_bytes_nonempty(raw);
    assert(body =~= raw + ("</thinking>\n\n"@ + after));
    assert(text::bytes_of(body)[0] == text::bytes_of(raw)[0]);
    opening_tags_are_found(before, body);
    closing_tags_are_found(raw, after);
    assert(all =~= before + ("<thinking>"@ + body));
    text::lemma_split_concat(before, "<thinking>"@ + body);
    text::lemma_split_concat(before + "<thinking>"@, body);
    text::lemma_bytes_of_concat(before, "<thinking>"@);
    text::lemma_split_concat(raw, "</thinking>\n\n"@ + after);
    text::lemma_split_concat(raw + "</thinking>\n\n"@, after);
    text::lemma_bytes_of_concat(raw, "</thinking>\n\n"@);
    assert(text::text_before(all, p) == before);
    assert(text::text_from(all, p + 10) == body);
    assert(text::text_before(body, e) == raw);
    assert(text::text_from(body, e + 13) == after);
}

/// Thinking in which no tag begins is well tagged: it is sent as thinking, and what follows it as
/// text.
pub proof fn plain_thinking_is_well_tagged(blank: Seq<char>, raw: Seq<char>)
    requires
        text::is_blank(blank),
        raw.len() > 0,
        begins_no_tag(raw),
        starts_open(raw),
        ends_open(raw),
    ensures
        delivery::is_well_tagged(blank, raw),
{
    text::lemma_bytes_nonempty(raw);
    closing_tags_are_found(raw, Seq::empty());
    assert(raw + "</thinking>\n\n"@ + Seq::<char>::empty() =~= raw + "</thinking>\n\n"@);
}

/// One newline goes from the front of a text that starts with one, and nothing else.
pub proof fn one_newline_goes(s: Seq<char>)
    ensures
        thinking::without_leading_newline(seq!['\n'] + s) == s,
        s.len() > 0 && s[0] != '\n' ==> thinking::without_leading_newline(s) == s,
        s.len() == 0 ==> thinking::without_leading_newline(s) == s,
{
    let line = seq!['\n'] + s;
    assert(line.subrange(1, line.len() as int) =~= s);
}

/// The bytes of a text around the one tag in it.
proof fn lemma_one_tag(front: Seq<char>, tag: Seq<char>, tail: Seq<char>)
    requires
        begins_no_tag(front),
        begins_no_tag(tail),
        text::bytes_of(tag).len() > 0,
        text::bytes_of(tag)[0] == 60,
        forall|i: int| 0 < i < text::bytes_of(tag).len() ==> #[trigger] text::bytes_of(tag)[i] != 60,
    ensures
        ({
            let b = text::bytes_of(front + tag + tail);
            let f = text::bytes_of(front);
            let t = text::bytes_of(tag);
            &&& b == f + t + text::bytes_of(tail)
            &&& forall|q: int| 0 <= q < b.len() && #[trigger] b[q] == 60 ==> q == f.len()
        }),
{
    text::lemma_bytes_of_concat(front + tag, tail);
    text::lemma_bytes_of_concat(front, tag);
    let b = text::bytes_of(front + tag + tail);
    let f = text::bytes_of(front);
    let t = text::bytes_of(tag);
    let z = text::bytes_of(tail);
    assert forall|q: int| 0 <= q < b.len() && #[trigger] b[q] == 60 implies q == f.len() by {
        if q < f.len() {
            assert(b[q] == f[q]);
        } else if q < f.len() + t.len() {
            assert(b[q] == t[q - f.len()]);
        } else {
            assert(b[q] == z[q - f.len() - t.len()]);
        }
    }
}

proof fn lemma_tag_bytes()
    ensures
        forall|i: int| 0 < i < 10 ==> #[trigger] thinking::start_tag()[i] != 60,
        forall|i: int| 0 < i < 11 ==> #[trigger] thinking::end_tag()[i] != 60,
{
    thinking::lemma_tags();
}

/// A tag that a character next to it quotes is no tag: one that text in front of it quotes, and an
/// opening one that text behind it quotes.
pub proof fn quoted_tags_are_text(front: Seq<char>, tail: Seq<char>)
    requires
        begins_no_tag(front),
        begins_no_tag(tail),
    ensures
        !ends_open(front) || !starts_open(tail) ==> thinking::start_tag_offset(
            front + "<thinking>"@ + tail,
        ) is None,
        !ends_open(front) ==> thinking::end_tag_offset(front + "</thinking>"@ + tail) is None,
        !ends_open(front) ==> thinking::trailing_end_tag_offset(
            front + "</thinking>"@ + tail,
        ) is None,
{
    lemma_literals();
    lemma_tag_bytes();
    let f = text::bytes_of(front);
    let t = text::bytes_of(tail);
    let n = f.len() as int;
    if !ends_open(front) || !starts_open(tail) {
        let all = front + "<thinking>"@ + tail;
        lemma_one_tag(front, "<thinking>"@, tail);
        let b = text::bytes_of(all);
        let holds = |p: int|
            thinking::is_start_tag(text::bytes_of(all), p) && thinking::is_clear(false, p);
        assert forall|q: int| 0 <= q implies !#[trigger] holds(q) by {
            if text::occurs_at(b, thinking::start_tag(), q) {
                assert(b.subrange(q, q + 10)[0] == b[q]);
                assert(q == n);
                if n > 0 {
                    assert(b[n - 1] == f[n - 1]);
                }
                if t.len() > 0 {
                    assert(b[n + 10] == t[0]);
                }
            }
        }
        thinking::lemma_no_first_offset(holds);
    }
    if !ends_open(front) {
        let all = front + "</thinking>"@ + tail;
        lemma_one_tag(front, "</thinking>"@, tail);
        let b = text::bytes_of(all);
        let closes = |p: int|
            thinking::is_end_tag(text::bytes_of(all), p) && thinking::is_clear(false, p);
        let ends = |p: int|
            thinking::is_trailing_end_tag(text::bytes_of(all), p) && thinking::is_clear(false, p);
        assert forall|q: int| 0 <= q && text::occurs_at(b, thinking::end_tag(), q) implies
            #[trigger] thinking::is_quoted(b, q, 11) by {
            assert(b.subrange(q, q + 11)[0] == b[q]);
            assert(q == n);
            assert(b[n - 1] == f[n - 1]);
        }
        assert forall|q: int| 0 <= q implies !#[trigger] closes(q) by {
            assert(text::occurs_at(b, thinking::end_tag(), q) ==> thinking::is_quoted(b, q, 11));
        }
        assert forall|q: int| 0 <= q implies !#[trigger] ends(q) by {
            assert(text::occurs_at(b, thinking::end_tag(), q) ==> thinking::is_quoted(b, q, 11));
        }
        thinking::lemma_no_first_offset(closes);
        thinking::lemma_no_first_offset(ends);
    }
}

/// A closing tag at the end of a text is found where nothing but white space follows it, and is
/// none where more follows.
pub proof fn closing_tags_at_the_end_are_found(raw: Seq<char>, tail: Seq<char>)
    requires
        begins_no_tag(raw),
        begins_no_tag(tail),
        ends_open(raw),
        starts_open(tail),
    ensures
        text::is_blank(tail) ==> thinking::trailing_end_tag_offset(raw + "</thinking>"@ + tail)
            == Some(text::bytes_of(raw).len() as int),
        !text::is_blank(tail) ==> thinking::trailing_end_tag_offset(
            raw + "</thinking>"@ + tail,
        ) is None,
{
    lemma_literals();
    lemma_tag_bytes();
    let all = raw + "</thinking>"@ + tail;
    lemma_one_tag(raw, "</thinking>"@, tail);
    text::lemma_bytes_of_concat(raw, "</thinking>"@);
    text::lemma_split_concat(raw + "</thinking>"@, tail);
    let b = text::bytes_of(all);
    let f = text::bytes_of(raw);
    let t = text::bytes_of(tail);
    let n = f.len() as int;
    let ends = |p: int|
        thinking::is_trailing_end_tag(text::bytes_of(all), p) && thinking::is_clear(false, p);
    assert(b.subrange(n, n + 11) =~= thinking::end_tag());
    assert(text::text_from(all, n + 11) == tail);
    if n > 0 {
        assert(b[n - 1] == f[n - 1]);
    }
    if t.len() > 0 {
        assert(b[n + 11] == t[0]);
    }
    assert forall|q: int| 0 <= q && q != n implies !#[trigger] ends(q) by {
        if text::occurs_at(b, thinking::end_tag(), q) {
            assert(b.subrange(q, q + 11)[0] == b[q]);
        }
    }
    if text::is_blank(tail) {
        assert(ends(n));
        thinking::lemma_first_offset(ends, n);
    } else {
        assert(!ends(n));
        thinking::lemma_no_first_offset(ends);
    }
}

/// What a closing tag may begin with at the end of a text is found, however much of the tag is
/// there; and nothing is found where no tag begins.
pub proof fn begun_closing_tags_are_found(raw: Seq<char>, k: int)
    requires
        begins_no_tag(raw),
        0 <= k <= 10,
    ensures
        thinking::begun_tag_offset(raw + "</thinking>"@.take(k)) == text::bytes_of(raw).len(),
{
    lemma_literals();
    lemma_tag_bytes();
    thinking::lemma_tags();
    reveal_strlit("</thinking>");
    let part = "</thinking>"@.take(k);
    let all = raw + part;
    is_ascii_chars_encode_utf8("</thinking>"@);
    is_ascii_chars_encode_utf8(part);
    text::lemma_bytes_of_concat(raw, part);
    let b = text::bytes_of(all);
    let f = text::bytes_of(raw);
    let n = f.len() as int;
    assert(text::bytes_of(part) =~= thinking::end_tag().take(k));
    let holds = |p: int| thinking::is_begun_tag(text::bytes_of(all), p);
    assert forall|j: int| n <= j < b.len() implies #[trigger] b[j] == thinking::end_tag()[j - n] by {
        assert(b[j] == text::bytes_of(part)[j - n]);
    }
    assert(holds(n));
    assert forall|q: int| 0 <= q < n implies !#[trigger] holds(q) by {
        if thinking::is_begun_tag(b, q) {
            assert(b[q] == thinking::end_tag()[q - q]);
            assert(b[q] == f[q]);
        }
    }
    thinking::lemma_first_offset(holds, n);
}

} // verus!
