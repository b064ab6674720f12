//! Nothing of an answer gets lost: what each step sends and holds back of the text that came.

use vstd::prelude::*;
use vstd::utf8::*;

use crate::anthropic::delivery;
use crate::anthropic::protocol;
use crate::anthropic::sse::{BlockHeaderView, EventView};
use crate::anthropic::state_manager::SseView;
use crate::anthropic::stream_model;
use crate::anthropic::stream_model::StreamView;
use crate::anthropic::tags;
use crate::anthropic::thinking;
use crate::text;

verus! {

/// Without thinking, all text is sent as it comes.
pub proof fn text_is_sent_as_it_comes(st: StreamView, content: Seq<char>)
    requires
        protocol::sse_inv(st.sse),
        content.len() > 0,
        !st.thinking_enabled || st.native_reasoning_seen,
    ensures
        ({
            let e = stream_model::assistant_response(st, content).1;
            delivery::sent_text(e) == content && delivery::sent_thinking(e).len() == 0
        }),
{
    let s0 = StreamView {
        output_tokens: st.output_tokens + stream_model::estimated_tokens(content),
        ..st
    };
    delivery::lemma_close_reasoning_carries(s0);
    let (s1, e1) = stream_model::close_reasoning(s0);
    delivery::lemma_text_delta_carries(s1, content);
    let e2 = stream_model::text_delta(s1, content).1;
    delivery::lemma_sent_concat(e1, e2);
    assert(delivery::sent_text(e1 + e2) =~= content);
}

/// Text in which no thinking begins is sent but for an end that may still become a tag, which is
/// held back.
pub proof fn text_is_sent_or_held_back(st: StreamView)
    requires
        protocol::sse_inv(st.sse),
        thinking::start_tag_after(st.after_quote, st.buffer) is None,
    ensures
        ({
            let (r, e) = stream_model::scan_text(st);
            &&& delivery::sent_text(e) + r.buffer == st.buffer
            &&& delivery::sent_thinking(e).len() == 0
            &&& is_ascii_chars(st.buffer) && st.buffer.len() > 10 && !text::is_blank(
                st.buffer.take(st.buffer.len() - 10),
            ) ==> r.buffer.len() == 10
        }),
{
    reveal(stream_model::scan_text);
    let b = text::bytes_of(st.buffer);
    let len = b.len() as int;
    let target = if len > 10 {
        len - 10
    } else {
        0
    };
    let n = stream_model::safe_length(st.buffer, 10);
    thinking::lemma_boundary_at_or_before(st.buffer, target);
    text::lemma_split(st.buffer, n);
    let safe = text::text_before(st.buffer, n);
    delivery::lemma_text_delta_carries(st, safe);
    let (r, e) = stream_model::scan_text(st);
    if is_ascii_chars(st.buffer) {
        is_ascii_chars_encode_utf8(st.buffer);
        lemma_ascii_boundary(st.buffer, target);
    }
    if n > 0 && !text::is_blank(safe) {
        assert(delivery::sent_text(e) + r.buffer =~= st.buffer);
    } else {
        assert(delivery::sent_text(e) =~= Seq::<char>::empty());
        assert(delivery::sent_text(e) + r.buffer =~= st.buffer);
    }
}

/// In a text of ASCII characters every offset is a character boundary.
proof fn lemma_ascii_boundary(s: Seq<char>, target: int)
    requires
        is_ascii_chars(s),
        0 <= target <= s.len(),
    ensures
        text::bytes_of(s).len() == s.len(),
        thinking::boundary_at_or_before(text::bytes_of(s), target) == target,
        text::text_before(s, target) == s.take(target),
        text::text_from(s, target) == s.skip(target),
{
    is_ascii_chars_encode_utf8(s);
    let b = text::bytes_of(s);
    if 0 < target < b.len() {
        assert(b[target] < 0x80);
        text::lemma_ascii_boundaries(s, target);
    }
    let front = s.take(target);
    assert(is_ascii_chars(front));
    is_ascii_chars_encode_utf8(front);
    assert(s =~= front + s.skip(target));
    text::lemma_split_concat(front, s.skip(target));
}

/// Text in front of thinking is sent as text, unless it is white space.
pub proof fn text_before_thinking_is_sent(st: StreamView, front: Seq<char>, tail: Seq<char>)
    requires
        protocol::sse_inv(st.sse),
        !st.after_quote,
        st.buffer == front + "<thinking>"@ + tail,
        tags::begins_no_tag(front),
        tags::ends_open(front),
        tags::starts_open(tail),
    ensures
        ({
            let (r, e) = stream_model::scan_text(st);
            let written = delivery::sent_text(e);
            &&& !text::is_blank(front) ==> written.len() >= front.len() && written.take(
                front.len() as int,
            ) == front
            &&& r.in_thinking_block || r.thinking_extracted
        }),
{
    reveal(stream_model::scan_text);
    tags::opening_tags_are_found(front, tail);
    assert(st.buffer =~= front + ("<thinking>"@ + tail));
    text::lemma_split_concat(front, "<thinking>"@ + tail);
    let start = text::bytes_of(front).len() as int;
    assert(thinking::start_tag_after(st.after_quote, st.buffer) == Some(start));
    delivery::lemma_text_delta_carries(st, front);
    let (s1, e1) = if text::is_blank(front) {
        (st, Seq::empty())
    } else {
        stream_model::text_delta(st, front)
    };
    let index = s1.sse.next_block_index;
    delivery::lemma_new_block(s1.sse, "thinking"@, BlockHeaderView::Thinking);
    let (sse, e2) = stream_model::open_block(s1.sse, "thinking"@, BlockHeaderView::Thinking);
    let s2 = StreamView {
        sse,
        in_thinking_block: true,
        strip_newline: true,
        buffer: text::text_from(st.buffer, start + 10),
        after_quote: false,
        thinking_block_index: Some(index),
        ..s1
    };
    let (s3, e3) = stream_model::scan_thinking(s2);
    lemma_scan_thinking_goes_on(s2);
    delivery::lemma_sent_concat(e1, e2);
    delivery::lemma_sent_concat(e1 + e2, e3);
    if !text::is_blank(front) {
        let written = delivery::sent_text(e1 + e2 + e3);
        assert(delivery::sent_text(e1 + e2) =~= front);
        assert(written.take(front.len() as int) =~= front);
    }
}

proof fn lemma_scan_thinking_goes_on(st0: StreamView)
    requires
        st0.in_thinking_block,
    ensures
        ({
            let r = stream_model::scan_thinking(st0).0;
            r.in_thinking_block || r.thinking_extracted
        }),
{
    reveal(stream_model::scan_thinking);
    let st = stream_model::stripped(st0);
    if let Some(end) = thinking::end_tag_after(st.after_quote, st.buffer) {
        let before = text::text_before(st.buffer, end);
        stream_model::lemma_tagged_delta_frame(st, before);
        let s1 = stream_model::tagged_delta(st, before).0;
        let s2 = StreamView { in_thinking_block: false, thinking_extracted: true, ..s1 };
        stream_model::lemma_close_tagged_frame(s2);
        let s3 = stream_model::close_tagged(s2).0;
        let rest = text::text_from(st.buffer, end + 13);
        stream_model::lemma_text_delta_frame(
            StreamView { buffer: Seq::empty(), after_quote: false, ..s3 },
            rest,
        );
    } else {
        let n = stream_model::safe_length(st.buffer, 13);
        stream_model::lemma_tagged_delta_frame(st, text::text_before(st.buffer, n));
    }
}

/// The buffer as thinking sees it: without a newline at the front of the thinking.
pub open spec fn thinking_in(st: StreamView) -> Seq<char> {
    if st.strip_newline && st.buffer.len() > 0 && st.buffer[0] == '\n' {
        st.buffer.skip(1)
    } else {
        st.buffer
    }
}

proof fn lemma_stripped(st: StreamView)
    ensures
        stream_model::stripped(st).buffer == thinking_in(st),
        stream_model::stripped(st).sse == st.sse,
        stream_model::stripped(st).after_quote == st.after_quote,
{
    assert(st.buffer.len() > 0 ==> st.buffer.subrange(1, st.buffer.len() as int)
        =~= st.buffer.skip(1));
}

/// Thinking that does not end yet is sent but for an end that may still become a tag, which is held
/// back.
pub proof fn thinking_is_sent_or_held_back(st: StreamView)
    requires
        protocol::sse_inv(st.sse),
        thinking::end_tag_after(st.after_quote, thinking_in(st)) is None,
    ensures
        ({
            let (r, e) = stream_model::scan_thinking(st);
            &&& delivery::sent_thinking(e) + r.buffer == thinking_in(st)
            &&& delivery::sent_text(e).len() == 0
            &&& is_ascii_chars(st.buffer) ==> r.buffer.len() <= 13
        }),
{
    reveal(stream_model::scan_thinking);
    lemma_stripped(st);
    let s = stream_model::stripped(st);
    let b = text::bytes_of(s.buffer);
    let len = b.len() as int;
    let target = if len > 13 {
        len - 13
    } else {
        0
    };
    let n = stream_model::safe_length(s.buffer, 13);
    thinking::lemma_boundary_at_or_before(s.buffer, target);
    if is_ascii_chars(st.buffer) {
        assert(is_ascii_chars(s.buffer));
        is_ascii_chars_encode_utf8(s.buffer);
        lemma_ascii_boundary(s.buffer, target);
    }
    text::lemma_split(s.buffer, n);
    let safe = text::text_before(s.buffer, n);
    delivery::lemma_tagged_delta_carries(s, safe);
    stream_model::lemma_tagged_delta_frame(s, safe);
    let (r, e) = stream_model::scan_thinking(st);
    if n > 0 {
        assert(delivery::sent_thinking(e) + r.buffer =~= thinking_in(st));
    } else {
        assert(delivery::sent_thinking(e) + r.buffer =~= thinking_in(st));
    }
}

/// Thinking that ends is sent up to its closing tag, what follows the empty line behind the tag is
/// sent as text, and nothing is held back.
pub proof fn thinking_ends_at_its_tag(st: StreamView, raw: Seq<char>, tail: Seq<char>)
    requires
        protocol::sse_inv(st.sse),
        !st.after_quote,
        thinking_in(st) == raw + "</thinking>\n\n"@ + tail,
        tags::begins_no_tag(raw),
        tags::ends_open(raw),
    ensures
        ({
            let (r, e) = stream_model::scan_thinking(st);
            &&& delivery::sent_thinking(e) == raw
            &&& delivery::sent_text(e) == tail
            &&& r.buffer.len() == 0
            &&& !r.in_thinking_block && r.thinking_extracted
        }),
{
    reveal(stream_model::scan_thinking);
    lemma_stripped(st);
    let s = stream_model::stripped(st);
    tags::closing_tags_are_found(raw, tail);
    let end = text::bytes_of(raw).len() as int;
    assert(thinking::end_tag_after(s.after_quote, s.buffer) == Some(end));
    assert(s.buffer =~= raw + ("</thinking>\n\n"@ + tail));
    text::lemma_split_concat(raw, "</thinking>\n\n"@ + tail);
    text::lemma_split_concat(raw + "</thinking>\n\n"@, tail);
    text::lemma_bytes_of_concat(raw, "</thinking>\n\n"@);
    tags::lemma_literals();
    delivery::lemma_tagged_delta_carries(s, raw);
    stream_model::lemma_tagged_delta_frame(s, raw);
    let (s1, e1) = stream_model::tagged_delta(s, raw);
    let s2 = StreamView { in_thinking_block: false, thinking_extracted: true, ..s1 };
    delivery::lemma_close_tagged_carries(s2);
    let (s3, e3) = stream_model::close_tagged(s2);
    let s4 = StreamView { buffer: tail, ..s3 };
    lemma_flush(s4);
    let e5 = stream_model::flush_as_text(s4).1;
    delivery::lemma_sent_concat(e1, e3);
    delivery::lemma_sent_concat(e1 + e3, e5);
    let e = e1 + e3 + e5;
    assert(delivery::sent_thinking(e) =~= raw);
    assert(delivery::sent_text(e) =~= tail);
}

proof fn lemma_flush(st: StreamView)
    requires
        protocol::sse_inv(st.sse),
    ensures
        ({
            let (r, e) = stream_model::flush_as_text(st);
            &&& delivery::carry(e, st.buffer, Seq::empty())
            &&& r.buffer.len() == 0
            &&& r.in_thinking_block == st.in_thinking_block
            &&& r.thinking_extracted == st.thinking_extracted
        }),
{
    if st.buffer.len() > 0 {
        delivery::lemma_text_delta_carries(
            StreamView { buffer: Seq::empty(), after_quote: false, ..st },
            st.buffer,
        );
    } else {
        assert(st.buffer =~= Seq::<char>::empty());
    }
}

/// What is held back at the end of an answer goes out: as text outside of thinking, and as thinking
/// within, without a closing tag that ends it.
pub proof fn what_is_held_back_goes_out(st: StreamView)
    requires
        protocol::sse_inv(st.sse),
        st.thinking_enabled,
    ensures
        ({
            let (r, e) = stream_model::flush_at_end(st);
            &&& r.buffer.len() == 0
            &&& !r.in_thinking_block
            &&& !st.in_thinking_block ==> delivery::carry(e, st.buffer, Seq::empty())
            &&& st.in_thinking_block && thinking::trailing_end_tag_after(
                st.after_quote,
                st.buffer,
            ) is None ==> delivery::carry(e, Seq::empty(), st.buffer)
            &&& st.in_thinking_block ==> (thinking::trailing_end_tag_after(
                st.after_quote,
                st.buffer,
            ) matches Some(end) ==> delivery::carry(
                e,
                Seq::empty(),
                text::text_before(st.buffer, end),
            ))
        }),
{
    reveal(stream_model::flush_at_end);
    reveal(stream_model::end_thinking);
    if st.in_thinking_block {
        let content = match thinking::trailing_end_tag_after(st.after_quote, st.buffer) {
            Some(end) => text::text_before(st.buffer, end),
            None => st.buffer,
        };
        delivery::lemma_tagged_delta_carries(st, content);
        let (s1, e1) = stream_model::tagged_delta(st, content);
        let s2 = StreamView { in_thinking_block: false, thinking_extracted: true, ..s1 };
        delivery::lemma_close_tagged_carries(s2);
        let e3 = stream_model::close_tagged(s2).1;
        delivery::lemma_sent_concat(e1, e3);
        assert(delivery::sent_thinking(e1 + e3) =~= content);
        assert(delivery::sent_text(e1 + e3) =~= Seq::<char>::empty());
    } else if st.buffer.len() > 0 {
        delivery::lemma_text_delta_carries(st, st.buffer);
    } else {
        assert(st.buffer =~= Seq::<char>::empty());
    }
}

/// Text that is held back goes out in front of a tool call.
pub proof fn held_back_text_comes_before_a_call(st: StreamView)
    requires
        protocol::sse_inv(st.sse),
        st.thinking_enabled,
        !st.in_thinking_block,
        !st.thinking_extracted,
    ensures
        ({
            let (r, e) = stream_model::before_tool(st);
            &&& delivery::carry(e, st.buffer, Seq::empty())
            &&& r.buffer.len() == 0
        }),
{
    delivery::lemma_close_reasoning_carries(st);
    let (s1, e1) = stream_model::close_reasoning(st);
    let s2 = StreamView { sse: SseView { has_tool_use: true, ..s1.sse }, ..s1 };
    lemma_flush(s2);
    let e4 = stream_model::flush_as_text(s2).1;
    let none = Seq::<EventView>::empty();
    delivery::lemma_sent_concat(e1, none);
    delivery::lemma_sent_concat(e1 + none, e4);
    assert(delivery::sent_text(e1 + none + e4) =~= st.buffer);
    assert(delivery::sent_thinking(e1 + none + e4) =~= Seq::<char>::empty());
}

/// Thinking that a tool call interrupts is sent in front of the call but for what may be the
/// beginning of its closing tag, and goes on behind the call.
pub proof fn interrupted_thinking_is_sent_or_held_back(st: StreamView)
    requires
        protocol::sse_inv(st.sse),
        st.thinking_enabled,
        st.in_thinking_block,
        !st.reasoning_block_active,
        thinking::trailing_end_tag_after(st.after_quote, st.buffer) is None,
    ensures
        ({
            let (r, e) = stream_model::before_tool(st);
            &&& delivery::sent_thinking(e) + r.buffer == thinking_in(st)
            &&& delivery::sent_text(e).len() == 0
            &&& text::bytes_of(r.buffer).len() <= 10
            &&& r.in_thinking_block
            &&& r.thinking_block_index is None
        }),
{
    reveal(stream_model::pause_thinking);
    delivery::lemma_close_reasoning_carries(st);
    let (s1, e1) = stream_model::close_reasoning(st);
    let s2 = StreamView { sse: SseView { has_tool_use: true, ..s1.sse }, ..s1 };
    lemma_stripped(s2);
    let s = stream_model::stripped(s2);
    let at = thinking::begun_tag_offset(s.buffer);
    thinking::lemma_begun_tag(s.buffer);
    text::lemma_split(s.buffer, at);
    let holds = |p: int| thinking::is_begun_tag(text::bytes_of(s.buffer), p);
    assert(holds(at));
    let content = text::text_before(s.buffer, at);
    delivery::lemma_tagged_delta_carries(s, content);
    stream_model::lemma_tagged_delta_frame(s, content);
    let (t1, f1) = stream_model::tagged_delta(s, content);
    delivery::lemma_close_tagged_carries(t1);
    let f2 = stream_model::close_tagged(t1).1;
    delivery::lemma_sent_concat(f1, f2);
    let none = Seq::<EventView>::empty();
    delivery::lemma_sent_concat(e1, f1 + f2);
    delivery::lemma_sent_concat(e1 + (f1 + f2), none);
    let e = e1 + (f1 + f2) + none;
    let r = stream_model::before_tool(st).0;
    assert(delivery::sent_thinking(e) =~= content);
    assert(delivery::sent_text(e) =~= Seq::<char>::empty());
    assert(delivery::sent_thinking(e) + r.buffer =~= thinking_in(st));
}

/// Native reasoning that is taken is sent as thinking, all of it and nothing else.
pub proof fn reasoning_is_sent_as_it_comes(
    st: StreamView,
    s: Seq<char>,
    signature: Option<Seq<char>>,
)
    requires
        protocol::sse_inv(st.sse),
        s.len() > 0,
        st.thinking_enabled,
        st.text_block_index is None || st.reasoning_block_active,
        st.reasoning_block_active ==> st.thinking_block_index is Some,
    ensures
        ({
            let (r, e) = stream_model::reasoning_content(st, s, signature);
            &&& delivery::carry(e, Seq::empty(), s)
            &&& r.native_reasoning_seen
            &&& r.reasoning_block_active
        }),
{
    reveal(stream_model::turn_to_native);
    reveal(stream_model::open_reasoning);
    let s0 = StreamView {
        reasoning_signature: stream_model::kept_signature(st, signature),
        ..st
    };
    let s1 = StreamView {
        output_tokens: s0.output_tokens + stream_model::estimated_tokens(s),
        ..s0
    };
    let ended = StreamView {
        in_thinking_block: false,
        thinking_extracted: false,
        reasoning_signature: None,
        ..s1
    };
    delivery::lemma_close_tagged_carries(ended);
    let (s2, e2) = stream_model::turn_to_native(s1);
    delivery::lemma_new_block(s2.sse, "thinking"@, BlockHeaderView::Thinking);
    let (s3, e3) = stream_model::open_reasoning(s2);
    let (s4, e4) = stream_model::thinking_delta(s3, s);
    let i = s3.thinking_block_index->0;
    delivery::lemma_sent_one(stream_model::thinking_event(i, s));
    assert(e4 =~= seq![stream_model::thinking_event(i, s)]);
    delivery::lemma_sent_concat(e2, e3);
    delivery::lemma_sent_concat(e2 + e3, e4);
    assert(delivery::sent_thinking(e2 + e3 + e4) =~= s);
    assert(delivery::sent_text(e2 + e3 + e4) =~= Seq::<char>::empty());
}

} // verus!
