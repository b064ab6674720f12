//! What reaches the client: the text and the thinking of an answer, however the service cuts the
//! answer into pieces.

use vstd::prelude::*;
use vstd::utf8::*;

use crate::anthropic::protocol;
use crate::anthropic::protocol::Protocol;
use crate::anthropic::sse::{BlockHeaderView, DataView, DeltaView, EventView};
use crate::anthropic::state_manager;
use crate::anthropic::state_manager::{BlockView, SseView};
use crate::anthropic::stream;
use crate::anthropic::stream_model;
use crate::anthropic::stream_model::{BufferedView, StreamView};
use crate::anthropic::thinking;
use crate::kiro::model::events::Event;
use crate::text;

verus! {

/// The text of one event.
pub open spec fn event_text(e: EventView) -> Seq<char> {
    match e.data {
        DataView::BlockDelta { delta: DeltaView::Text(s), .. } => s,
        _ => Seq::empty(),
    }
}

/// The thinking of one event.
pub open spec fn event_thinking(e: EventView) -> Seq<char> {
    match e.data {
        DataView::BlockDelta { delta: DeltaView::Thinking(s), .. } => s,
        _ => Seq::empty(),
    }
}

/// The text that the client gets.
pub open spec fn sent_text(events: Seq<EventView>) -> Seq<char>
    decreases events.len(),
{
    if events.len() == 0 {
        Seq::empty()
    } else {
        sent_text(events.drop_last()) + event_text(events.last())
    }
}

/// The thinking that the client gets.
pub open spec fn sent_thinking(events: Seq<EventView>) -> Seq<char>
    decreases events.len(),
{
    if events.len() == 0 {
        Seq::empty()
    } else {
        sent_thinking(events.drop_last()) + event_thinking(events.last())
    }
}

/// The events carry this text and this thinking.
pub open spec fn carry(events: Seq<EventView>, written: Seq<char>, thought: Seq<char>) -> bool {
    sent_text(events) == written && sent_thinking(events) == thought
}

/// What two lists of events carry together.
pub proof fn lemma_sent_concat(a: Seq<EventView>, b: Seq<EventView>)
    ensures
        sent_text(a + b) == sent_text(a) + sent_text(b),
        sent_thinking(a + b) == sent_thinking(a) + sent_thinking(b),
    decreases b.len(),
{
    if b.len() == 0 {
        assert(a + b =~= a);
        assert(sent_text(a) + sent_text(b) =~= sent_text(a));
        assert(sent_thinking(a) + sent_thinking(b) =~= sent_thinking(a));
    } else {
        lemma_sent_concat(a, b.drop_last());
        assert((a + b).drop_last() =~= a + b.drop_last());
        assert((a + b).last() == b.last());
        assert(sent_text(a + b) =~= sent_text(a) + sent_text(b));
        assert(sent_thinking(a + b) =~= sent_thinking(a) + sent_thinking(b));
    }
}

/// What one event carries.
pub proof fn lemma_sent_one(e: EventView)
    ensures
        carry(seq![e], event_text(e), event_thinking(e)),
        carry(Seq::empty(), Seq::empty(), Seq::empty()),
{
    reveal_with_fuel(sent_text, 2);
    reveal_with_fuel(sent_thinking, 2);
    assert(seq![e].drop_last() =~= Seq::<EventView>::empty());
    assert(sent_text(seq![e]) =~= event_text(e));
    assert(sent_thinking(seq![e]) =~= event_thinking(e));
}

/// Stops and signatures carry neither text nor thinking.
proof fn lemma_closing_carries_nothing(blocks: Seq<BlockView>, only_text: bool, sign: bool)
    ensures
        carry(
            state_manager::closing_events(blocks, only_text, sign),
            Seq::empty(),
            Seq::empty(),
        ),
    decreases blocks.len(),
{
    if blocks.len() > 0 {
        let front = state_manager::closing_events(blocks.drop_last(), only_text, sign);
        let last = state_manager::closing_events_of(blocks.last(), only_text, sign);
        lemma_closing_carries_nothing(blocks.drop_last(), only_text, sign);
        lemma_sent_concat(front, last);
        let index = blocks.last().index;
        let signature = state_manager::signature_event(index, ""@);
        let stop = state_manager::block_stop_event(index);
        lemma_sent_one(signature);
        lemma_sent_one(stop);
        lemma_sent_concat(seq![signature], seq![stop]);
        assert(seq![signature] + seq![stop] =~= seq![signature, stop]);
        assert(sent_text(last) =~= Seq::empty());
        assert(sent_thinking(last) =~= Seq::empty());
    }
}

/// The index that a new block takes belongs to no block yet.
proof fn lemma_next_is_fresh(s: SseView)
    requires
        protocol::sse_inv(s),
    ensures
        state_manager::block_position(s.blocks, s.next_block_index) is None,
{
    assert forall|j: int| 0 <= j < s.blocks.len() implies (#[trigger] s.blocks[j]).index
        != s.next_block_index by {}
    state_manager::lemma_no_block_position(s.blocks, s.next_block_index);
}

/// A new block of text or thinking.
pub proof fn lemma_new_block(s: SseView, kind: Seq<char>, block: BlockHeaderView)
    requires
        protocol::sse_inv(s),
        kind == "text"@ || kind == "thinking"@,
    ensures
        ({
            let (t, e) = stream_model::open_block(s, kind, block);
            &&& protocol::sse_inv(t)
            &&& t.blocks == s.blocks.push(
                BlockView { index: s.next_block_index, kind, started: true, stopped: false },
            )
            &&& t == SseView {
                blocks: t.blocks,
                next_block_index: s.next_block_index + 1,
                ..s
            }
            &&& state_manager::block_is_open(t.blocks, s.next_block_index)
            &&& carry(e, Seq::empty(), Seq::empty())
        }),
{
    protocol::lemma_kinds_differ();
    lemma_next_is_fresh(s);
    let (t, e) = stream_model::open_block(s, kind, block);
    let event = state_manager::block_start_event(
        stream_model::start_data(s.next_block_index, block),
    );
    assert(e =~= seq![event]);
    lemma_sent_one(event);
    assert forall|i: int, j: int| 0 <= i < j < t.blocks.len() implies (#[trigger] t.blocks[i]).index
        != (#[trigger] t.blocks[j]).index by {
        if j < s.blocks.len() {
            assert(s.blocks[i].index != s.blocks[j].index);
        } else {
            assert(s.blocks[i].index < s.next_block_index);
        }
    }
    assert forall|i: int| 0 <= i < t.blocks.len() implies (#[trigger] t.blocks[i]).started
        && t.blocks[i].index < t.next_block_index by {
        if i < s.blocks.len() {
            assert(s.blocks[i].started);
        }
    }
    let at = s.blocks.len() as int;
    assert forall|j: int| 0 <= j < at implies (#[trigger] t.blocks[j]).index
        != s.next_block_index by {
        assert(s.blocks[j].index < s.next_block_index);
    }
    state_manager::lemma_block_position(t.blocks, s.next_block_index, at);
}

/// Some block holds text.
pub open spec fn has_text_block(s: SseView) -> bool {
    exists|i: int| 0 <= i < s.blocks.len() && (#[trigger] s.blocks[i]).kind == "text"@
}

/// Some block belongs to a tool call.
pub open spec fn has_tool_block(s: SseView) -> bool {
    exists|i: int| 0 <= i < s.blocks.len() && (#[trigger] s.blocks[i]).kind == "tool_use"@
}

/// The blocks of `s` are those that `t` begins with, each with its kind.
pub open spec fn kinds_stay(s: SseView, t: SseView) -> bool {
    &&& s.blocks.len() <= t.blocks.len()
    &&& forall|i: int| 0 <= i < s.blocks.len() ==> (#[trigger] t.blocks[i]).kind == s.blocks[i].kind
}

/// A tool block stays one.
proof fn lemma_tool_block_stays(s: SseView, t: SseView)
    requires
        kinds_stay(s, t),
        has_tool_block(s),
    ensures
        has_tool_block(t),
{
    let i = choose|i: int| 0 <= i < s.blocks.len() && (#[trigger] s.blocks[i]).kind == "tool_use"@;
    assert(t.blocks[i].kind == s.blocks[i].kind);
}

/// Sent text is carried, and stands in a text block.
pub proof fn lemma_text_delta_carries(st: StreamView, s: Seq<char>)
    requires
        protocol::sse_inv(st.sse),
    ensures
        ({
            let (t, e) = stream_model::text_delta(st, s);
            &&& carry(e, s, Seq::empty())
            &&& protocol::sse_inv(t.sse)
            &&& t == StreamView { sse: t.sse, text_block_index: t.text_block_index, ..st }
            &&& has_text_block(t.sse)
            &&& kinds_stay(st.sse, t.sse)
        }),
{
    reveal(stream_model::text_delta);
    let (t, e) = stream_model::text_delta(st, s);
    let reuse = match st.text_block_index {
        Some(i) => state_manager::block_is_open_of_type(st.sse.blocks, i, "text"@),
        None => false,
    };
    let index = if reuse {
        st.text_block_index->0
    } else {
        st.sse.next_block_index
    };
    let delta = state_manager::block_delta_event(
        stream_model::delta_data(index, DeltaView::Text(s)),
    );
    lemma_sent_one(delta);
    let (sse, opened) = stream_model::open_block(st.sse, "text"@, BlockHeaderView::Text);
    lemma_new_block(st.sse, "text"@, BlockHeaderView::Text);
    if reuse {
        assert(e =~= seq![delta]);
        let at = state_manager::block_position(st.sse.blocks, index)->0;
        protocol::lemma_position_is(st.sse.blocks, index);
        assert(t.sse.blocks[at].kind == "text"@);
    } else {
        assert(e =~= opened + seq![delta]);
        lemma_sent_concat(opened, seq![delta]);
        assert(sent_text(e) =~= s);
        assert(sent_thinking(e) =~= Seq::empty());
        assert(t.sse.blocks[st.sse.blocks.len() as int].kind == "text"@);
    }
}

/// Stopping a block carries nothing and leaves the blocks sound, each with its kind.
pub proof fn lemma_close_tagged_carries(st: StreamView)
    requires
        protocol::sse_inv(st.sse),
    ensures
        ({
            let (t, e) = stream_model::close_tagged(st);
            &&& carry(e, Seq::empty(), Seq::empty())
            &&& protocol::sse_inv(t.sse)
            &&& t == StreamView { sse: t.sse, ..st }
            &&& same_kinds(st.sse, t.sse)
        }),
{
    reveal(stream_model::close_tagged);
    lemma_sent_one(state_manager::block_stop_event(0));
    if let Some(i) = st.thinking_block_index {
        lemma_stop_keeps_kinds(st.sse, i);
        let stop = stream_model::stop_block(st.sse, i).1;
        let sign = state_manager::block_delta_event(
            stream_model::delta_data(i, stream_model::tagged_signature(st)),
        );
        lemma_sent_one(sign);
        lemma_sent_concat(seq![sign], stop);
        let e = stream_model::close_tagged(st).1;
        assert(sent_text(e) =~= Seq::empty());
        assert(sent_thinking(e) =~= Seq::empty());
    }
}

/// Thinking between tags is carried; a new block for it holds thinking.
pub proof fn lemma_tagged_delta_carries(st: StreamView, s: Seq<char>)
    requires
        protocol::sse_inv(st.sse),
    ensures
        ({
            let (t, e) = stream_model::tagged_delta(st, s);
            &&& carry(e, Seq::empty(), s)
            &&& protocol::sse_inv(t.sse)
            &&& kinds_stay(st.sse, t.sse)
            &&& forall|i: int|
                st.sse.blocks.len() <= i < t.sse.blocks.len() ==> (#[trigger] t.sse.blocks[i]).kind
                    == "thinking"@
        }),
{
    reveal(stream_model::tagged_delta);
    let (t, e) = stream_model::tagged_delta(st, s);
    let index = if st.thinking_block_index is Some {
        st.thinking_block_index->0
    } else {
        st.sse.next_block_index
    };
    let delta = stream_model::thinking_event(index, s);
    lemma_sent_one(delta);
    if s.len() == 0 {
        assert(s =~= Seq::<char>::empty());
        lemma_silent(e);
    } else if st.thinking_block_index is Some {
        assert(e =~= seq![delta]);
    } else {
        lemma_new_block(st.sse, "thinking"@, BlockHeaderView::Thinking);
        let opened = stream_model::open_block(
            st.sse,
            "thinking"@,
            BlockHeaderView::Thinking,
        ).1;
        assert(e =~= opened + seq![delta]);
        lemma_sent_concat(opened, seq![delta]);
        assert(sent_text(e) =~= Seq::empty());
        assert(sent_thinking(e) =~= s);
    }
}

/// Ending reasoning carries nothing and leaves the blocks sound, each with its kind.
pub proof fn lemma_close_reasoning_carries(st: StreamView)
    requires
        protocol::sse_inv(st.sse),
    ensures
        ({
            let (t, e) = stream_model::close_reasoning(st);
            &&& carry(e, Seq::empty(), Seq::empty())
            &&& protocol::sse_inv(t.sse)
            &&& t == StreamView {
                sse: t.sse,
                reasoning_block_active: false,
                reasoning_signature: t.reasoning_signature,
                ..st
            }
            &&& same_kinds(st.sse, t.sse)
        }),
{
    lemma_sent_one(state_manager::block_stop_event(0));
    if st.reasoning_block_active {
        if let Some(i) = st.thinking_block_index {
            lemma_stop_keeps_kinds(st.sse, i);
            let stop = stream_model::stop_block(st.sse, i).1;
            let signature = match st.reasoning_signature {
                Some(s) => s,
                None => Seq::empty(),
            };
            let sign = state_manager::signature_event(i, signature);
            lemma_sent_one(sign);
            lemma_sent_concat(seq![sign], stop);
            let e = stream_model::close_reasoning(st).1;
            assert(sent_text(e) =~= Seq::empty());
            assert(sent_thinking(e) =~= Seq::empty());
        }
    }
}

/// Stopping a block carries nothing and leaves the blocks sound, each with its kind.
proof fn lemma_stop_keeps_kinds(s: SseView, i: int)
    requires
        protocol::sse_inv(s),
    ensures
        protocol::sse_inv(stream_model::stop_block(s, i).0),
        same_kinds(s, stream_model::stop_block(s, i).0),
        carry(stream_model::stop_block(s, i).1, Seq::empty(), Seq::empty()),
{
    let (t, stop) = stream_model::stop_block(s, i);
    lemma_sent_one(state_manager::block_stop_event(i));
    protocol::lemma_position_is(s.blocks, i);
    assert forall|j: int| 0 <= j < t.blocks.len() implies (#[trigger] t.blocks[j]).index
        == s.blocks[j].index && t.blocks[j].kind == s.blocks[j].kind && t.blocks[j].started by {
        assert(s.blocks[j].started);
    }
    assert forall|a: int, b: int| 0 <= a < b < t.blocks.len() implies (#[trigger] t.blocks[a]).index
        != (#[trigger] t.blocks[b]).index by {
        assert(s.blocks[a].index != s.blocks[b].index);
    }
    assert forall|j: int| 0 <= j < t.blocks.len() implies (#[trigger] t.blocks[j]).started
        && t.blocks[j].index < t.next_block_index by {
        assert(s.blocks[j].index < s.next_block_index);
    }
}

/// The blocks have the same kinds.
pub open spec fn same_kinds(s: SseView, t: SseView) -> bool {
    &&& s.blocks.len() == t.blocks.len()
    &&& forall|i: int|
        0 <= i < s.blocks.len() ==> (#[trigger] t.blocks[i]).kind == s.blocks[i].kind
}

/// The event carries text of the answer or counts, and nothing else.
pub open spec fn is_plain(event: Event) -> bool {
    event is AssistantResponse || event is ContextUsage || event is TokenUsage || event is Metering
        || event is Other
}

/// The events carry text of the answer and counts, and nothing else.
pub open spec fn are_plain(events: Seq<Event>) -> bool {
    forall|i: int| 0 <= i < events.len() ==> is_plain(#[trigger] events[i])
}

/// The text of one event of the service.
pub open spec fn piece(event: Event) -> Seq<char> {
    match event {
        Event::AssistantResponse { content } => content@,
        _ => Seq::empty(),
    }
}

/// The text that the service sent, its pieces put together.
pub open spec fn answer_text(events: Seq<Event>) -> Seq<char>
    decreases events.len(),
{
    if events.len() == 0 {
        Seq::empty()
    } else {
        answer_text(events.drop_last()) + piece(events.last())
    }
}

/// The answer has tool calls.
pub open spec fn has_calls(st: StreamView) -> bool {
    st.tools != Map::<Seq<char>, i32>::empty()
}

/// An answer without reasoning of its own and failures, of which `content` came.
pub open spec fn is_simple(st: StreamView, content: Seq<char>) -> bool {
    &&& protocol::sse_inv(st.sse)
    &&& !st.reasoning_block_active
    &&& !st.native_reasoning_seen
    &&& st.failure is None
    &&& !has_calls(st) ==> st.output_tokens >= 0
    &&& content.len() > 0 ==> stream_model::has_content(st)
}

/// An event that carries counts changes nothing that matters for text.
proof fn lemma_counts_keep_text(st: StreamView, event: Event, content: Seq<char>)
    requires
        is_plain(event),
        event !is AssistantResponse,
        is_simple(st, content),
    ensures
        ({
            let (t, e) = stream::event_step(st, event);
            &&& e == Seq::<EventView>::empty()
            &&& is_simple(t, content)
            &&& t.sse.blocks == st.sse.blocks
            &&& t == StreamView {
                sse: t.sse,
                context_input_tokens: t.context_input_tokens,
                cache_read_input_tokens: t.cache_read_input_tokens,
                cache_creation_input_tokens: t.cache_creation_input_tokens,
                metering_usage: t.metering_usage,
                ..st
            }
        }),
{
}

/// So far `content` came, nothing of it is thinking, and all of it was sent or is held back.
pub open spec fn all_text(st: StreamView, sent: Seq<EventView>, content: Seq<char>) -> bool {
    &&& is_simple(st, content)
    &&& !st.in_thinking_block
    &&& !st.thinking_extracted
    &&& st.thinking_block_index is None
    &&& !st.thinking_enabled ==> st.buffer.len() == 0
    &&& sent_text(sent) + st.buffer == content
    &&& st.thinking_enabled ==> st.after_quote == thinking::ends_in_quote(sent_text(sent))
    &&& sent_thinking(sent).len() == 0
}

/// The text holds the opening tag only behind a quote character, if at all.
pub open spec fn is_untagged(s: Seq<char>) -> bool {
    forall|p: int| #[trigger]
        text::occurs_at(text::bytes_of(s), thinking::start_tag(), p) ==> thinking::quote_at(
            text::bytes_of(s),
            p - 1,
        )
}

/// Where the whole holds no opening tag that is not quoted, no part of it does.
proof fn lemma_part_is_untagged(a: Seq<char>, b: Seq<char>, c: Seq<char>)
    requires
        is_untagged(a + b + c),
    ensures
        thinking::start_tag_after(thinking::ends_in_quote(a), b) is None,
{
    let whole = text::bytes_of(a + b + c);
    text::lemma_bytes_of_concat(a + b, c);
    text::lemma_bytes_of_concat(a, b);
    let n = text::bytes_of(a).len() as int;
    let part = text::bytes_of(b);
    let quoted = thinking::ends_in_quote(a);
    let holds = |p: int|
        thinking::is_start_tag(text::bytes_of(b), p) && thinking::is_clear(quoted, p);
    assert forall|q: int| 0 <= q implies !#[trigger] holds(q) by {
        if holds(q) {
            let tag = thinking::start_tag();
            assert(whole.subrange(n + q, n + q + tag.len()) =~= part.subrange(q, q + tag.len()));
            assert(text::occurs_at(whole, tag, n + q));
            if q == 0 {
                assert(whole[n - 1] == text::bytes_of(a)[n - 1]);
            } else {
                assert(whole[n + q - 1] == part[q - 1]);
            }
        }
    }
    thinking::lemma_no_first_offset(holds);
}

/// What a text ends in shows at the end of what it follows.
proof fn lemma_ends_in_quote(a: Seq<char>, b: Seq<char>)
    ensures
        b.len() > 0 ==> thinking::ends_in_quote(a + b) == thinking::ends_in_quote(b),
        b.len() == 0 ==> a + b == a,
        !thinking::ends_in_quote(Seq::empty()),
{
    text::lemma_bytes_of_concat(a, b);
    text::lemma_bytes_nonempty(b);
    text::lemma_bytes_nonempty(Seq::<char>::empty());
    if b.len() == 0 {
        assert(a + b =~= a);
    }
}

/// A piece of an answer without tags.
proof fn lemma_untagged_piece(
    st: StreamView,
    sent: Seq<EventView>,
    content: Seq<char>,
    more: Seq<char>,
    rest: Seq<char>,
)
    requires
        all_text(st, sent, content),
        st.thinking_enabled ==> is_untagged(content + more + rest),
    ensures
        ({
            let (t, e) = stream_model::assistant_response(st, more);
            all_text(t, sent + e, content + more) && t.thinking_enabled == st.thinking_enabled
        }),
{
    let (t, e) = stream_model::assistant_response(st, more);
    lemma_sent_concat(sent, e);
    lemma_sent_one(state_manager::block_stop_event(0));
    if more.len() == 0 {
        assert(content + more =~= content);
        assert(sent + e =~= sent);
    } else {
        let s1 = StreamView {
            output_tokens: st.output_tokens + stream_model::estimated_tokens(more),
            ..st
        };
        if st.thinking_enabled {
            let s = StreamView { buffer: st.buffer + more, ..s1 };
            assert(content + more + rest =~= sent_text(sent) + s.buffer + rest);
            lemma_part_is_untagged(sent_text(sent), s.buffer, rest);
            let n = stream_model::safe_length(s.buffer, 10);
            let len = text::bytes_of(s.buffer).len() as int;
            thinking::lemma_boundary_at_or_before(
                s.buffer,
                if len > 10 {
                    len - 10
                } else {
                    0
                },
            );
            text::lemma_split(s.buffer, n);
            reveal(stream_model::scan_text);
            let safe = text::text_before(s.buffer, n);
            lemma_text_delta_carries(s, safe);
            lemma_ends_in_quote(sent_text(sent), safe);
            assert(sent_text(sent) + s.buffer =~= content + more);
            let (u, d) = stream_model::scan_text(s);
            assert(e =~= d);
            assert(sent_text(sent + e) + t.buffer =~= content + more);
            assert(sent_thinking(sent + e) =~= Seq::empty());
        } else {
            lemma_text_delta_carries(s1, more);
            let (u, d) = stream_model::text_delta(s1, more);
            assert(e =~= d);
            assert(sent_text(sent + e) + t.buffer =~= content + more);
            assert(sent_thinking(sent + e) =~= Seq::empty());
        }
    }
}

/// A run of pieces of an answer without tags.
proof fn lemma_untagged_run(
    st: StreamView,
    sent: Seq<EventView>,
    events: Seq<Event>,
    rest: Seq<char>,
)
    requires
        all_text(st, sent, Seq::empty()),
        are_plain(events),
        st.thinking_enabled ==> is_untagged(answer_text(events) + rest),
    ensures
        ({
            let (t, e) = protocol::run(st, events);
            all_text(t, sent + e, answer_text(events)) && t.thinking_enabled == st.thinking_enabled
        }),
    decreases events.len(),
{
    if events.len() == 0 {
        assert(sent + Seq::<EventView>::empty() =~= sent);
    } else {
        let front = events.drop_last();
        let last = events.last();
        let content = answer_text(front);
        assert(is_plain(events[events.len() - 1]));
        assert(are_plain(front)) by {
            assert forall|i: int| 0 <= i < front.len() implies is_plain(#[trigger] front[i]) by {
                assert(front[i] == events[i]);
            }
        }
        assert(answer_text(events) + rest =~= content + (piece(last) + rest));
        lemma_untagged_run(st, sent, front, piece(last) + rest);
        let (s, e) = protocol::run(st, front);
        let (t, more) = stream::event_step(s, last);
        assert(sent + (e + more) =~= sent + e + more);
        if last is AssistantResponse {
            assert(answer_text(events) + rest =~= content + piece(last) + rest);
            lemma_untagged_piece(s, sent + e, content, piece(last), rest);
        } else {
            lemma_counts_keep_text(s, last, content);
            assert(answer_text(events) =~= content);
            assert(sent + e + more =~= sent + e);
        }
    }
}

/// The events that close an answer carry nothing.
proof fn lemma_finish_carries_nothing(st: StreamView, reported: int)
    ensures
        carry(stream_model::finish_message(st, reported).1, Seq::empty(), Seq::empty()),
{
    let stops = state_manager::closing_events(st.sse.blocks, false, false);
    lemma_closing_carries_nothing(st.sse.blocks, false, false);
    let e = stream_model::finish_message(st, reported).1;
    let tail = e.skip(stops.len() as int);
    assert(e =~= stops + tail);
    assert forall|i: int| 0 <= i < tail.len() implies event_text(#[trigger] tail[i]).len() == 0
        && event_thinking(tail[i]).len() == 0 by {
        assert(tail[i] == e[stops.len() + i]);
    }
    lemma_silent(tail);
    lemma_sent_concat(stops, tail);
    assert(sent_text(e) =~= Seq::empty());
    assert(sent_thinking(e) =~= Seq::empty());
}

/// Events of which none carries anything carry nothing together.
proof fn lemma_silent(events: Seq<EventView>)
    requires
        forall|i: int|
            0 <= i < events.len() ==> event_text(#[trigger] events[i]).len() == 0
                && event_thinking(events[i]).len() == 0,
    ensures
        carry(events, Seq::empty(), Seq::empty()),
    decreases events.len(),
{
    if events.len() > 0 {
        let front = events.drop_last();
        assert forall|i: int| 0 <= i < front.len() implies event_text(#[trigger] front[i]).len()
            == 0 && event_thinking(front[i]).len() == 0 by {
            assert(front[i] == events[i]);
        }
        lemma_silent(front);
        assert(event_text(events[events.len() - 1]).len() == 0);
        assert(sent_text(events) =~= Seq::empty());
        assert(sent_thinking(events) =~= Seq::empty());
    }
}

/// The end of an answer that failed carries nothing.
proof fn lemma_failed_end_carries_nothing(st: StreamView, failure: stream_model::FailureView)
    requires
        !st.reasoning_block_active,
    ensures
        carry(stream_model::failed_end(st, failure).1, Seq::empty(), Seq::empty()),
{
    let stops = state_manager::closing_events(st.sse.blocks, false, true);
    lemma_closing_carries_nothing(st.sse.blocks, false, true);
    let error = EventView {
        name: "error"@,
        data: DataView::Failure { message: failure.message() },
    };
    let e = stream_model::failed_end(st, failure).1;
    assert(e =~= stops + seq![error]);
    lemma_sent_one(error);
    lemma_sent_concat(stops, seq![error]);
    assert(sent_text(e) =~= Seq::empty());
    assert(sent_thinking(e) =~= Seq::empty());
}

/// At the end of an answer without thinking, what was held back follows.
proof fn lemma_untagged_end(
    st: StreamView,
    sent: Seq<EventView>,
    content: Seq<char>,
    reported: int,
)
    requires
        all_text(st, sent, content),
    ensures
        carry(sent + stream_model::final_events(st, reported).1, content, Seq::empty()),
{
    let e = stream_model::final_events(st, reported).1;
    lemma_sent_concat(sent, e);
    match stream_model::end_failure(st) {
        Some(f) => {
            let failed = StreamView { failure: Some(f), ..st };
            lemma_failed_end_carries_nothing(failed, f);
            assert(content.len() == 0);
            assert(sent_text(sent).len() == 0);
        },
        None => {
            reveal(stream_model::flush_at_end);
            lemma_text_delta_carries(st, st.buffer);
            let (s1, e1) = stream_model::complete_content(st);
            let (s2, e2) = stream_model::flush_at_end(st);
            assert(e1 =~= e2);
            lemma_finish_carries_nothing(s1, reported);
            let e3 = stream_model::finish_message(s1, reported).1;
            lemma_sent_concat(e1, e3);
            lemma_sent_one(state_manager::block_stop_event(0));
        },
    }
    assert(sent_text(sent + e) =~= content);
    assert(sent_thinking(sent + e) =~= Seq::empty());
}

/// The beginning of an answer carries nothing.
proof fn lemma_beginning(
    model: Seq<char>,
    input_tokens: int,
    thinking_enabled: bool,
    tool_names: Map<Seq<char>, String>,
    id: Seq<char>,
)
    ensures
        ({
            let st = stream_model::new_stream(
                model,
                input_tokens,
                thinking_enabled,
                tool_names,
                id,
            );
            let (t, e) = stream_model::initial_events(st);
            &&& all_text(t, e, Seq::empty())
            &&& carry(e, Seq::empty(), Seq::empty())
            &&& t.thinking_enabled == thinking_enabled
            &&& t.buffer.len() == 0
            &&& thinking_enabled ==> t.sse.blocks.len() == 0
        }),
{
    let st = stream_model::new_stream(model, input_tokens, thinking_enabled, tool_names, id);
    let (t, e) = stream_model::initial_events(st);
    let start = EventView {
        name: "message_start"@,
        data: DataView::MessageStart { id, model, input_tokens },
    };
    lemma_sent_one(start);
    let s1 = SseView { message_started: true, ..st.sse };
    if !thinking_enabled {
        lemma_new_block(s1, "text"@, BlockHeaderView::Text);
        let opened = stream_model::open_block(s1, "text"@, BlockHeaderView::Text).1;
        assert(e =~= seq![start] + opened);
        lemma_sent_concat(seq![start], opened);
    }
    assert(sent_text(e) =~= Seq::empty());
    assert(sent_thinking(e) =~= Seq::empty());
    assert(sent_text(e) + t.buffer =~= Seq::empty());
    lemma_ends_in_quote(Seq::empty(), Seq::empty());
}

/// An answer in which no thinking is marked reaches the client as it is, however it is cut into
/// pieces: the text that is sent is the text that came, and no thinking is sent. So it is where
/// thinking is not enabled, and where the opening tag occurs only behind a quote character.
pub proof fn plain_answers_arrive_unchanged(
    model: Seq<char>,
    input_tokens: int,
    thinking_enabled: bool,
    tool_names: Map<Seq<char>, String>,
    id: Seq<char>,
    events: Seq<Event>,
    reported: int,
)
    requires
        are_plain(events),
        thinking_enabled ==> is_untagged(answer_text(events)),
    ensures
        ({
            let st = stream_model::new_stream(
                model,
                input_tokens,
                thinking_enabled,
                tool_names,
                id,
            );
            let all = protocol::whole_answer(st, events, reported);
            sent_text(all) == answer_text(events) && sent_thinking(all) == Seq::<char>::empty()
        }),
{
    let st = stream_model::new_stream(model, input_tokens, thinking_enabled, tool_names, id);
    lemma_beginning(model, input_tokens, thinking_enabled, tool_names, id);
    let (s1, e1) = stream_model::initial_events(st);
    assert(answer_text(events) + Seq::<char>::empty() =~= answer_text(events));
    lemma_untagged_run(s1, e1, events, Seq::empty());
    let (s2, e2) = protocol::run(s1, events);
    lemma_untagged_end(s2, e1 + e2, answer_text(events), reported);
}

/// The closing tag with the empty line that follows it.
pub open spec fn closing() -> Seq<char> {
    "</thinking>\n\n"@
}

/// The text can stand between the tags: the closing tag that follows it is the first one that
/// counts. Quoted closing tags, and such as no empty line follows, may stand in it. `after_quote`
/// says that a quote character came right before it.
pub open spec fn is_thought(after_quote: bool, s: Seq<char>) -> bool {
    thinking::end_tag_after(after_quote, s + closing()) == Some(text::bytes_of(s).len() as int)
}

/// A closing tag at `p` counts.
pub open spec fn is_end(after_quote: bool, b: Seq<u8>, p: int) -> bool {
    thinking::is_end_tag(b, p) && thinking::is_clear(after_quote, p)
}

/// The bytes of the closing tag and the empty line.
proof fn lemma_closing()
    ensures
        closing().len() == 13,
        text::bytes_of(closing()).len() == 13,
        text::bytes_of(closing()) == thinking::end_tag() + seq![0x0au8, 0x0au8],
{
    reveal_strlit("</thinking>");
    reveal_strlit("</thinking>\n\n");
    is_ascii_chars_encode_utf8("</thinking>"@);
    is_ascii_chars_encode_utf8("</thinking>\n\n"@);
    assert(text::bytes_of(closing()) =~= thinking::end_tag() + seq![0x0au8, 0x0au8]);
}

/// Where a search for the closing tag leads.
proof fn lemma_thought_is(after_quote: bool, s: Seq<char>)
    ensures
        ({
            let b = text::bytes_of(s + closing());
            let n = text::bytes_of(s).len() as int;
            is_thought(after_quote, s) <==> is_end(after_quote, b, n) && forall|q: int|
                0 <= q < n ==> !#[trigger] is_end(after_quote, b, q)
        }),
{
    let b = text::bytes_of(s + closing());
    let n = text::bytes_of(s).len() as int;
    let holds = |p: int|
        thinking::is_end_tag(text::bytes_of(s + closing()), p) && thinking::is_clear(
            after_quote,
            p,
        );
    assert forall|q: int| #[trigger] is_end(after_quote, b, q) == holds(q) by {}
    if is_thought(after_quote, s) {
        let p = choose|p: int| thinking::is_first(holds, p);
        assert(thinking::is_first(holds, p));
        assert(p == n);
        assert forall|q: int| 0 <= q < n implies !#[trigger] is_end(after_quote, b, q) by {
            assert(!holds(q));
        }
    }
    if is_end(after_quote, b, n) && forall|q: int|
        0 <= q < n ==> !#[trigger] is_end(after_quote, b, q) {
        assert forall|q: int| 0 <= q < n implies !#[trigger] holds(q) by {
            assert(!is_end(after_quote, b, q));
        }
        assert(holds(n));
        thinking::lemma_first_offset(holds, n);
    }
}

/// Whether a closing tag counts is settled by the thirteen bytes from it on and the one before it.
proof fn lemma_same_end(q1: bool, a: Seq<u8>, p: int, q2: bool, b: Seq<u8>, shift: int)
    requires
        0 <= p,
        0 <= shift,
        p + 13 <= a.len(),
        p + shift + 13 <= b.len(),
        forall|i: int| p <= i < p + 13 ==> #[trigger] a[i] == b[i + shift],
        p > 0 ==> a[p - 1] == b[p - 1 + shift],
        p == 0 && shift > 0 ==> q1 == thinking::is_quote_byte(b[shift - 1]),
        p == 0 && shift == 0 ==> q1 == q2,
    ensures
        is_end(q1, a, p) == is_end(q2, b, p + shift),
{
    thinking::lemma_tags();
    let tag = thinking::end_tag();
    assert(a.subrange(p, p + 11) =~= b.subrange(p + shift, p + shift + 11));
    assert(a[p + 11] == b[p + 11 + shift]);
    assert(a[p + 12] == b[p + 12 + shift]);
}

/// The end of a thought is one.
proof fn lemma_end_of_thought(after_quote: bool, a: Seq<char>, w: Seq<char>)
    requires
        is_thought(after_quote, a + w),
    ensures
        is_thought(if a.len() > 0 { thinking::ends_in_quote(a) } else { after_quote }, w),
{
    lemma_closing();
    if a.len() == 0 {
        assert(a + w =~= w);
    } else {
        let quoted = thinking::ends_in_quote(a);
        assert(a + w + closing() =~= a + (w + closing()));
        text::lemma_bytes_of_concat(a, w + closing());
        text::lemma_bytes_of_concat(a, w);
        text::lemma_bytes_of_concat(w, closing());
        text::lemma_bytes_nonempty(a);
        let whole = text::bytes_of(a + w + closing());
        let part = text::bytes_of(w + closing());
        let n = text::bytes_of(a).len() as int;
        let len = text::bytes_of(w).len() as int;
        lemma_thought_is(after_quote, a + w);
        lemma_thought_is(quoted, w);
        assert(whole[n - 1] == text::bytes_of(a)[n - 1]);
        assert forall|q: int| 0 <= q <= len implies #[trigger] is_end(quoted, part, q) == is_end(
            after_quote,
            whole,
            q + n,
        ) by {
            if q > 0 {
                assert(part[q - 1] == whole[q - 1 + n]);
            }
            lemma_same_end(quoted, part, q, after_quote, whole, n);
        }
        assert(is_end(quoted, part, len));
        assert forall|q: int| 0 <= q < len implies !#[trigger] is_end(quoted, part, q) by {
            assert(!is_end(after_quote, whole, q + n));
        }
    }
}

/// A thought that its closing tag follows ends there.
proof fn lemma_end_is_found(after_quote: bool, w: Seq<char>, tail: Seq<char>)
    requires
        is_thought(after_quote, w),
    ensures
        thinking::end_tag_after(after_quote, w + closing() + tail) == Some(
            text::bytes_of(w).len() as int,
        ),
        text::text_before(w + closing() + tail, text::bytes_of(w).len() as int) == w,
        text::text_from(w + closing() + tail, text::bytes_of(w).len() as int + 13) == tail,
{
    lemma_closing();
    let buffer = w + closing() + tail;
    let short = text::bytes_of(w + closing());
    let all = text::bytes_of(buffer);
    let n = text::bytes_of(w).len() as int;
    text::lemma_bytes_of_concat(w + closing(), tail);
    text::lemma_bytes_of_concat(w, closing());
    lemma_thought_is(after_quote, w);
    let holds = |p: int|
        thinking::is_end_tag(text::bytes_of(buffer), p) && thinking::is_clear(after_quote, p);
    assert forall|q: int| 0 <= q <= n implies is_end(after_quote, short, q) == #[trigger] holds(
        q,
    ) by {
        lemma_same_end(after_quote, short, q, after_quote, all, 0);
    }
    assert(holds(n));
    assert forall|q: int| 0 <= q < n implies !#[trigger] holds(q) by {
        assert(!is_end(after_quote, short, q));
    }
    thinking::lemma_first_offset(holds, n);
    assert(buffer =~= w + (closing() + tail));
    text::lemma_split_concat(w, closing() + tail);
    text::lemma_split_concat(w + closing(), tail);
}

/// While the closing tag is not complete, the thought does not end.
proof fn lemma_end_is_not_found(
    after_quote: bool,
    w: Seq<char>,
    buffer: Seq<char>,
    missing: Seq<char>,
)
    requires
        is_thought(after_quote, w),
        buffer + missing == w + closing(),
        missing.len() > 0,
    ensures
        thinking::end_tag_after(after_quote, buffer) is None,
        text::bytes_of(buffer).len() < text::bytes_of(w).len() + 13,
{
    lemma_closing();
    text::lemma_bytes_of_concat(buffer, missing);
    text::lemma_bytes_of_concat(w, closing());
    text::lemma_bytes_nonempty(missing);
    let part = text::bytes_of(buffer);
    let all = text::bytes_of(buffer + missing);
    assert(all == text::bytes_of(w + closing()));
    assert(all.len() == part.len() + text::bytes_of(missing).len());
    assert(all.len() == text::bytes_of(w).len() + 13);
    lemma_thought_is(after_quote, w);
    let holds = |p: int|
        thinking::is_end_tag(text::bytes_of(buffer), p) && thinking::is_clear(after_quote, p);
    assert forall|q: int| 0 <= q implies !#[trigger] holds(q) by {
        if holds(q) {
            lemma_same_end(after_quote, part, q, after_quote, all, 0);
            assert(is_end(after_quote, all, q));
        }
    }
    thinking::lemma_no_first_offset(holds);
}

/// The opening tag.
pub open spec fn opening() -> Seq<char> {
    "<thinking>"@
}

proof fn lemma_opening()
    ensures
        opening().len() == 10,
        text::bytes_of(opening()) == thinking::start_tag(),
{
    reveal_strlit("<thinking>");
}

/// White space holds no opening tag, and makes none of what follows it.
proof fn lemma_no_earlier_start(blank: Seq<char>, tail: Seq<char>, p: int)
    requires
        text::is_blank(blank),
        text::occurs_at(text::bytes_of(blank + tail), thinking::start_tag(), p),
    ensures
        p >= text::bytes_of(blank).len(),
{
    thinking::lemma_tags();
    text::lemma_bytes_of_concat(blank, tail);
    let all = text::bytes_of(blank + tail);
    if p < text::bytes_of(blank).len() {
        text::lemma_blank_bytes(blank, p);
        assert(all.subrange(p, p + 10)[0] == all[p]);
    }
}

/// An opening tag that white space precedes, and no quote follows, is found.
proof fn lemma_start_is_found(blank: Seq<char>, tail: Seq<char>)
    requires
        text::is_blank(blank),
        tail.len() > 0 ==> !thinking::is_quote_byte(text::bytes_of(tail)[0]),
    ensures
        thinking::start_tag_offset(blank + opening() + tail) == Some(
            text::bytes_of(blank).len() as int,
        ),
        text::text_before(blank + opening() + tail, text::bytes_of(blank).len() as int) == blank,
        text::text_from(blank + opening() + tail, text::bytes_of(blank).len() as int + 10) == tail,
{
    lemma_opening();
    thinking::lemma_tags();
    let buffer = blank + opening() + tail;
    let b = text::bytes_of(blank);
    let all = text::bytes_of(buffer);
    let n = b.len() as int;
    text::lemma_bytes_of_concat(blank + opening(), tail);
    text::lemma_bytes_of_concat(blank, opening());
    text::lemma_bytes_nonempty(tail);
    assert(all.subrange(n, n + 10) =~= thinking::start_tag());
    if n > 0 {
        text::lemma_blank_bytes(blank, n - 1);
        assert(all[n - 1] == b[n - 1]);
    }
    if tail.len() > 0 {
        assert(all[n + 10] == text::bytes_of(tail)[0]);
    }
    let holds = |p: int|
        thinking::is_start_tag(text::bytes_of(buffer), p) && thinking::is_clear(false, p);
    assert(holds(n));
    assert(buffer =~= blank + (opening() + tail));
    assert forall|q: int| 0 <= q < n implies !#[trigger] holds(q) by {
        if holds(q) {
            lemma_no_earlier_start(blank, opening() + tail, q);
        }
    }
    thinking::lemma_first_offset(holds, n);
    text::lemma_split_concat(blank, opening() + tail);
    text::lemma_split_concat(blank + opening(), tail);
}

/// While the opening tag is not complete, it is not found, and what may be sent is white space.
proof fn lemma_start_is_not_found(blank: Seq<char>, buffer: Seq<char>, missing: Seq<char>)
    requires
        text::is_blank(blank),
        buffer + missing == blank + opening(),
        missing.len() > 0,
    ensures
        thinking::start_tag_offset(buffer) is None,
        text::is_blank(text::text_before(buffer, stream_model::safe_length(buffer, 10))),
{
    lemma_opening();
    thinking::lemma_tags();
    text::lemma_bytes_of_concat(buffer, missing);
    text::lemma_bytes_of_concat(blank, opening());
    text::lemma_bytes_nonempty(missing);
    let part = text::bytes_of(buffer);
    let all = text::bytes_of(buffer + missing);
    let holds = |p: int|
        thinking::is_start_tag(text::bytes_of(buffer), p) && thinking::is_clear(false, p);
    assert forall|q: int| 0 <= q implies !#[trigger] holds(q) by {
        if holds(q) {
            assert(all.subrange(q, q + 10) =~= part.subrange(q, q + 10));
            lemma_no_earlier_start(blank, opening(), q);
        }
    }
    thinking::lemma_no_first_offset(holds);
    let n = stream_model::safe_length(buffer, 10);
    thinking::lemma_boundary_at_or_before(
        buffer,
        if part.len() > 10 {
            part.len() - 10
        } else {
            0
        },
    );
    text::lemma_split(buffer, n);
    let safe = text::text_before(buffer, n);
    let held = text::text_from(buffer, n);
    assert(all == text::bytes_of(blank + opening()));
    assert(all.len() == part.len() + text::bytes_of(missing).len());
    assert(all.len() == text::bytes_of(blank).len() + 10);
    assert(text::bytes_of(safe).len() == n);
    assert(blank + opening() =~= safe + (held + missing));
    text::lemma_shorter_beginning(blank, opening(), safe, held + missing);
    assert forall|i: int| 0 <= i < safe.len() implies text::is_space(#[trigger] safe[i]) by {
        assert(safe[i] == blank[i]);
    }
}

/// All blocks hold thinking.
pub open spec fn only_thinking(s: SseView) -> bool {
    forall|i: int| 0 <= i < s.blocks.len() ==> (#[trigger] s.blocks[i]).kind == "thinking"@
}

/// An answer without tool calls has thinking alone so far; another one has a tool block.
pub open spec fn thinking_or_calls(st: StreamView) -> bool {
    if has_calls(st) {
        has_tool_block(st.sse)
    } else {
        st.thinking_block_index is Some && only_thinking(st.sse)
    }
}

/// Inside thinking: of `raw`, its closing tag and what follows, `came` has come, and all of it was
/// sent or is held back.
pub open spec fn in_thought(
    st: StreamView,
    sent: Seq<EventView>,
    raw: Seq<char>,
    came: Seq<char>,
) -> bool {
    let thought = thinking::without_leading_newline(raw);
    &&& protocol::sse_inv(st.sse)
    &&& st.in_thinking_block
    &&& thinking_or_calls(st)
    &&& sent_text(sent).len() == 0
    &&& sent_thinking(sent).len() <= thought.len()
    &&& st.after_quote == thinking::ends_in_quote(sent_thinking(sent))
    &&& st.strip_newline ==> sent_thinking(sent).len() == 0 && st.buffer == came
    &&& !st.strip_newline ==> came.len() > 0 && sent_thinking(sent) + st.buffer
        == thinking::without_leading_newline(came)
}

/// Thinking is over: all of it was sent, and so was `tail`, which follows it.
pub open spec fn past_thought(
    st: StreamView,
    sent: Seq<EventView>,
    raw: Seq<char>,
    tail: Seq<char>,
) -> bool {
    &&& protocol::sse_inv(st.sse)
    &&& !st.in_thinking_block
    &&& st.thinking_extracted
    &&& st.buffer.len() == 0
    &&& carry(sent, tail, thinking::without_leading_newline(raw))
    &&& past_blocks(st, tail)
}

/// The blocks of an answer that is past its thinking and has shown `tail`.
pub open spec fn past_blocks(st: StreamView, tail: Seq<char>) -> bool {
    &&& tail.len() == 0 ==> thinking_or_calls(st)
    &&& tail.len() > 0 ==> has_text_block(st.sse)
}

/// What a scan of thinking leaves alone.
pub open spec fn otherwise_same(st: StreamView, t: StreamView) -> bool {
    t == StreamView {
        sse: t.sse,
        buffer: t.buffer,
        after_quote: t.after_quote,
        in_thinking_block: t.in_thinking_block,
        thinking_extracted: t.thinking_extracted,
        thinking_block_index: t.thinking_block_index,
        text_block_index: t.text_block_index,
        strip_newline: t.strip_newline,
        thinking_text: t.thinking_text,
        ..st
    }
}

/// Taking the leading newline off commutes with what follows.
proof fn lemma_strip_front(a: Seq<char>, b: Seq<char>)
    requires
        a.len() > 0,
    ensures
        thinking::without_leading_newline(a + b) == thinking::without_leading_newline(a) + b,
{
    assert(thinking::without_leading_newline(a + b) =~= thinking::without_leading_newline(a) + b);
}

/// A thought without its leading newline is one.
proof fn lemma_stripped_thought(raw: Seq<char>)
    requires
        is_thought(false, raw),
    ensures
        is_thought(false, thinking::without_leading_newline(raw)),
{
    let thought = thinking::without_leading_newline(raw);
    if raw.len() > 0 && raw[0] == '\n' {
        let newline = raw.take(1);
        assert(raw =~= newline + thought);
        lemma_end_of_thought(false, newline, thought);
        assert(newline =~= seq!['\n']);
        assert(is_ascii_chars(newline));
        is_ascii_chars_encode_utf8(newline);
        assert(text::bytes_of(newline).len() == 1);
        assert(text::bytes_of(newline)[0] == 0x0a);
    }
}

/// A scan that finds the end of the thought `w`.
proof fn lemma_scan_ends(st: StreamView, sent: Seq<EventView>, w: Seq<char>, tail: Seq<char>)
    requires
        protocol::sse_inv(st.sse),
        st.in_thinking_block,
        !st.strip_newline,
        thinking_or_calls(st),
        sent_text(sent).len() == 0,
        is_thought(st.after_quote, w),
        st.buffer == w + closing() + tail,
    ensures
        ({
            let (t, e) = stream_model::scan_thinking(st);
            &&& otherwise_same(st, t)
            &&& protocol::sse_inv(t.sse)
            &&& !t.in_thinking_block
            &&& t.thinking_extracted
            &&& t.buffer.len() == 0
            &&& carry(sent + e, tail, sent_thinking(sent) + w)
            &&& past_blocks(t, tail)
        }),
{
    reveal(stream_model::scan_thinking);
    lemma_end_is_found(st.after_quote, w, tail);
    let (s1, e1) = stream_model::tagged_delta(st, w);
    stream_model::lemma_tagged_delta_frame(st, w);
    lemma_tagged_delta_carries(st, w);
    let s2 = StreamView { in_thinking_block: false, thinking_extracted: true, ..s1 };
    lemma_close_tagged_carries(s2);
    let (s3, e3) = stream_model::close_tagged(s2);
    let s4 = StreamView { buffer: tail, ..s3 };
    let s5 = StreamView { buffer: Seq::empty(), after_quote: false, ..s4 };
    lemma_text_delta_carries(s5, tail);
    let (t, e5) = stream_model::flush_as_text(s4);
    let e = stream_model::scan_thinking(st).1;
    assert(e =~= e1 + e3 + e5);
    lemma_sent_concat(e1 + e3, e5);
    lemma_sent_concat(e1, e3);
    lemma_sent_concat(sent, e);
    assert(sent_text(sent + e) =~= tail);
    assert(sent_thinking(sent + e) =~= sent_thinking(sent) + w);
    if tail.len() == 0 {
        lemma_still_thinking(st, t);
    }
}

/// Further thinking leaves an answer of thinking, or with tool calls, what it is.
proof fn lemma_still_thinking(st: StreamView, t: StreamView)
    requires
        thinking_or_calls(st),
        t.tools == st.tools,
        kinds_stay(st.sse, t.sse),
        forall|i: int|
            st.sse.blocks.len() <= i < t.sse.blocks.len() ==> (#[trigger] t.sse.blocks[i]).kind
                == "thinking"@,
        !has_calls(st) ==> t.thinking_block_index is Some,
    ensures
        thinking_or_calls(t),
{
    if has_calls(st) {
        lemma_tool_block_stays(st.sse, t.sse);
    } else {
        assert forall|i: int| 0 <= i < t.sse.blocks.len() implies (
        #[trigger] t.sse.blocks[i]).kind == "thinking"@ by {
            if i < st.sse.blocks.len() {
                assert(st.sse.blocks[i].kind == "thinking"@);
            }
        }
    }
}

/// A scan that does not find the end of the thought `w` yet.
proof fn lemma_scan_goes_on(
    st: StreamView,
    sent: Seq<EventView>,
    w: Seq<char>,
    missing: Seq<char>,
)
    requires
        protocol::sse_inv(st.sse),
        st.in_thinking_block,
        !st.strip_newline,
        thinking_or_calls(st),
        sent_text(sent).len() == 0,
        is_thought(st.after_quote, w),
        st.after_quote == thinking::ends_in_quote(sent_thinking(sent)),
        st.buffer + missing == w + closing(),
        missing.len() > 0,
    ensures
        ({
            let (t, e) = stream_model::scan_thinking(st);
            &&& otherwise_same(st, t)
            &&& protocol::sse_inv(t.sse)
            &&& t.in_thinking_block
            &&& !t.strip_newline
            &&& thinking_or_calls(t)
            &&& sent_text(sent + e).len() == 0
            &&& sent_thinking(sent + e) + t.buffer == sent_thinking(sent) + st.buffer
            &&& sent_thinking(sent + e).len() <= sent_thinking(sent).len() + w.len()
            &&& t.after_quote == thinking::ends_in_quote(sent_thinking(sent + e))
        }),
{
    reveal(stream_model::scan_thinking);
    lemma_closing();
    lemma_end_is_not_found(st.after_quote, w, st.buffer, missing);
    let len = text::bytes_of(st.buffer).len() as int;
    let n = stream_model::safe_length(st.buffer, 13);
    thinking::lemma_boundary_at_or_before(
        st.buffer,
        if len > 13 {
            len - 13
        } else {
            0
        },
    );
    text::lemma_split(st.buffer, n);
    let safe = text::text_before(st.buffer, n);
    let held = text::text_from(st.buffer, n);
    assert(text::bytes_of(safe).len() == n);
    assert(w + closing() =~= safe + (held + missing));
    text::lemma_shorter_beginning(w, closing(), safe, held + missing);
    stream_model::lemma_tagged_delta_frame(st, safe);
    lemma_tagged_delta_carries(st, safe);
    lemma_ends_in_quote(sent_thinking(sent), safe);
    text::lemma_bytes_nonempty(safe);
    let (t, e) = stream_model::scan_thinking(st);
    lemma_sent_concat(sent, e);
    lemma_sent_one(state_manager::block_stop_event(0));
    lemma_still_thinking(st, t);
    assert(sent_text(sent + e) =~= Seq::empty());
    assert(sent_thinking(sent + e) + t.buffer =~= sent_thinking(sent) + st.buffer);
}

/// What is left of the thinking of which `came` has come, once what was sent of it is taken off.
proof fn lemma_thought_left(
    st0: StreamView,
    sent: Seq<EventView>,
    raw: Seq<char>,
    rest: Seq<char>,
    came: Seq<char>,
    future: Seq<char>,
)
    requires
        in_thought(st0, sent, raw, came),
        is_thought(false, raw),
        raw.len() > 0,
        came.len() > 0,
        came + future == raw + closing() + rest,
    ensures
        ({
            let st = stream_model::stripped(st0);
            let thought = thinking::without_leading_newline(raw);
            let done = sent_thinking(sent);
            let w = thought.skip(done.len() as int);
            &&& !st.strip_newline
            &&& thought == done + w
            &&& is_thought(st.after_quote, w)
            &&& done + st.buffer == thinking::without_leading_newline(came)
            &&& st.buffer + future == w + closing() + rest
            &&& st.buffer.len() - came.len() == w.len() - raw.len()
        }),
{
    lemma_closing();
    let whole = raw + closing() + rest;
    let thought = thinking::without_leading_newline(raw);
    lemma_stripped_thought(raw);
    let done = sent_thinking(sent);
    let st = stream_model::stripped(st0);
    assert(came[0] == whole[0] && whole[0] == raw[0]) by {
        assert((came + future)[0] == came[0]);
    }
    let seen = thinking::without_leading_newline(came);
    lemma_strip_front(came, future);
    lemma_strip_front(raw, closing() + rest);
    assert(whole =~= raw + (closing() + rest));
    assert(seen + future == thought + (closing() + rest));
    assert(done + st.buffer == seen) by {
        if st0.strip_newline {
            assert(done + st.buffer =~= seen);
        }
    }
    let all = thought + (closing() + rest);
    let w = thought.skip(done.len() as int);
    assert(done =~= thought.take(done.len() as int)) by {
        assert forall|i: int| 0 <= i < done.len() implies done[i] == thought[i] by {
            assert((done + st.buffer)[i] == done[i]);
            assert((seen + future)[i] == seen[i]);
            assert(all[i] == thought[i]);
        }
    }
    assert(thought =~= done + w);
    lemma_end_of_thought(false, done, w);
    lemma_ends_in_quote(done, done);
    if done.len() == 0 {
        assert(done =~= Seq::<char>::empty());
    }
    assert(st.buffer + future =~= w + closing() + rest) by {
        assert((done + st.buffer + future).skip(done.len() as int) =~= st.buffer + future);
        assert(all.skip(done.len() as int) =~= w + closing() + rest);
        assert(done + st.buffer + future =~= all);
    }
    assert(seen.len() - came.len() == thought.len() - raw.len());
}

/// While its closing tag is not complete, what came of the thinking that is left lacks something
/// of it.
proof fn lemma_thought_lacks(
    buffer: Seq<char>,
    future: Seq<char>,
    w: Seq<char>,
    rest: Seq<char>,
)
    requires
        buffer + future == w + closing() + rest,
        buffer.len() < w.len() + 13,
    ensures
        ({
            let missing = (w + closing()).skip(buffer.len() as int);
            buffer + missing == w + closing() && missing.len() > 0
        }),
{
    lemma_closing();
    let missing = (w + closing()).skip(buffer.len() as int);
    assert(buffer + missing =~= w + closing()) by {
        assert forall|i: int| 0 <= i < buffer.len() implies buffer[i] == (w + closing())[i] by {
            assert((buffer + future)[i] == buffer[i]);
        }
    }
}

/// A scan of thinking of which `came` has come.
proof fn lemma_thought_scan(
    st0: StreamView,
    sent: Seq<EventView>,
    raw: Seq<char>,
    rest: Seq<char>,
    came: Seq<char>,
    future: Seq<char>,
)
    requires
        in_thought(st0, sent, raw, came),
        is_thought(false, raw),
        raw.len() > 0,
        came + future == raw + closing() + rest,
    ensures
        ({
            let (t, e) = stream_model::scan_thinking(st0);
            &&& otherwise_same(st0, t)
            &&& came.len() < raw.len() + 13 ==> in_thought(t, sent + e, raw, came)
            &&& came.len() >= raw.len() + 13 ==> past_thought(
                t,
                sent + e,
                raw,
                came.skip(raw.len() as int + 13),
            )
        }),
{
    lemma_closing();
    let whole = raw + closing() + rest;
    let thought = thinking::without_leading_newline(raw);
    let done = sent_thinking(sent);
    let st = stream_model::stripped(st0);
    let (t, e) = stream_model::scan_thinking(st0);
    if came.len() == 0 {
        reveal(stream_model::scan_thinking);
        assert(st0.strip_newline);
        assert(st == st0);
        lemma_empty_buffer(st.after_quote);
        assert(st.buffer =~= Seq::<char>::empty());
        assert(e =~= Seq::empty());
        assert(sent + e =~= sent);
    } else {
        lemma_thought_left(st0, sent, raw, rest, came, future);
        assert(stream_model::stripped(st) == st);
        assert(stream_model::scan_thinking(st) == stream_model::scan_thinking(st0)) by {
            reveal(stream_model::scan_thinking);
        }
        let w = thought.skip(done.len() as int);
        if came.len() >= raw.len() + 13 {
            let tail = came.skip(raw.len() as int + 13);
            let joined = w + closing();
            assert((came + future).len() == whole.len());
            assert(st.buffer =~= joined + tail) by {
                assert(st.buffer.len() == joined.len() + tail.len());
                assert forall|i: int| 0 <= i < st.buffer.len() implies st.buffer[i] == (joined
                    + tail)[i] by {
                    let both = st.buffer + future;
                    assert(both[i] == st.buffer[i]);
                    if i >= joined.len() {
                        let j = i - joined.len();
                        assert(both[i] == rest[j]);
                        assert(tail[j] == came[raw.len() + 13 + j]);
                        assert(came[raw.len() + 13 + j] == (came + future)[raw.len() + 13 + j]);
                        assert(whole[raw.len() + 13 + j] == rest[j]);
                    }
                }
            }
            lemma_scan_ends(st, sent, w, tail);
            assert(done + w =~= thought);
        } else {
            lemma_thought_lacks(st.buffer, future, w, rest);
            lemma_scan_goes_on(st, sent, w, (w + closing()).skip(st.buffer.len() as int));
        }
    }
}

proof fn lemma_empty_buffer(after_quote: bool)
    ensures
        thinking::end_tag_after(after_quote, Seq::empty()) is None,
        stream_model::safe_length(Seq::empty(), 13) == 0,
{
    lemma_closing();
    let none = Seq::<char>::empty();
    text::lemma_bytes_nonempty(none);
    let holds = |p: int|
        thinking::is_end_tag(text::bytes_of(Seq::<char>::empty()), p) && thinking::is_clear(
            after_quote,
            p,
        );
    thinking::lemma_no_first_offset(holds);
}

/// An answer with its thinking in front: white space, the tags with the thinking between them, an
/// empty line and the text.
pub open spec fn tagged(blank: Seq<char>, raw: Seq<char>, rest: Seq<char>) -> Seq<char> {
    blank + opening() + (raw + closing() + rest)
}

/// The tags are marked as such: white space stands in front of them, the thinking does not begin
/// with a quote character, and the closing tag is the first one that counts.
pub open spec fn is_well_tagged(blank: Seq<char>, raw: Seq<char>) -> bool {
    &&& text::is_blank(blank)
    &&& raw.len() > 0
    &&& is_thought(false, raw)
    &&& !thinking::is_quote_byte(text::bytes_of(raw)[0])
}

/// How far an answer with its thinking in front has come.
pub open spec fn stages(
    st: StreamView,
    sent: Seq<EventView>,
    blank: Seq<char>,
    raw: Seq<char>,
    content: Seq<char>,
) -> bool {
    let head = blank.len() as int + 10;
    &&& is_simple(st, content)
    &&& st.thinking_enabled
    &&& content.len() < head ==> {
        &&& !st.in_thinking_block
        &&& !st.thinking_extracted
        &&& st.buffer == content
        &&& !st.after_quote
        &&& carry(sent, Seq::empty(), Seq::empty())
        &&& only_thinking(st.sse)
        &&& !has_calls(st)
    }
    &&& head <= content.len() < head + raw.len() + 13 ==> in_thought(
        st,
        sent,
        raw,
        content.skip(head),
    )
    &&& head + raw.len() + 13 <= content.len() ==> past_thought(
        st,
        sent,
        raw,
        content.skip(head + raw.len() + 13),
    )
}

/// A piece that comes before the opening tag is complete.
proof fn lemma_piece_before(
    st: StreamView,
    sent: Seq<EventView>,
    blank: Seq<char>,
    raw: Seq<char>,
    rest: Seq<char>,
    content: Seq<char>,
    more: Seq<char>,
    future: Seq<char>,
)
    requires
        is_well_tagged(blank, raw),
        stages(st, sent, blank, raw, content),
        stream_model::has_content(st),
        content.len() < blank.len() + 10,
        content + more + future == tagged(blank, raw, rest),
    ensures
        ({
            let s = StreamView { buffer: st.buffer + more, ..st };
            let (t, e) = stream_model::scan_text(s);
            stages(t, sent + e, blank, raw, content + more) && t.tools == st.tools
        }),
{
    lemma_opening();
    lemma_closing();
    let head = blank.len() as int + 10;
    let s = StreamView { buffer: st.buffer + more, ..st };
    let now = content + more;
    let body = raw + closing() + rest;
    let all = tagged(blank, raw, rest);
    let (t, e) = stream_model::scan_text(s);
    reveal(stream_model::scan_text);
    if now.len() < head {
        let missing = (blank + opening()).skip(now.len() as int);
        assert(now + missing =~= blank + opening()) by {
            assert forall|i: int| 0 <= i < now.len() implies now[i] == (blank + opening())[i] by {
                assert((now + future)[i] == now[i]);
            }
        }
        lemma_start_is_not_found(blank, now, missing);
        assert(e =~= Seq::empty());
        assert(sent + e =~= sent);
    } else {
        let came = now.skip(head);
        assert(now =~= blank + opening() + came) by {
            assert forall|i: int| 0 <= i < now.len() implies now[i] == (blank + opening() + came)[i] by {
                assert((now + future)[i] == now[i]);
            }
        }
        assert(came + future =~= body) by {
            assert((now + future).skip(head) =~= came + future);
            assert(all.skip(head) =~= body);
        }
        if came.len() > 0 {
            assert(came[0] == raw[0]) by {
                assert((came + future)[0] == came[0]);
                assert(body[0] == raw[0]);
            }
            encode_utf8_first_scalar(came);
            encode_utf8_first_scalar(raw);
            char_is_scalar(raw[0]);
        }
        lemma_start_is_found(blank, came);
        let index = s.sse.next_block_index;
        lemma_new_block(s.sse, "thinking"@, BlockHeaderView::Thinking);
        let (sse, e2) = stream_model::open_block(s.sse, "thinking"@, BlockHeaderView::Thinking);
        let s2 = StreamView {
            sse,
            in_thinking_block: true,
            strip_newline: true,
            buffer: came,
            after_quote: false,
            thinking_block_index: Some(index),
            ..s
        };
        lemma_sent_concat(sent, e2);
        assert(sent_text(sent + e2) =~= Seq::empty());
        assert(sent_thinking(sent + e2) =~= Seq::empty());
        lemma_ends_in_quote(Seq::empty(), Seq::empty());
        assert(in_thought(s2, sent + e2, raw, came)) by {
            assert forall|i: int| 0 <= i < sse.blocks.len() implies (
            #[trigger] sse.blocks[i]).kind == "thinking"@ by {
                if i < s.sse.blocks.len() {
                    assert(s.sse.blocks[i].kind == "thinking"@);
                }
            }
        }
        lemma_thought_scan(s2, sent + e2, raw, rest, came, future);
        let e3 = stream_model::scan_thinking(s2).1;
        assert(sent + e =~= sent + e2 + e3);
        if now.len() >= head + raw.len() + 13 {
            assert(came.skip(raw.len() as int + 13) =~= now.skip(head + raw.len() + 13));
        }
    }
}

/// A piece of an answer with its thinking in front.
proof fn lemma_tagged_piece(
    st: StreamView,
    sent: Seq<EventView>,
    blank: Seq<char>,
    raw: Seq<char>,
    rest: Seq<char>,
    content: Seq<char>,
    more: Seq<char>,
    future: Seq<char>,
)
    requires
        is_well_tagged(blank, raw),
        stages(st, sent, blank, raw, content),
        content + more + future == tagged(blank, raw, rest),
    ensures
        ({
            let (t, e) = stream_model::assistant_response(st, more);
            stages(t, sent + e, blank, raw, content + more) && t.tools == st.tools
        }),
{
    let (t, e) = stream_model::assistant_response(st, more);
    if more.len() == 0 {
        assert(content + more =~= content);
        assert(sent + e =~= sent);
    } else {
        lemma_opening();
        lemma_closing();
        let head = blank.len() as int + 10;
        let now = content + more;
        let s1 = StreamView {
            output_tokens: st.output_tokens + stream_model::estimated_tokens(more),
            ..st
        };
        assert(stages(s1, sent, blank, raw, content));
        let s = StreamView { buffer: st.buffer + more, ..s1 };
        let d = stream_model::content_with_thinking(s1, more).1;
        assert(e =~= d);
        if content.len() < head {
            lemma_piece_before(s1, sent, blank, raw, rest, content, more, future);
        } else if content.len() < head + raw.len() + 13 {
            let came = now.skip(head);
            assert(came =~= content.skip(head) + more);
            assert(came + future =~= raw + closing() + rest) by {
                assert((now + future).skip(head) =~= came + future);
                assert(tagged(blank, raw, rest).skip(head) =~= raw + closing() + rest);
            }
            if !s1.strip_newline {
                lemma_strip_front(content.skip(head), more);
                assert(sent_thinking(sent) + s.buffer =~= sent_thinking(sent) + st.buffer + more);
            }
            lemma_thought_scan(s, sent, raw, rest, came, future);
            if now.len() >= head + raw.len() + 13 {
                assert(came.skip(raw.len() as int + 13) =~= now.skip(head + raw.len() + 13));
            }
        } else {
            let before = content.skip(head + raw.len() + 13);
            let s5 = StreamView { buffer: Seq::empty(), after_quote: false, ..s };
            assert(s.buffer =~= more);
            lemma_text_delta_carries(s5, more);
            lemma_sent_concat(sent, e);
            assert(before + more =~= now.skip(head + raw.len() + 13));
            assert(sent_thinking(sent + e) =~= sent_thinking(sent));
        }
    }
}

/// A closing tag that ends a part of a text, and is not quoted there, ends the text.
proof fn lemma_trailing_in_whole(pre: Seq<char>, buffer: Seq<char>)
    requires
        thinking::trailing_end_tag_after(thinking::ends_in_quote(pre), buffer) is Some,
    ensures
        thinking::trailing_end_tag_offset(pre + buffer) is Some,
{
    let quoted = thinking::ends_in_quote(pre);
    let part = text::bytes_of(buffer);
    let whole = text::bytes_of(pre + buffer);
    text::lemma_bytes_of_concat(pre, buffer);
    thinking::lemma_tags();
    let n = text::bytes_of(pre).len() as int;
    let holds = |p: int|
        thinking::is_trailing_end_tag(text::bytes_of(buffer), p) && thinking::is_clear(quoted, p);
    let p = choose|p: int| thinking::is_first(holds, p);
    assert(thinking::is_first(holds, p));
    assert(holds(p));
    assert(whole.subrange(n + p, n + p + 11) =~= part.subrange(p, p + 11));
    assert(whole.subrange(n + p + 11, whole.len() as int) =~= part.subrange(
        p + 11,
        part.len() as int,
    ));
    if p > 0 {
        assert(whole[n + p - 1] == part[p - 1]);
    } else if n > 0 {
        assert(whole[n - 1] == text::bytes_of(pre)[n - 1]);
    }
    if p + 11 < part.len() {
        assert(whole[n + p + 11] == part[p + 11]);
    }
    let found = |p: int|
        thinking::is_trailing_end_tag(text::bytes_of(pre + buffer), p) && thinking::is_clear(
            false,
            p,
        );
    assert(found(n + p));
    thinking::lemma_first_exists(found, 0, n + p);
}

/// A thought that its closing tag follows ends with it, though the empty line is not complete.
proof fn lemma_complete_tag_trails(raw: Seq<char>, k: int)
    requires
        is_thought(false, raw),
        11 <= k <= 12,
    ensures
        thinking::trailing_end_tag_offset(raw + closing().take(k)) is Some,
{
    lemma_closing();
    thinking::lemma_tags();
    lemma_thought_is(false, raw);
    let tag = closing().take(11);
    let line = closing().take(k).skip(11);
    assert(closing().take(k) =~= tag + line);
    reveal_strlit("</thinking>");
    reveal_strlit("</thinking>\n\n");
    assert(tag =~= "</thinking>"@);
    text::lemma_bytes_of_concat(raw, closing().take(k));
    text::lemma_bytes_of_concat(tag, line);
    text::lemma_bytes_of_concat(raw, closing());
    let n = text::bytes_of(raw).len() as int;
    let all = text::bytes_of(raw + closing());
    let whole = text::bytes_of(raw + closing().take(k));
    assert forall|i: int| 0 <= i < line.len() implies line[i] == '\n' by {}
    assert(text::is_blank(line));
    assert(whole.subrange(n + 11, whole.len() as int) =~= text::bytes_of(line));
    encode_utf8_decode_utf8(line);
    assert(whole.subrange(n, n + 11) =~= thinking::end_tag());
    if n > 0 {
        assert(whole[n - 1] == all[n - 1]);
    }
    is_ascii_chars_encode_utf8(line);
    if k == 12 {
        assert(whole[n + 11] == text::bytes_of(line)[0]);
        assert(text::bytes_of(line)[0] == 0x0a);
    }
    let found = |p: int|
        thinking::is_trailing_end_tag(text::bytes_of(raw + closing().take(k)), p)
            && thinking::is_clear(false, p);
    assert(is_end(false, all, n));
    assert(found(n));
    thinking::lemma_first_exists(found, 0, n);
}

/// What thinking holds back of `buffer` when it is interrupted reaches into the thought `w`, where
/// no more than ten bytes of the closing tag have come.
proof fn lemma_begun_in_thought(buffer: Seq<char>, w: Seq<char>, missing: Seq<char>)
    requires
        buffer + missing == w + closing(),
        buffer.len() <= w.len() + 10,
    ensures
        text::bytes_of(
            text::text_before(buffer, thinking::begun_tag_offset(buffer)),
        ).len() <= text::bytes_of(w).len(),
{
    lemma_closing();
    thinking::lemma_tags();
    thinking::lemma_begun_tag(buffer);
    let at = thinking::begun_tag_offset(buffer);
    text::lemma_split(buffer, at);
    let b = text::bytes_of(buffer);
    let n = text::bytes_of(w).len() as int;
    let all = text::bytes_of(w + closing());
    text::lemma_bytes_of_concat(w, closing());
    text::lemma_bytes_of_concat(buffer, missing);
    if at > n {
        let holds = |p: int| thinking::is_begun_tag(b, p);
        let k = buffer.len() - w.len();
        if k <= 0 {
            text::lemma_bytes_of_concat(buffer, w.skip(buffer.len() as int));
            assert(buffer + w.skip(buffer.len() as int) =~= w) by {
                assert forall|i: int| 0 <= i < buffer.len() implies buffer[i] == w[i] by {
                    assert((buffer + missing)[i] == buffer[i]);
                }
            }
        } else {
            let part = closing().take(k);
            assert(buffer =~= w + part) by {
                assert forall|i: int| 0 <= i < buffer.len() implies buffer[i] == (w + part)[i] by {
                    assert((buffer + missing)[i] == buffer[i]);
                }
            }
            text::lemma_bytes_of_concat(w, part);
            reveal_strlit("</thinking>\n\n");
            is_ascii_chars_encode_utf8(part);
            assert(text::bytes_of(part).len() == k);
            assert forall|j: int| n <= j < b.len() implies #[trigger] b[j] == thinking::end_tag()[j
                - n] by {
                assert(b[j] == all[j]);
                assert(all[j] == text::bytes_of(closing())[j - n]);
            }
            assert(holds(n));
        }
    }
}

/// Thinking that is interrupted before its closing tag is complete goes on afterwards: all that
/// came of it was sent or is held back.
proof fn lemma_pause_goes_on(
    st0: StreamView,
    sent: Seq<EventView>,
    raw: Seq<char>,
    rest: Seq<char>,
    came: Seq<char>,
    future: Seq<char>,
)
    requires
        in_thought(st0, sent, raw, came),
        is_thought(false, raw),
        raw.len() > 0,
        came + future == raw + closing() + rest,
        came.len() < raw.len() + 13,
        thinking::trailing_end_tag_offset(came) is None,
    ensures
        thinking::trailing_end_tag_after(st0.after_quote, st0.buffer) is None,
        ({
            let (t, e) = stream_model::pause_thinking(st0);
            let thought = thinking::without_leading_newline(raw);
            &&& t.in_thinking_block
            &&& sent_text(sent + e).len() == 0
            &&& sent_thinking(sent + e).len() <= thought.len()
            &&& t.after_quote == thinking::ends_in_quote(sent_thinking(sent + e))
            &&& t.strip_newline ==> sent_thinking(sent + e).len() == 0 && t.buffer == came
            &&& !t.strip_newline ==> came.len() > 0 && sent_thinking(sent + e) + t.buffer
                == thinking::without_leading_newline(came)
        }),
{
    lemma_closing();
    let done = sent_thinking(sent);
    let thought = thinking::without_leading_newline(raw);
    let st = stream_model::stripped(st0);
    assert(thinking::trailing_end_tag_after(st0.after_quote, st0.buffer) is None) by {
        lemma_ends_in_quote(Seq::empty(), done);
        if st0.strip_newline {
            assert(done =~= Seq::<char>::empty());
            assert(done + st0.buffer =~= came);
            if thinking::trailing_end_tag_after(st0.after_quote, st0.buffer) is Some {
                lemma_trailing_in_whole(done, st0.buffer);
            }
        } else {
            let front = came.take(came.len() - (done + st0.buffer).len());
            assert(front + done + st0.buffer =~= came) by {
                assert(front + (done + st0.buffer) =~= came);
            }
            lemma_ends_in_quote(front, done);
            if done.len() == 0 && front.len() > 0 {
                assert(front =~= seq!['\n']);
                assert(is_ascii_chars(front));
                is_ascii_chars_encode_utf8(front);
                assert(!thinking::ends_in_quote(front));
            }
            if front.len() == 0 {
                assert(front + done =~= done);
            }
            if thinking::trailing_end_tag_after(st0.after_quote, st0.buffer) is Some {
                lemma_trailing_in_whole(front + done, st0.buffer);
            }
        }
    }
    reveal(stream_model::pause_thinking);
    let (t, e) = stream_model::pause_thinking(st0);
    let at = thinking::begun_tag_offset(st.buffer);
    let content = text::text_before(st.buffer, at);
    thinking::lemma_begun_tag(st.buffer);
    text::lemma_split(st.buffer, at);
    stream_model::lemma_tagged_delta_frame(st, content);
    lemma_tagged_delta_carries(st, content);
    let (s1, e1) = stream_model::tagged_delta(st, content);
    stream_model::lemma_close_tagged_frame(s1);
    lemma_close_tagged_carries(s1);
    let e2 = stream_model::close_tagged(s1).1;
    lemma_sent_concat(e1, e2);
    lemma_sent_concat(sent, e);
    assert(sent_text(sent + e) =~= Seq::empty());
    assert(sent_thinking(sent + e) =~= done + content);
    lemma_ends_in_quote(done, content);
    assert(done + content + t.buffer =~= done + st.buffer);
    if came.len() == 0 {
        assert(st.buffer =~= Seq::<char>::empty());
        assert(content.len() == 0 && t.buffer.len() == 0);
        assert(t.buffer =~= came);
    } else {
        lemma_thought_left(st0, sent, raw, rest, came, future);
        let w = thought.skip(done.len() as int);
        lemma_thought_lacks(st.buffer, future, w, rest);
        let missing = (w + closing()).skip(st.buffer.len() as int);
        if came.len() > raw.len() + 10 {
            let k = came.len() - raw.len();
            assert(came =~= raw + closing().take(k)) by {
                assert forall|i: int| 0 <= i < came.len() implies came[i] == (raw + closing().take(
                    k,
                ))[i] by {
                    assert((came + future)[i] == came[i]);
                }
            }
            lemma_complete_tag_trails(raw, k);
        }
        lemma_begun_in_thought(st.buffer, w, missing);
        assert(w + closing() =~= content + (t.buffer + missing));
        text::lemma_shorter_beginning(w, closing(), content, t.buffer + missing);
    }
}

/// The block of a tool call, its arguments and its end carry nothing.
proof fn lemma_call_carries_nothing(
    st: StreamView,
    name: Seq<char>,
    id: Seq<char>,
    input: Seq<char>,
    stop: bool,
)
    ensures
        ({
            let (s2, e2, index) = stream_model::tool_block(st, name, id);
            let (s3, e3) = stream_model::tool_input(s2, index, input);
            let (s4, e4) = stream_model::tool_stop(s3, index, stop);
            &&& carry(e2 + e3 + e4, Seq::empty(), Seq::empty())
            &&& s4 == StreamView {
                sse: s4.sse,
                tools: s4.tools,
                output_tokens: s4.output_tokens,
                ..st
            }
            &&& s4.tools.dom().contains(id)
        }),
{
    let (s2, e2, index) = stream_model::tool_block(st, name, id);
    let (s3, e3) = stream_model::tool_input(s2, index, input);
    let (s4, e4) = stream_model::tool_stop(s3, index, stop);
    let header = BlockHeaderView::ToolUse { id, name: stream_model::shown_name(st, name) };
    let start = state_manager::block_start_event(stream_model::start_data(index, header));
    let delta = state_manager::block_delta_event(
        stream_model::delta_data(index, DeltaView::InputJson(input)),
    );
    let stops = state_manager::closing_events(st.sse.blocks, true, false);
    lemma_closing_carries_nothing(st.sse.blocks, true, false);
    lemma_sent_one(start);
    lemma_sent_one(delta);
    lemma_sent_one(state_manager::block_stop_event(index));
    lemma_sent_concat(stops, seq![start]);
    assert(stops.push(start) =~= stops + seq![start]);
    lemma_silent(Seq::empty());
    lemma_sent_concat(e2, e3);
    lemma_sent_concat(e2 + e3, e4);
    let e = e2 + e3 + e4;
    assert(sent_text(e) =~= Seq::empty());
    assert(sent_thinking(e) =~= Seq::empty());
}

/// The event is a tool call that comes amid thinking: of an answer with its thinking in front,
/// `content` has come, which reaches past the opening tag and does not end in a closing tag.
pub open spec fn is_interruption(
    event: Event,
    blank: Seq<char>,
    raw: Seq<char>,
    content: Seq<char>,
) -> bool {
    let head = blank.len() as int + 10;
    &&& event is ToolUse
    &&& head <= content.len() < head + raw.len() + 13
    &&& thinking::trailing_end_tag_offset(content.skip(head)) is None
}

/// Besides text of the answer and counts, the events hold tool calls amid thinking alone.
pub open spec fn calls_come_amid_thinking(
    events: Seq<Event>,
    blank: Seq<char>,
    raw: Seq<char>,
) -> bool {
    forall|i: int|
        0 <= i < events.len() ==> is_plain(#[trigger] events[i]) || is_interruption(
            events[i],
            blank,
            raw,
            answer_text(events.take(i)),
        )
}

/// What precedes a tool call amid thinking.
proof fn lemma_before_interruption(
    st: StreamView,
    sent: Seq<EventView>,
    raw: Seq<char>,
    rest: Seq<char>,
    came: Seq<char>,
    future: Seq<char>,
)
    requires
        in_thought(st, sent, raw, came),
        st.thinking_enabled,
        !st.reasoning_block_active,
        is_thought(false, raw),
        raw.len() > 0,
        came + future == raw + closing() + rest,
        came.len() < raw.len() + 13,
        thinking::trailing_end_tag_offset(came) is None,
    ensures
        ({
            let (t, e) = stream_model::before_tool(st);
            let thought = thinking::without_leading_newline(raw);
            &&& otherwise_same(st, t)
            &&& t.in_thinking_block
            &&& sent_text(sent + e).len() == 0
            &&& sent_thinking(sent + e).len() <= thought.len()
            &&& t.after_quote == thinking::ends_in_quote(sent_thinking(sent + e))
            &&& t.strip_newline ==> sent_thinking(sent + e).len() == 0 && t.buffer == came
            &&& !t.strip_newline ==> came.len() > 0 && sent_thinking(sent + e) + t.buffer
                == thinking::without_leading_newline(came)
        }),
{
    let s2 = StreamView { sse: SseView { has_tool_use: true, ..st.sse }, ..st };
    if has_calls(st) {
        lemma_tool_block_stays(st.sse, s2.sse);
    }
    assert(in_thought(s2, sent, raw, came));
    lemma_pause_goes_on(s2, sent, raw, rest, came, future);
    stream_model::lemma_pause_thinking_frame(s2);
    let (s3, e3) = stream_model::pause_thinking(s2);
    assert(stream_model::yield_thinking(s2) == (s3, e3));
    let (t, e) = stream_model::before_tool(st);
    assert(t == s3);
    assert(e =~= e3);
}

/// A tool call amid thinking.
proof fn lemma_interrupted(
    p: Protocol,
    st: StreamView,
    sent: Seq<EventView>,
    blank: Seq<char>,
    raw: Seq<char>,
    rest: Seq<char>,
    content: Seq<char>,
    future: Seq<char>,
    event: Event,
)
    requires
        protocol::good(p, st),
        stream::event_fits(st, event),
        is_well_tagged(blank, raw),
        stages(st, sent, blank, raw, content),
        is_interruption(event, blank, raw, content),
        content + future == tagged(blank, raw, rest),
    ensures
        ({
            let (t, e) = stream::event_step(st, event);
            stages(t, sent + e, blank, raw, content) && has_calls(t)
        }),
{
    lemma_opening();
    let head = blank.len() as int + 10;
    let came = content.skip(head);
    assert(came + future =~= raw + closing() + rest) by {
        assert((content + future).skip(head) =~= came + future);
        assert(tagged(blank, raw, rest).skip(head) =~= raw + closing() + rest);
    }
    let call = event->ToolUse_0;
    lemma_before_interruption(st, sent, raw, rest, came, future);
    let (s1, e1) = stream_model::before_tool(st);
    lemma_call_carries_nothing(s1, call.name@, call.tool_use_id@, call.input@, call.stop);
    let (t, e) = stream::event_step(st, event);
    let (c2, d2, index) = stream_model::tool_block(s1, call.name@, call.tool_use_id@);
    let (c3, d3) = stream_model::tool_input(c2, index, call.input@);
    let (c4, d4) = stream_model::tool_stop(c3, index, call.stop);
    let d = d2 + d3 + d4;
    assert(e =~= e1 + d);
    lemma_sent_concat(sent + e1, d);
    assert(sent + e =~= sent + e1 + d);
    assert(sent_text(sent + e) =~= sent_text(sent + e1));
    assert(sent_thinking(sent + e) =~= sent_thinking(sent + e1));
    lemma_calls_have_blocks(p, st, event);
    assert(in_thought(t, sent + e, raw, came));
}

/// After a tool call, the blocks are sound, and one of them belongs to a tool call.
proof fn lemma_calls_have_blocks(p: Protocol, st: StreamView, event: Event)
    requires
        protocol::good(p, st),
        stream::event_fits(st, event),
        event is ToolUse,
    ensures
        ({
            let t = stream::event_step(st, event).0;
            protocol::sse_inv(t.sse) && has_calls(t) && has_tool_block(t.sse)
        }),
{
    protocol::event_keeps_protocol(p, st, event);
    let t = stream::event_step(st, event).0;
    let call = event->ToolUse_0;
    let id = call.tool_use_id@;
    let s1 = stream_model::before_tool(st).0;
    lemma_call_carries_nothing(s1, call.name@, id, call.input@, call.stop);
    assert(t.tools.dom().contains(id));
    assert(!Map::<Seq<char>, i32>::empty().dom().contains(id));
    assert(protocol::is_tool_block(t.sse, t.tools[id] as int));
    protocol::lemma_position_is(t.sse.blocks, t.tools[id] as int);
    let at = state_manager::block_position(t.sse.blocks, t.tools[id] as int)->0;
    assert(t.sse.blocks[at].kind == "tool_use"@);
}

/// A run of pieces of an answer with its thinking in front. Tool calls may come amid the thinking
/// of a sound conversion.
proof fn lemma_tagged_run(
    p: Protocol,
    st: StreamView,
    sent: Seq<EventView>,
    blank: Seq<char>,
    raw: Seq<char>,
    rest: Seq<char>,
    events: Seq<Event>,
    future: Seq<char>,
)
    requires
        is_well_tagged(blank, raw),
        stages(st, sent, blank, raw, Seq::empty()),
        calls_come_amid_thinking(events, blank, raw),
        are_plain(events) || (protocol::good(p, st) && protocol::run_fits(st, events)),
        answer_text(events) + future == tagged(blank, raw, rest),
    ensures
        ({
            let (t, e) = protocol::run(st, events);
            &&& stages(t, sent + e, blank, raw, answer_text(events))
            &&& are_plain(events) ==> t.tools == st.tools
            &&& !are_plain(events) ==> has_calls(t)
        }),
    decreases events.len(),
{
    if events.len() == 0 {
        assert(sent + Seq::<EventView>::empty() =~= sent);
    } else {
        let front = events.drop_last();
        let last = events.last();
        let n = events.len() - 1;
        let content = answer_text(front);
        assert(events.take(n) =~= front);
        assert(is_plain(events[n]) || is_interruption(events[n], blank, raw, content));
        assert forall|i: int| 0 <= i < front.len() implies is_plain(#[trigger] front[i])
            || is_interruption(front[i], blank, raw, answer_text(front.take(i))) by {
            assert(front[i] == events[i]);
            assert(front.take(i) =~= events.take(i));
        }
        if are_plain(events) {
            assert forall|i: int| 0 <= i < front.len() implies is_plain(#[trigger] front[i]) by {
                assert(front[i] == events[i]);
            }
        }
        if is_plain(last) && are_plain(front) {
            assert forall|i: int| 0 <= i < events.len() implies is_plain(#[trigger] events[i]) by {
                if i < n {
                    assert(front[i] == events[i]);
                }
            }
        }
        assert(answer_text(events) + future =~= content + (piece(last) + future));
        lemma_tagged_run(p, st, sent, blank, raw, rest, front, piece(last) + future);
        let (s, e) = protocol::run(st, front);
        let (t, more) = stream::event_step(s, last);
        assert(sent + (e + more) =~= sent + e + more);
        if last is AssistantResponse {
            lemma_tagged_piece(s, sent + e, blank, raw, rest, content, piece(last), future);
        } else if is_plain(last) {
            lemma_counts_keep_text(s, last, content);
            assert(answer_text(events) =~= content);
            assert(sent + e + more =~= sent + e);
        } else {
            assert(piece(last) + future =~= future);
            assert(answer_text(events) =~= content);
            protocol::lemma_run_keeps(p, st, front);
            let q = protocol::replay(p, e)->0;
            lemma_interrupted(q, s, sent + e, blank, raw, rest, content, future, last);
        }
    }
}

/// The text of an answer that shows thinking: one space where it has none.
pub open spec fn shown(rest: Seq<char>) -> Seq<char> {
    if rest.len() == 0 {
        " "@
    } else {
        rest
    }
}

/// The end of an answer that showed thinking.
proof fn lemma_tagged_end(
    st: StreamView,
    sent: Seq<EventView>,
    raw: Seq<char>,
    rest: Seq<char>,
    reported: int,
)
    requires
        past_thought(st, sent, raw, rest),
        st.thinking_enabled,
        !st.reasoning_block_active,
        st.failure is None,
        stream_model::has_content(st),
    ensures
        carry(
            sent + stream_model::final_events(st, reported).1,
            if has_calls(st) {
                rest
            } else {
                shown(rest)
            },
            thinking::without_leading_newline(raw),
        ),
{
    protocol::lemma_kinds_differ();
    let e = stream_model::final_events(st, reported).1;
    reveal(stream_model::flush_at_end);
    let (s1, e1) = stream_model::complete_content(st);
    let (s2, e2) = stream_model::complete_thinking_only(st);
    assert(e1 =~= e2);
    let cut = StreamView { sse: SseView { stop_reason: Some("max_tokens"@), ..st.sse }, ..st };
    lemma_text_delta_carries(cut, " "@);
    lemma_finish_carries_nothing(s1, reported);
    let e3 = stream_model::finish_message(s1, reported).1;
    lemma_sent_concat(e1, e3);
    lemma_sent_concat(sent, e);
    lemma_sent_one(state_manager::block_stop_event(0));
    if rest.len() == 0 && !has_calls(st) {
        assert(stream_model::has_only_thinking(st));
    } else {
        let kind = if rest.len() == 0 {
            "tool_use"@
        } else {
            "text"@
        };
        let i = choose|i: int|
            0 <= i < st.sse.blocks.len() && (#[trigger] st.sse.blocks[i]).kind == kind;
        assert(st.sse.blocks[i].kind != "thinking"@);
        assert(!stream_model::has_only_thinking(st));
    }
    assert(sent_text(sent + e) =~= if has_calls(st) {
        rest
    } else {
        shown(rest)
    });
    assert(sent_thinking(sent + e) =~= thinking::without_leading_newline(raw));
}

/// Thinking that is marked in front of an answer comes apart from its text, however the answer is
/// cut into pieces: the client gets what stands between the tags, without one leading newline, as
/// thinking, and what follows the empty line as text. An answer of thinking alone gets a space as
/// its text.
pub proof fn marked_thinking_comes_apart(
    model: Seq<char>,
    input_tokens: int,
    tool_names: Map<Seq<char>, String>,
    id: Seq<char>,
    events: Seq<Event>,
    reported: int,
    blank: Seq<char>,
    raw: Seq<char>,
    rest: Seq<char>,
)
    requires
        are_plain(events),
        is_well_tagged(blank, raw),
        answer_text(events) == tagged(blank, raw, rest),
    ensures
        ({
            let st = stream_model::new_stream(model, input_tokens, true, tool_names, id);
            let all = protocol::whole_answer(st, events, reported);
            sent_thinking(all) == thinking::without_leading_newline(raw) && sent_text(all) == shown(
                rest,
            )
        }),
{
    lemma_opening();
    lemma_closing();
    let st = stream_model::new_stream(model, input_tokens, true, tool_names, id);
    lemma_beginning(model, input_tokens, true, tool_names, id);
    let (s1, e1) = stream_model::initial_events(st);
    let whole = answer_text(events);
    assert(s1.buffer =~= Seq::<char>::empty());
    assert(whole + Seq::<char>::empty() =~= whole);
    lemma_tagged_run(
        protocol::nothing_seen(),
        s1,
        e1,
        blank,
        raw,
        rest,
        events,
        Seq::empty(),
    );
    let (s2, e2) = protocol::run(s1, events);
    assert(whole.skip(blank.len() as int + 10 + raw.len() + 13) =~= rest);
    lemma_tagged_end(s2, e1 + e2, raw, rest, reported);
}

/// Thinking that tool calls interrupt goes on behind them: the client still gets all that stands
/// between the tags as thinking, and what follows the empty line as text, and no tag.
pub proof fn interrupted_thinking_goes_on(
    model: Seq<char>,
    input_tokens: int,
    tool_names: Map<Seq<char>, String>,
    id: Seq<char>,
    events: Seq<Event>,
    reported: int,
    blank: Seq<char>,
    raw: Seq<char>,
    rest: Seq<char>,
)
    requires
        calls_come_amid_thinking(events, blank, raw),
        !are_plain(events),
        is_well_tagged(blank, raw),
        answer_text(events) == tagged(blank, raw, rest),
        protocol::run_fits(
            stream_model::initial_events(
                stream_model::new_stream(model, input_tokens, true, tool_names, id),
            ).0,
            events,
        ),
    ensures
        ({
            let st = stream_model::new_stream(model, input_tokens, true, tool_names, id);
            let all = protocol::whole_answer(st, events, reported);
            sent_thinking(all) == thinking::without_leading_newline(raw) && sent_text(all) == rest
        }),
{
    lemma_opening();
    lemma_closing();
    let st = stream_model::new_stream(model, input_tokens, true, tool_names, id);
    lemma_beginning(model, input_tokens, true, tool_names, id);
    protocol::lemma_initial_keeps(model, input_tokens, true, tool_names, id);
    let (s1, e1) = stream_model::initial_events(st);
    let p = protocol::replay(protocol::nothing_seen(), e1)->0;
    let whole = answer_text(events);
    assert(s1.buffer =~= Seq::<char>::empty());
    assert(whole + Seq::<char>::empty() =~= whole);
    lemma_tagged_run(p, s1, e1, blank, raw, rest, events, Seq::empty());
    let (s2, e2) = protocol::run(s1, events);
    assert(whole.skip(blank.len() as int + 10 + raw.len() + 13) =~= rest);
    lemma_tagged_end(s2, e1 + e2, raw, rest, reported);
}

/// The extraction of thinking from a complete answer and the conversion of the same answer piece by
/// piece agree, where there is something between the tags.
pub proof fn pieces_agree_with_the_whole(
    model: Seq<char>,
    input_tokens: int,
    tool_names: Map<Seq<char>, String>,
    id: Seq<char>,
    events: Seq<Event>,
    reported: int,
    blank: Seq<char>,
    raw: Seq<char>,
    rest: Seq<char>,
)
    requires
        are_plain(events),
        is_well_tagged(blank, raw),
        thinking::without_leading_newline(raw).len() > 0,
        answer_text(events) == tagged(blank, raw, rest),
    ensures
        ({
            let st = stream_model::new_stream(model, input_tokens, true, tool_names, id);
            let all = protocol::whole_answer(st, events, reported);
            let (thought, visible) = thinking::extracted(answer_text(events));
            &&& thought == Some(sent_thinking(all))
            &&& sent_text(all) == shown(visible)
        }),
{
    marked_thinking_comes_apart(
        model,
        input_tokens,
        tool_names,
        id,
        events,
        reported,
        blank,
        raw,
        rest,
    );
    let body = raw + closing() + rest;
    assert(body[0] == raw[0]);
    encode_utf8_first_scalar(body);
    encode_utf8_first_scalar(raw);
    char_is_scalar(raw[0]);
    lemma_start_is_found(blank, body);
    lemma_end_is_found(false, raw, rest);
}

/// The events carry reasoning of the model and counts, and nothing else.
pub open spec fn are_reasoning(events: Seq<Event>) -> bool {
    forall|i: int|
        0 <= i < events.len() ==> (#[trigger] events[i]) is ReasoningContent || (is_plain(events[i])
            && events[i] !is AssistantResponse)
}

/// The reasoning of one event of the service.
pub open spec fn reasoning_piece(event: Event) -> Seq<char> {
    match event {
        Event::ReasoningContent(r) => r.text@,
        _ => Seq::empty(),
    }
}

/// The reasoning that the service sent, its pieces put together.
pub open spec fn reasoning_text(events: Seq<Event>) -> Seq<char>
    decreases events.len(),
{
    if events.len() == 0 {
        Seq::empty()
    } else {
        reasoning_text(events.drop_last()) + reasoning_piece(events.last())
    }
}

/// So far `thought` came as reasoning, all of it was sent, and no text came.
pub open spec fn reasoning_so_far(st: StreamView, sent: Seq<EventView>, thought: Seq<char>) -> bool {
    &&& protocol::sse_inv(st.sse)
    &&& st.thinking_enabled
    &&& st.failure is None
    &&& st.output_tokens >= 0
    &&& !st.in_thinking_block
    &&& st.buffer.len() == 0
    &&& st.text_block_index is None
    &&& only_thinking(st.sse)
    &&& carry(sent, Seq::empty(), thought)
    &&& st.reasoning_block_active == (thought.len() > 0)
    &&& st.native_reasoning_seen == (thought.len() > 0)
    &&& thought.len() > 0 ==> st.thinking_block_index is Some && st.output_tokens > 0
}

/// A piece of reasoning.
proof fn lemma_reasoning_piece(
    st: StreamView,
    sent: Seq<EventView>,
    thought: Seq<char>,
    more: Seq<char>,
    signature: Option<Seq<char>>,
)
    requires
        reasoning_so_far(st, sent, thought),
    ensures
        ({
            let (t, e) = stream_model::reasoning_content(st, more, signature);
            reasoning_so_far(t, sent + e, thought + more)
        }),
{
    let (t, e) = stream_model::reasoning_content(st, more, signature);
    if more.len() == 0 {
        assert(thought + more =~= thought);
        assert(sent + e =~= sent);
    } else {
        lemma_new_block(st.sse, "thinking"@, BlockHeaderView::Thinking);
        let index = t.thinking_block_index->0;
        let delta = stream_model::thinking_event(index, more);
        lemma_sent_one(delta);
        reveal(stream_model::turn_to_native);
        reveal(stream_model::open_reasoning);
        let opened = if st.reasoning_block_active {
            Seq::empty()
        } else {
            stream_model::open_block(st.sse, "thinking"@, BlockHeaderView::Thinking).1
        };
        assert(e =~= opened + seq![delta]);
        lemma_sent_concat(opened, seq![delta]);
        lemma_sent_concat(sent, e);
        assert(sent_text(sent + e) =~= Seq::empty());
        assert(sent_thinking(sent + e) =~= thought + more);
        assert forall|i: int| 0 <= i < t.sse.blocks.len() implies (
        #[trigger] t.sse.blocks[i]).kind == "thinking"@ by {
            if i < st.sse.blocks.len() {
                assert(st.sse.blocks[i].kind == "thinking"@);
            }
        }
    }
}

/// A run of pieces of reasoning.
proof fn lemma_reasoning_run(st: StreamView, sent: Seq<EventView>, events: Seq<Event>)
    requires
        reasoning_so_far(st, sent, Seq::empty()),
        are_reasoning(events),
    ensures
        ({
            let (t, e) = protocol::run(st, events);
            reasoning_so_far(t, sent + e, reasoning_text(events))
        }),
    decreases events.len(),
{
    if events.len() == 0 {
        assert(sent + Seq::<EventView>::empty() =~= sent);
    } else {
        let front = events.drop_last();
        let last = events.last();
        assert(last == events[events.len() - 1]);
        assert(are_reasoning(front)) by {
            assert forall|i: int| 0 <= i < front.len() implies (#[trigger] front[i]) is ReasoningContent
                || (is_plain(front[i]) && front[i] !is AssistantResponse) by {
                assert(front[i] == events[i]);
            }
        }
        lemma_reasoning_run(st, sent, front);
        let (s, e) = protocol::run(st, front);
        let (t, more) = stream::event_step(s, last);
        assert(sent + (e + more) =~= sent + e + more);
        match last {
            Event::ReasoningContent(r) => lemma_reasoning_piece(
                s,
                sent + e,
                reasoning_text(front),
                r.text@,
                state_manager::optional_text(r.signature),
            ),
            _ => {
                assert(reasoning_text(events) =~= reasoning_text(front));
                assert(sent + e + more =~= sent + e);
                assert(only_thinking(t.sse)) by {
                    assert(t.sse.blocks == s.sse.blocks);
                }
            },
        }
    }
}

/// Reasoning is over, or nothing but it came: `thought` was sent as thinking and `content` as
/// text.
pub open spec fn after_reasoning(
    st: StreamView,
    sent: Seq<EventView>,
    thought: Seq<char>,
    content: Seq<char>,
) -> bool {
    &&& protocol::sse_inv(st.sse)
    &&& st.thinking_enabled
    &&& st.native_reasoning_seen
    &&& st.failure is None
    &&& st.output_tokens > 0
    &&& !st.in_thinking_block
    &&& st.buffer.len() == 0
    &&& st.thinking_block_index is Some
    &&& carry(sent, content, thought)
    &&& content.len() == 0 ==> only_thinking(st.sse)
    &&& content.len() > 0 ==> has_text_block(st.sse)
}

/// A run of pieces of text behind reasoning.
proof fn lemma_text_after_reasoning(
    st: StreamView,
    sent: Seq<EventView>,
    thought: Seq<char>,
    events: Seq<Event>,
)
    requires
        after_reasoning(st, sent, thought, Seq::empty()),
        are_plain(events),
    ensures
        ({
            let (t, e) = protocol::run(st, events);
            after_reasoning(t, sent + e, thought, answer_text(events))
        }),
    decreases events.len(),
{
    if events.len() == 0 {
        assert(sent + Seq::<EventView>::empty() =~= sent);
    } else {
        let front = events.drop_last();
        let last = events.last();
        let content = answer_text(front);
        assert(is_plain(events[events.len() - 1]));
        assert(are_plain(front)) by {
            assert forall|i: int| 0 <= i < front.len() implies is_plain(#[trigger] front[i]) by {
                assert(front[i] == events[i]);
            }
        }
        lemma_text_after_reasoning(st, sent, thought, front);
        let (s, e) = protocol::run(st, front);
        let (t, more) = stream::event_step(s, last);
        assert(sent + (e + more) =~= sent + e + more);
        if last is AssistantResponse && piece(last).len() > 0 {
            let s0 = StreamView {
                output_tokens: s.output_tokens + stream_model::estimated_tokens(piece(last)),
                ..s
            };
            lemma_close_reasoning_carries(s0);
            let (s1, e1) = stream_model::close_reasoning(s0);
            lemma_text_delta_carries(s1, piece(last));
            let e2 = stream_model::text_delta(s1, piece(last)).1;
            assert(more =~= e1 + e2);
            lemma_sent_concat(e1, e2);
            lemma_sent_concat(sent + e, more);
            assert(sent_text(sent + e + more) =~= answer_text(events));
            assert(sent_thinking(sent + e + more) =~= thought);
        } else {
            assert(answer_text(events) =~= content);
            assert(sent + e + more =~= sent + e);
            assert(t.sse.blocks == s.sse.blocks);
            if content.len() > 0 {
                let i = choose|i: int|
                    0 <= i < s.sse.blocks.len() && (#[trigger] s.sse.blocks[i]).kind == "text"@;
                assert(t.sse.blocks[i].kind == "text"@);
            }
        }
    }
}

/// The reasoning of the model and the text that follows it reach the client as they are, however
/// they are cut into pieces: the reasoning as thinking, the text as text. An answer of reasoning
/// alone gets a space as its text.
pub proof fn reasoning_arrives_unchanged(
    model: Seq<char>,
    input_tokens: int,
    tool_names: Map<Seq<char>, String>,
    id: Seq<char>,
    reasoning: Seq<Event>,
    events: Seq<Event>,
    reported: int,
)
    requires
        are_reasoning(reasoning),
        are_plain(events),
        reasoning_text(reasoning).len() > 0,
    ensures
        ({
            let st = stream_model::new_stream(model, input_tokens, true, tool_names, id);
            let all = protocol::whole_answer(st, reasoning + events, reported);
            sent_thinking(all) == reasoning_text(reasoning) && sent_text(all) == shown(
                answer_text(events),
            )
        }),
{
    let st = stream_model::new_stream(model, input_tokens, true, tool_names, id);
    lemma_beginning(model, input_tokens, true, tool_names, id);
    let (s1, e1) = stream_model::initial_events(st);
    let thought = reasoning_text(reasoning);
    lemma_reasoning_run(s1, e1, reasoning);
    let (s2, e2) = protocol::run(s1, reasoning);
    lemma_text_after_reasoning(s2, e1 + e2, thought, events);
    let (s3, e3) = protocol::run(s2, events);
    lemma_run_concat(s1, reasoning, events);
    let content = answer_text(events);
    let sent = e1 + e2 + e3;
    assert(e1 + (e2 + e3) =~= sent);
    let e = stream_model::final_events(s3, reported).1;
    lemma_close_reasoning_carries(s3);
    let (s4, e4) = stream_model::close_reasoning(s3);
    reveal(stream_model::flush_at_end);
    let (s5, e5) = stream_model::complete_thinking_only(s4);
    let (s6, e6) = stream_model::complete_content(s3);
    assert(e6 =~= e4 + e5);
    let cut = StreamView { sse: SseView { stop_reason: Some("max_tokens"@), ..s4.sse }, ..s4 };
    lemma_text_delta_carries(cut, " "@);
    lemma_finish_carries_nothing(s6, reported);
    let e7 = stream_model::finish_message(s6, reported).1;
    lemma_sent_concat(e4, e5);
    lemma_sent_concat(e6, e7);
    lemma_sent_concat(sent, e);
    lemma_sent_one(state_manager::block_stop_event(0));
    protocol::lemma_kinds_differ();
    if content.len() == 0 {
        assert(stream_model::has_only_thinking(s4)) by {
            assert forall|i: int| 0 <= i < s4.sse.blocks.len() implies (
            #[trigger] s4.sse.blocks[i]).kind == "thinking"@ by {
                assert(s3.sse.blocks[i].kind == "thinking"@);
            }
        }
    } else {
        let i = choose|i: int|
            0 <= i < s3.sse.blocks.len() && (#[trigger] s3.sse.blocks[i]).kind == "text"@;
        assert(s4.sse.blocks[i].kind == s3.sse.blocks[i].kind);
        assert(!stream_model::has_only_thinking(s4));
    }
    assert(sent_text(sent + e) =~= shown(content));
    assert(sent_thinking(sent + e) =~= thought);
}

/// A run of two lists of events, one after the other.
proof fn lemma_run_concat(st: StreamView, a: Seq<Event>, b: Seq<Event>)
    ensures
        protocol::run(st, a + b).0 == protocol::run(protocol::run(st, a).0, b).0,
        protocol::run(st, a + b).1 == protocol::run(st, a).1 + protocol::run(
            protocol::run(st, a).0,
            b,
        ).1,
    decreases b.len(),
{
    if b.len() == 0 {
        assert(a + b =~= a);
        assert(protocol::run(st, a).1 + Seq::<EventView>::empty() =~= protocol::run(st, a).1);
    } else {
        lemma_run_concat(st, a, b.drop_last());
        assert((a + b).drop_last() =~= a + b.drop_last());
        assert((a + b).last() == b.last());
        assert(protocol::run(st, a + b).1 =~= protocol::run(st, a).1 + protocol::run(
            protocol::run(st, a).0,
            b,
        ).1);
    }
}

/// What an event of the service does to an answer that is held back.
pub open spec fn buffered_step(b0: BufferedView, event: Event) -> BufferedView {
    let b = stream_model::with_initial_events(b0);
    let (inner, e) = stream::event_step(b.inner, event);
    BufferedView { inner, events: b.events + e, ..b }
}

/// What a list of events of the service does to an answer that is held back.
pub open spec fn buffered_run(b: BufferedView, events: Seq<Event>) -> BufferedView
    decreases events.len(),
{
    if events.len() == 0 {
        b
    } else {
        buffered_step(buffered_run(b, events.drop_last()), events.last())
    }
}

/// An answer that is held back, of which nothing has come.
pub open spec fn new_buffered(st: StreamView, estimated_input_tokens: int) -> BufferedView {
    BufferedView {
        inner: st,
        events: Seq::empty(),
        estimated_input_tokens,
        initial_events_generated: false,
    }
}

proof fn lemma_buffered_run(st: StreamView, estimate: int, events: Seq<Event>)
    ensures
        ({
            let b = stream_model::with_initial_events(
                buffered_run(new_buffered(st, estimate), events),
            );
            let (s1, e1) = stream_model::initial_events(st);
            let (s2, e2) = protocol::run(s1, events);
            &&& b.inner == s2
            &&& b.events == e1 + e2
            &&& b.estimated_input_tokens == estimate
            &&& b.initial_events_generated
        }),
    decreases events.len(),
{
    let (s1, e1) = stream_model::initial_events(st);
    if events.len() == 0 {
        assert(Seq::<EventView>::empty() + e1 =~= e1);
        assert(e1 + Seq::<EventView>::empty() =~= e1);
    } else {
        lemma_buffered_run(st, estimate, events.drop_last());
        let (s, e) = protocol::run(s1, events.drop_last());
        let more = stream::event_step(s, events.last()).1;
        assert(e1 + e + more =~= e1 + (e + more));
    }
}

/// The size of the context that a `message_start` states which is sent last: as the service
/// reported it, else as it was estimated.
pub open spec fn final_size(st: StreamView, events: Seq<Event>, estimate: int, reported: int) -> int {
    let s1 = stream_model::initial_events(st).0;
    let s2 = protocol::run(s1, events).0;
    match stream_model::final_events(s2, reported).0.context_input_tokens {
        Some(n) => n,
        None => estimate,
    }
}

/// An answer that is held back is the same as one that is sent at once, but that its
/// `message_start` states the size of the context that is known at the end.
pub proof fn holding_back_changes_the_start_only(
    st: StreamView,
    estimate: int,
    events: Seq<Event>,
    reported: int,
)
    ensures
        stream_model::buffered_end(
            buffered_run(new_buffered(st, estimate), events),
            reported,
        ).1 == protocol::whole_answer(st, events, reported).map_values(
            |e: EventView|
                stream_model::corrected(e, final_size(st, events, estimate, reported)),
        ),
{
    lemma_buffered_run(st, estimate, events);
    let size = final_size(st, events, estimate, reported);
    let held = stream_model::buffered_end(
        buffered_run(new_buffered(st, estimate), events),
        reported,
    ).1;
    let direct = protocol::whole_answer(st, events, reported).map_values(
        |e: EventView| stream_model::corrected(e, size),
    );
    assert(held =~= direct);
}

/// An answer without output bills no cache read, whatever is reported.
pub proof fn empty_answers_bill_no_cache(st: StreamView, reported: int)
    requires
        st.output_tokens <= 0,
    ensures
        stream_model::finish_message(st, reported) == stream_model::finish_message(st, 0),
        stream_model::finish_message(st, reported).0.emitted_cache_read == Some(0int),
{
}

/// A failure that was recorded stays, whatever comes after it: the first one counts.
pub proof fn first_failure_stays(st: StreamView, event: Event)
    requires
        st.failure is Some,
    ensures
        stream::event_step(st, event).0.failure == st.failure,
{
    match event {
        Event::AssistantResponse { content } => lemma_response_keeps_failure(st, content@),
        Event::ReasoningContent(r) => {
            let s0 = StreamView {
                reasoning_signature: stream_model::kept_signature(
                    st,
                    state_manager::optional_text(r.signature),
                ),
                ..st
            };
            let s1 = StreamView {
                output_tokens: s0.output_tokens + stream_model::estimated_tokens(r.text@),
                ..s0
            };
            stream_model::lemma_turn_to_native_frame(s1);
            reveal(stream_model::open_reasoning);
        },
        Event::ToolUse(t) => lemma_tool_keeps_failure(st, event),
        _ => {},
    }
}

proof fn lemma_response_keeps_failure(st: StreamView, content: Seq<char>)
    ensures
        stream_model::assistant_response(st, content).0.failure == st.failure,
{
    let s0 = StreamView {
        output_tokens: st.output_tokens + stream_model::estimated_tokens(content),
        ..st
    };
    let s1 = stream_model::close_reasoning(s0).0;
    stream_model::lemma_text_delta_frame(s1, content);
    let s = StreamView { buffer: s1.buffer + content, ..s1 };
    lemma_scan_thinking_keeps_failure(s);
    stream_model::lemma_text_delta_frame(
        StreamView { buffer: Seq::empty(), after_quote: false, ..s },
        s.buffer,
    );
    reveal(stream_model::scan_text);
    match thinking::start_tag_after(s.after_quote, s.buffer) {
        Some(start) => {
            let before = text::text_before(s.buffer, start);
            stream_model::lemma_text_delta_frame(s, before);
            let t1 = if text::is_blank(before) {
                s
            } else {
                stream_model::text_delta(s, before).0
            };
            let index = t1.sse.next_block_index;
            let sse = stream_model::open_block(
                t1.sse,
                "thinking"@,
                BlockHeaderView::Thinking,
            ).0;
            lemma_scan_thinking_keeps_failure(
                StreamView {
                    sse,
                    in_thinking_block: true,
                    strip_newline: true,
                    buffer: text::text_from(s.buffer, start + 10),
                    after_quote: false,
                    thinking_block_index: Some(index),
                    ..t1
                },
            );
        },
        None => {
            let n = stream_model::safe_length(s.buffer, 10);
            stream_model::lemma_text_delta_frame(s, text::text_before(s.buffer, n));
        },
    }
}

proof fn lemma_scan_thinking_keeps_failure(st0: StreamView)
    ensures
        stream_model::scan_thinking(st0).0.failure == st0.failure,
{
    reveal(stream_model::scan_thinking);
    let st = stream_model::stripped(st0);
    if let Some(end) = thinking::end_tag_after(st.after_quote, st.buffer) {
        let content = text::text_before(st.buffer, end);
        stream_model::lemma_tagged_delta_frame(st, content);
        let s1 = stream_model::tagged_delta(st, content).0;
        let s2 = StreamView { in_thinking_block: false, thinking_extracted: true, ..s1 };
        stream_model::lemma_close_tagged_frame(s2);
        let s3 = stream_model::close_tagged(s2).0;
        let rest = text::text_from(st.buffer, end + 13);
        stream_model::lemma_text_delta_frame(
            StreamView { buffer: Seq::empty(), after_quote: false, ..s3 },
            rest,
        );
    } else {
        let n = stream_model::safe_length(st.buffer, 13);
        stream_model::lemma_tagged_delta_frame(st, text::text_before(st.buffer, n));
    }
}

proof fn lemma_tool_keeps_failure(st: StreamView, event: Event)
    requires
        event is ToolUse,
    ensures
        stream::event_step(st, event).0.failure == st.failure,
{
    let s1 = stream_model::close_reasoning(st).0;
    let s2 = StreamView { sse: SseView { has_tool_use: true, ..s1.sse }, ..s1 };
    stream_model::lemma_yield_thinking_frame(s2);
    let s3 = if s2.thinking_enabled && s2.in_thinking_block {
        stream_model::yield_thinking(s2).0
    } else {
        s2
    };
    stream_model::lemma_text_delta_frame(
        StreamView { buffer: Seq::empty(), after_quote: false, ..s3 },
        s3.buffer,
    );
}

} // verus!
