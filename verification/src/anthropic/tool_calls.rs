//! What the client gets of a tool call that comes in pieces.

use vstd::prelude::*;

use crate::anthropic::protocol;
use crate::anthropic::protocol::Protocol;
use crate::anthropic::sse::{BlockHeaderView, DataView, DeltaView, EventView};
use crate::anthropic::state_manager;
use crate::anthropic::state_manager::{BlockView, SseView};
use crate::anthropic::stream;
use crate::anthropic::stream_model;
use crate::anthropic::stream_model::{Step, StreamView};
use crate::anthropic::thinking;
use crate::kiro::model::events::{Event, ToolUseEvent};
use crate::text;

verus! {

/// The block that an event belongs to.
pub open spec fn block_of(e: EventView) -> Option<int> {
    match e.data {
        DataView::BlockStart { index, .. } => Some(index),
        DataView::BlockDelta { index, .. } => Some(index),
        DataView::BlockStop { index } => Some(index),
        _ => None,
    }
}

/// The events that belong to block `index`, in order.
pub open spec fn for_block(events: Seq<EventView>, index: int) -> Seq<EventView>
    decreases events.len(),
{
    if events.len() == 0 {
        Seq::empty()
    } else if block_of(events.last()) == Some(index) {
        for_block(events.drop_last(), index).push(events.last())
    } else {
        for_block(events.drop_last(), index)
    }
}

/// No event belongs to block `index`.
pub open spec fn is_away(events: Seq<EventView>, index: int) -> bool {
    forall|i: int| 0 <= i < events.len() ==> block_of(#[trigger] events[i]) != Some(index)
}

proof fn lemma_for_block_concat(a: Seq<EventView>, b: Seq<EventView>, index: int)
    ensures
        for_block(a + b, index) == for_block(a, index) + for_block(b, index),
    decreases b.len(),
{
    if b.len() == 0 {
        assert(a + b =~= a);
        assert(for_block(a, index) + for_block(b, index) =~= for_block(a, index));
    } else {
        lemma_for_block_concat(a, b.drop_last(), index);
        assert((a + b).drop_last() =~= a + b.drop_last());
        assert((a + b).last() == b.last());
        assert(for_block(a + b, index) =~= for_block(a, index) + for_block(b, index));
    }
}

proof fn lemma_for_block_away(events: Seq<EventView>, index: int)
    requires
        is_away(events, index),
    ensures
        for_block(events, index) == Seq::<EventView>::empty(),
    decreases events.len(),
{
    if events.len() > 0 {
        let front = events.drop_last();
        assert forall|i: int| 0 <= i < front.len() implies block_of(#[trigger] front[i]) != Some(
            index,
        ) by {
            assert(front[i] == events[i]);
        }
        lemma_for_block_away(front, index);
        assert(block_of(events[events.len() - 1]) != Some(index));
    }
}

/// Where an event of a block comes from.
pub proof fn lemma_for_block_from(events: Seq<EventView>, index: int, i: int) -> (k: int)
    requires
        0 <= i < for_block(events, index).len(),
    ensures
        0 <= k < events.len(),
        events[k] == for_block(events, index)[i],
    decreases events.len(),
{
    let front = events.drop_last();
    if i < for_block(front, index).len() {
        let k = lemma_for_block_from(front, index, i);
        assert(front[k] == events[k]);
        k
    } else {
        events.len() - 1
    }
}

proof fn lemma_for_block_one(e: EventView, index: int)
    requires
        block_of(e) == Some(index),
    ensures
        for_block(seq![e], index) == seq![e],
{
    reveal_with_fuel(for_block, 2);
    assert(seq![e].drop_last() =~= Seq::<EventView>::empty());
    assert(for_block(seq![e], index) =~= seq![e]);
}

/// Block `index` is a tool block that has started, open or stopped as `open` says.
pub open spec fn is_tool(blocks: Seq<BlockView>, index: int, open: bool) -> bool {
    &&& match state_manager::block_position(blocks, index) {
        Some(at) => blocks[at].started && blocks[at].stopped == !open,
        None => false,
    }
    &&& forall|i: int|
        0 <= i < blocks.len() && (#[trigger] blocks[i]).index == index ==> blocks[i].kind
            == "tool_use"@
}

/// Block `index` is such a tool block, and thinking does not go there.
pub open spec fn holds_call(st: StreamView, index: int, open: bool) -> bool {
    &&& is_tool(st.sse.blocks, index, open)
    &&& 0 <= index < st.sse.next_block_index
    &&& st.thinking_block_index != Some(index)
}

/// The step leaves the tool block `index` and the known calls as they are.
pub open spec fn passes_by(st: StreamView, step: Step, index: int, open: bool) -> bool {
    &&& holds_call(step.0, index, open)
    &&& is_away(step.1, index)
    &&& step.0.tools == st.tools
}

/// Where further blocks have other indices, and block `index` has not changed, it is what it was.
proof fn lemma_still_tool(a: Seq<BlockView>, b: Seq<BlockView>, index: int, open: bool)
    requires
        is_tool(a, index, open),
        a.len() <= b.len(),
        forall|i: int|
            0 <= i < a.len() ==> (#[trigger] b[i]).index == a[i].index && b[i].kind == a[i].kind,
        forall|i: int| 0 <= i < a.len() && a[i].index == index ==> (#[trigger] b[i]) == a[i],
        forall|i: int| a.len() <= i < b.len() ==> (#[trigger] b[i]).index != index,
    ensures
        is_tool(b, index, open),
{
    let at = choose|at: int| state_manager::is_block(a, index, at);
    assert(state_manager::is_block(a, index, at));
    assert(state_manager::is_block(b, index, at)) by {
        assert(b[at].index == a[at].index);
        assert forall|j: int| 0 <= j < at implies (#[trigger] b[j]).index != index by {
            assert(a[j].index != index);
        }
    }
    state_manager::lemma_block_position(b, index, at);
    assert(b[at] == a[at]);
}

/// The round that stops the text blocks stops no tool block.
proof fn lemma_text_stops(blocks: Seq<BlockView>, index: int)
    requires
        forall|i: int|
            0 <= i < blocks.len() && (#[trigger] blocks[i]).index == index ==> blocks[i].kind
                == "tool_use"@,
    ensures
        is_away(state_manager::closing_events(blocks, true, false), index),
    decreases blocks.len(),
{
    protocol::lemma_kinds_differ();
    if blocks.len() > 0 {
        let front = blocks.drop_last();
        assert forall|i: int| 0 <= i < front.len() && (#[trigger] front[i]).index == index implies
            front[i].kind == "tool_use"@ by {
            assert(front[i] == blocks[i]);
        }
        lemma_text_stops(front, index);
        let last = blocks[blocks.len() - 1];
        assert(last.index == index ==> last.kind == "tool_use"@);
    }
}

/// The start of another block leaves a tool block as it is.
proof fn lemma_start_elsewhere(
    s: SseView,
    other: int,
    kind: Seq<char>,
    block: BlockHeaderView,
    index: int,
    open: bool,
)
    requires
        is_tool(s.blocks, index, open),
        other != index,
    ensures
        ({
            let (t, e) = state_manager::block_started(
                s,
                other,
                kind,
                stream_model::start_data(other, block),
            );
            &&& is_tool(t.blocks, index, open)
            &&& is_away(e, index)
            &&& t.next_block_index == s.next_block_index
        }),
{
    protocol::lemma_kinds_differ();
    let data = stream_model::start_data(other, block);
    let (t, e) = state_manager::block_started(s, other, kind, data);
    let closed = state_manager::closed_blocks(s.blocks, true);
    lemma_still_tool(s.blocks, closed, index, open);
    lemma_text_stops(s.blocks, index);
    let middle = if kind == "tool_use"@ {
        closed
    } else {
        s.blocks
    };
    protocol::lemma_position_is(middle, other);
    if !(s.message_delta_sent || s.message_ended) {
        lemma_still_tool(middle, t.blocks, index, open);
    }
}

/// The stop of another block leaves a tool block as it is.
proof fn lemma_stop_elsewhere(s: SseView, other: int, index: int, open: bool)
    requires
        is_tool(s.blocks, index, open),
        other != index,
    ensures
        is_tool(stream_model::stop_block(s, other).0.blocks, index, open),
        is_away(stream_model::stop_block(s, other).1, index),
        stream_model::stop_block(s, other).0.next_block_index == s.next_block_index,
{
    protocol::lemma_position_is(s.blocks, other);
    lemma_still_tool(s.blocks, stream_model::stop_block(s, other).0.blocks, index, open);
}

proof fn lemma_text_passes(st: StreamView, s: Seq<char>, index: int, open: bool)
    requires
        holds_call(st, index, open),
    ensures
        passes_by(st, stream_model::text_delta(st, s), index, open),
{
    reveal(stream_model::text_delta);
    protocol::lemma_kinds_differ();
    let next = st.sse.next_block_index;
    lemma_start_elsewhere(
        SseView { next_block_index: next + 1, ..st.sse },
        next,
        "text"@,
        BlockHeaderView::Text,
        index,
        open,
    );
}

proof fn lemma_close_reasoning_passes(st: StreamView, index: int, open: bool)
    requires
        holds_call(st, index, open),
    ensures
        passes_by(st, stream_model::close_reasoning(st), index, open),
{
    if let Some(i) = st.thinking_block_index {
        lemma_stop_elsewhere(st.sse, i, index, open);
    }
}

proof fn lemma_close_tagged_passes(st: StreamView, index: int, open: bool)
    requires
        holds_call(st, index, open),
    ensures
        passes_by(st, stream_model::close_tagged(st), index, open),
{
    reveal(stream_model::close_tagged);
    if let Some(i) = st.thinking_block_index {
        lemma_stop_elsewhere(st.sse, i, index, open);
    }
}

proof fn lemma_flush_passes(st: StreamView, index: int, open: bool)
    requires
        holds_call(st, index, open),
    ensures
        passes_by(st, stream_model::flush_as_text(st), index, open),
{
    lemma_text_passes(
        StreamView { buffer: Seq::empty(), after_quote: false, ..st },
        st.buffer,
        index,
        open,
    );
}

proof fn lemma_tagged_delta_passes(st: StreamView, s: Seq<char>, index: int, open: bool)
    requires
        holds_call(st, index, open),
    ensures
        passes_by(st, stream_model::tagged_delta(st, s), index, open),
{
    reveal(stream_model::tagged_delta);
    let next = st.sse.next_block_index;
    lemma_start_elsewhere(
        SseView { next_block_index: next + 1, ..st.sse },
        next,
        "thinking"@,
        BlockHeaderView::Thinking,
        index,
        open,
    );
}

proof fn lemma_scan_thinking_passes(st0: StreamView, index: int, open: bool)
    requires
        holds_call(st0, index, open),
    ensures
        passes_by(st0, stream_model::scan_thinking(st0), index, open),
{
    reveal(stream_model::scan_thinking);
    let st = stream_model::stripped(st0);
    if let Some(end) = thinking::end_tag_after(st.after_quote, st.buffer) {
        let content = text::text_before(st.buffer, end);
        lemma_tagged_delta_passes(st, content, index, open);
        let (s1, e1) = stream_model::tagged_delta(st, content);
        let s2 = StreamView { in_thinking_block: false, thinking_extracted: true, ..s1 };
        lemma_close_tagged_passes(s2, index, open);
        let (s3, e3) = stream_model::close_tagged(s2);
        let s4 = StreamView { buffer: text::text_from(st.buffer, end + 13), ..s3 };
        lemma_flush_passes(s4, index, open);
    } else {
        let n = stream_model::safe_length(st.buffer, 13);
        lemma_tagged_delta_passes(st, text::text_before(st.buffer, n), index, open);
    }
}

proof fn lemma_scan_text_passes(st: StreamView, index: int, open: bool)
    requires
        holds_call(st, index, open),
    ensures
        passes_by(st, stream_model::scan_text(st), index, open),
{
    reveal(stream_model::scan_text);
    match thinking::start_tag_after(st.after_quote, st.buffer) {
        Some(start) => {
            let before = text::text_before(st.buffer, start);
            lemma_text_passes(st, before, index, open);
            let (s1, e1) = if text::is_blank(before) {
                (st, Seq::empty())
            } else {
                stream_model::text_delta(st, before)
            };
            let next = s1.sse.next_block_index;
            lemma_start_elsewhere(
                SseView { next_block_index: next + 1, ..s1.sse },
                next,
                "thinking"@,
                BlockHeaderView::Thinking,
                index,
                open,
            );
            let sse = stream_model::open_block(
                s1.sse,
                "thinking"@,
                BlockHeaderView::Thinking,
            ).0;
            lemma_scan_thinking_passes(
                StreamView {
                    sse,
                    in_thinking_block: true,
                    strip_newline: true,
                    buffer: text::text_from(st.buffer, start + 10),
                    after_quote: false,
                    thinking_block_index: Some(next),
                    ..s1
                },
                index,
                open,
            );
        },
        None => {
            let n = stream_model::safe_length(st.buffer, 10);
            lemma_text_passes(st, text::text_before(st.buffer, n), index, open);
        },
    }
}

proof fn lemma_response_passes(st: StreamView, content: Seq<char>, index: int, open: bool)
    requires
        holds_call(st, index, open),
    ensures
        passes_by(st, stream_model::assistant_response(st, content), index, open),
{
    let s0 = StreamView {
        output_tokens: st.output_tokens + stream_model::estimated_tokens(content),
        ..st
    };
    lemma_close_reasoning_passes(s0, index, open);
    let s1 = stream_model::close_reasoning(s0).0;
    lemma_text_passes(s1, content, index, open);
    let s = StreamView { buffer: s1.buffer + content, ..s1 };
    lemma_scan_text_passes(s, index, open);
    lemma_scan_thinking_passes(s, index, open);
    lemma_flush_passes(s, index, open);
}

proof fn lemma_reasoning_passes(
    st0: StreamView,
    s: Seq<char>,
    signature: Option<Seq<char>>,
    index: int,
    open: bool,
)
    requires
        holds_call(st0, index, open),
    ensures
        passes_by(st0, stream_model::reasoning_content(st0, s, signature), index, open),
{
    let st = StreamView {
        reasoning_signature: stream_model::kept_signature(st0, signature),
        ..st0
    };
    let s1 = StreamView {
        output_tokens: st.output_tokens + stream_model::estimated_tokens(s),
        ..st
    };
    reveal(stream_model::turn_to_native);
    reveal(stream_model::open_reasoning);
    lemma_close_tagged_passes(
        StreamView {
            in_thinking_block: false,
            thinking_extracted: false,
            reasoning_signature: None,
            ..s1
        },
        index,
        open,
    );
    let (s2, e2) = stream_model::turn_to_native(s1);
    let next = s2.sse.next_block_index;
    lemma_start_elsewhere(
        SseView { next_block_index: next + 1, ..s2.sse },
        next,
        "thinking"@,
        BlockHeaderView::Thinking,
        index,
        open,
    );
}

proof fn lemma_end_thinking_passes(st: StreamView, index: int, open: bool)
    requires
        holds_call(st, index, open),
    ensures
        passes_by(st, stream_model::end_thinking(st), index, open),
{
    reveal(stream_model::end_thinking);
    let content = match thinking::trailing_end_tag_after(st.after_quote, st.buffer) {
        Some(end) => text::text_before(st.buffer, end),
        None => st.buffer,
    };
    lemma_tagged_delta_passes(st, content, index, open);
    let s1 = stream_model::tagged_delta(st, content).0;
    lemma_close_tagged_passes(
        StreamView { in_thinking_block: false, thinking_extracted: true, ..s1 },
        index,
        open,
    );
}

proof fn lemma_pause_thinking_passes(st0: StreamView, index: int, open: bool)
    requires
        holds_call(st0, index, open),
    ensures
        passes_by(st0, stream_model::pause_thinking(st0), index, open),
{
    reveal(stream_model::pause_thinking);
    let st = stream_model::stripped(st0);
    let content = text::text_before(st.buffer, thinking::begun_tag_offset(st.buffer));
    lemma_tagged_delta_passes(st, content, index, open);
    lemma_close_tagged_passes(stream_model::tagged_delta(st, content).0, index, open);
}

proof fn lemma_before_tool_passes(st: StreamView, index: int, open: bool)
    requires
        holds_call(st, index, open),
    ensures
        passes_by(st, stream_model::before_tool(st), index, open),
{
    lemma_close_reasoning_passes(st, index, open);
    let (s1, e1) = stream_model::close_reasoning(st);
    let s2 = StreamView { sse: SseView { has_tool_use: true, ..s1.sse }, ..s1 };
    lemma_end_thinking_passes(s2, index, open);
    lemma_pause_thinking_passes(s2, index, open);
    let (s3, e3) = if s2.thinking_enabled && s2.in_thinking_block {
        stream_model::yield_thinking(s2)
    } else {
        (s2, Seq::empty())
    };
    lemma_flush_passes(s3, index, open);
}

/// The call `id` goes into block `index`, and no other call does.
pub open spec fn is_call_in(st: StreamView, id: Seq<char>, index: int, open: bool) -> bool {
    &&& holds_call(st, index, open)
    &&& st.tools.dom().contains(id)
    &&& st.tools[id] == index
    &&& forall|other: Seq<char>| #[trigger]
        st.tools.dom().contains(other) && other != id ==> st.tools[other] != index
}

/// The events with which a piece of a call reaches the client in block `index`.
pub open spec fn piece_events(index: int, input: Seq<char>, stop: bool) -> Seq<EventView> {
    let sent = if input.len() > 0 {
        seq![
            state_manager::block_delta_event(
                stream_model::delta_data(index, DeltaView::InputJson(input)),
            ),
        ]
    } else {
        Seq::empty()
    };
    if stop {
        sent.push(state_manager::block_stop_event(index))
    } else {
        sent
    }
}

/// The event ends the call `id`.
pub open spec fn ends_call(event: Event, id: Seq<char>) -> bool {
    match event {
        Event::ToolUse(t) => t.tool_use_id@ == id && t.stop,
        _ => false,
    }
}

/// What an event of the service adds to block `index`, which is that of the call `id`.
pub open spec fn added_by(event: Event, id: Seq<char>, index: int) -> Seq<EventView> {
    match event {
        Event::ToolUse(t) => if t.tool_use_id@ == id {
            piece_events(index, t.input@, t.stop)
        } else {
            Seq::empty()
        },
        _ => Seq::empty(),
    }
}

/// The call `id` is over after these events; `over` says whether it was before them.
pub open spec fn is_over(over: bool, events: Seq<Event>, id: Seq<char>) -> bool
    decreases events.len(),
{
    if events.len() == 0 {
        over
    } else {
        is_over(over, events.drop_last(), id) || ends_call(events.last(), id)
    }
}

/// What a list of events of the service adds to block `index`, which is that of the call `id`:
/// each piece of this call in turn, up to the one that ends it.
pub open spec fn added_by_all(over: bool, events: Seq<Event>, id: Seq<char>, index: int) -> Seq<
    EventView,
>
    decreases events.len(),
{
    if events.len() == 0 {
        Seq::empty()
    } else {
        let front = events.drop_last();
        if is_over(over, front, id) {
            added_by_all(over, front, id, index)
        } else {
            added_by_all(over, front, id, index) + added_by(events.last(), id, index)
        }
    }
}

/// The arguments and the end of a piece, in the block of the call.
proof fn lemma_piece(st: StreamView, index: int, input: Seq<char>, stop: bool, open: bool)
    requires
        holds_call(st, index, open),
    ensures
        ({
            let (s1, e1) = stream_model::tool_input(st, index, input);
            let (s2, e2) = stream_model::tool_stop(s1, index, stop);
            &&& for_block(e1 + e2, index) == if open {
                piece_events(index, input, stop)
            } else {
                Seq::empty()
            }
            &&& s2.tools == st.tools
            &&& holds_call(s2, index, open && !stop)
        }),
{
    let (s1, e1) = stream_model::tool_input(st, index, input);
    let (s2, e2) = stream_model::tool_stop(s1, index, stop);
    let delta = state_manager::block_delta_event(
        stream_model::delta_data(index, DeltaView::InputJson(input)),
    );
    let end = state_manager::block_stop_event(index);
    lemma_for_block_one(delta, index);
    lemma_for_block_one(end, index);
    lemma_for_block_away(Seq::empty(), index);
    lemma_for_block_concat(e1, e2, index);
    protocol::lemma_position_is(st.sse.blocks, index);
    let at = state_manager::block_position(st.sse.blocks, index)->0;
    assert(state_manager::is_block(st.sse.blocks, index, at));
    if open && stop {
        assert(state_manager::is_block(s2.sse.blocks, index, at)) by {
            assert forall|j: int| 0 <= j < at implies (#[trigger] s2.sse.blocks[j]).index
                != index by {
                assert(st.sse.blocks[j].index != index);
            }
        }
        state_manager::lemma_block_position(s2.sse.blocks, index, at);
        assert forall|i: int|
            0 <= i < s2.sse.blocks.len() && (#[trigger] s2.sse.blocks[i]).index
                == index implies s2.sse.blocks[i].kind == "tool_use"@ by {
            assert(st.sse.blocks[i].index == index);
        }
    }
    if open {
        assert(for_block(e1 + e2, index) =~= piece_events(index, input, stop));
    } else {
        assert(for_block(e1 + e2, index) =~= Seq::<EventView>::empty());
    }
}

/// The block of another call is another one.
proof fn lemma_other_block(
    st: StreamView,
    id: Seq<char>,
    index: int,
    name: Seq<char>,
    other: Seq<char>,
    open: bool,
)
    requires
        is_call_in(st, id, index, open),
        other != id,
        st.sse.next_block_index < i32::MAX,
    ensures
        ({
            let (s, e, at) = stream_model::tool_block(st, name, other);
            at != index && is_call_in(s, id, index, open) && is_away(e, index)
        }),
{
    let (s, e, at) = stream_model::tool_block(st, name, other);
    let sse = if st.tools.dom().contains(other) {
        st.sse
    } else {
        SseView { next_block_index: at + 1, ..st.sse }
    };
    lemma_start_elsewhere(
        sse,
        at,
        "tool_use"@,
        BlockHeaderView::ToolUse { id: other, name: stream_model::shown_name(st, name) },
        index,
        open,
    );
}

/// The arguments and the end of a piece in another block pass by.
proof fn lemma_other_piece(
    st: StreamView,
    index: int,
    at: int,
    input: Seq<char>,
    stop: bool,
    open: bool,
)
    requires
        holds_call(st, index, open),
        at != index,
    ensures
        ({
            let (s1, e1) = stream_model::tool_input(st, at, input);
            let (s2, e2) = stream_model::tool_stop(s1, at, stop);
            is_away(e1, index) && passes_by(st, (s2, e2), index, open)
        }),
{
    let (s1, e1) = stream_model::tool_input(st, at, input);
    lemma_stop_elsewhere(s1.sse, at, index, open);
}

/// A piece of another call passes by.
proof fn lemma_other_call_passes(
    st: StreamView,
    id: Seq<char>,
    index: int,
    t: ToolUseEvent,
    open: bool,
)
    requires
        is_call_in(st, id, index, open),
        t.tool_use_id@ != id,
        stream::tool_use_fits(st, t),
    ensures
        ({
            let (s, e) = stream::event_step(st, Event::ToolUse(t));
            is_call_in(s, id, index, open) && is_away(e, index)
        }),
{
    lemma_before_tool_passes(st, index, open);
    stream_model::lemma_before_tool_bounds(st);
    let (s1, e1) = stream_model::before_tool(st);
    let (s2, e2, at) = stream_model::tool_block(s1, t.name@, t.tool_use_id@);
    lemma_other_block(s1, id, index, t.name@, t.tool_use_id@, open);
    lemma_other_piece(s2, index, at, t.input@, t.stop, open);
}

/// A call that is known gets no second block.
proof fn lemma_known_call(st: StreamView, id: Seq<char>, index: int, name: Seq<char>, open: bool)
    requires
        is_call_in(st, id, index, open),
    ensures
        ({
            let (s, e, at) = stream_model::tool_block(st, name, id);
            at == index && is_call_in(s, id, index, open) && is_away(e, index)
        }),
{
    protocol::lemma_kinds_differ();
    let closed = state_manager::closed_blocks(st.sse.blocks, true);
    lemma_still_tool(st.sse.blocks, closed, index, open);
    lemma_text_stops(st.sse.blocks, index);
    protocol::lemma_position_is(closed, index);
}

/// A further piece of the call.
proof fn lemma_further_piece(st: StreamView, index: int, t: ToolUseEvent, open: bool)
    requires
        is_call_in(st, t.tool_use_id@, index, open),
    ensures
        ({
            let (s, e) = stream::event_step(st, Event::ToolUse(t));
            &&& for_block(e, index) == if open {
                piece_events(index, t.input@, t.stop)
            } else {
                Seq::empty()
            }
            &&& is_call_in(s, t.tool_use_id@, index, open && !t.stop)
        }),
{
    let id = t.tool_use_id@;
    lemma_before_tool_passes(st, index, open);
    let (s1, e1) = stream_model::before_tool(st);
    let (s2, e2, at) = stream_model::tool_block(s1, t.name@, id);
    lemma_known_call(s1, id, index, t.name@, open);
    lemma_piece(s2, index, t.input@, t.stop, open);
    let (s3, e3) = stream_model::tool_input(s2, index, t.input@);
    let (s4, e4) = stream_model::tool_stop(s3, index, t.stop);
    let e = stream::event_step(st, Event::ToolUse(t)).1;
    assert(e =~= (e1 + e2) + (e3 + e4));
    lemma_for_block_away(e1 + e2, index);
    lemma_for_block_concat(e1 + e2, e3 + e4, index);
    assert(for_block(e, index) =~= for_block(e3 + e4, index));
}

/// An event adds to the block of a call what it holds of this call, as long as the call is not
/// over, and nothing more.
proof fn lemma_event_adds(st: StreamView, id: Seq<char>, index: int, event: Event, open: bool)
    requires
        is_call_in(st, id, index, open),
        stream::event_fits(st, event),
    ensures
        ({
            let (s, e) = stream::event_step(st, event);
            &&& for_block(e, index) == if open {
                added_by(event, id, index)
            } else {
                Seq::empty()
            }
            &&& is_call_in(s, id, index, open && !ends_call(event, id))
        }),
{
    let (s, e) = stream::event_step(st, event);
    match event {
        Event::AssistantResponse { content } => {
            lemma_response_passes(st, content@, index, open);
            lemma_for_block_away(e, index);
        },
        Event::ReasoningContent(r) => {
            lemma_reasoning_passes(
                st,
                r.text@,
                state_manager::optional_text(r.signature),
                index,
                open,
            );
            lemma_for_block_away(e, index);
        },
        Event::ToolUse(t) => {
            if t.tool_use_id@ == id {
                lemma_further_piece(st, index, t, open);
            } else {
                lemma_other_call_passes(st, id, index, t, open);
                lemma_for_block_away(e, index);
            }
        },
        _ => {
            lemma_for_block_away(e, index);
        },
    }
}

/// Once a call has its block, the block gets each further piece of this call in turn, up to the
/// one that ends it, and nothing else: text, thinking and other calls may come between them.
pub proof fn further_pieces_reach_the_block(
    st: StreamView,
    id: Seq<char>,
    index: int,
    events: Seq<Event>,
    over: bool,
)
    requires
        is_call_in(st, id, index, !over),
        protocol::run_fits(st, events),
    ensures
        ({
            let (s, e) = protocol::run(st, events);
            &&& for_block(e, index) == added_by_all(over, events, id, index)
            &&& is_call_in(s, id, index, !is_over(over, events, id))
        }),
    decreases events.len(),
{
    if events.len() == 0 {
        lemma_for_block_away(Seq::empty(), index);
    } else {
        let front = events.drop_last();
        further_pieces_reach_the_block(st, id, index, front, over);
        let (s, e) = protocol::run(st, front);
        let open = !is_over(over, front, id);
        lemma_event_adds(s, id, index, events.last(), open);
        let more = stream::event_step(s, events.last()).1;
        lemma_for_block_concat(e, more, index);
        assert(for_block(e + more, index) =~= added_by_all(over, events, id, index));
    }
}

/// A client that does not know a block has got no event of it.
proof fn lemma_unknown_block(p: Protocol, events: Seq<EventView>, index: int)
    requires
        protocol::replay(p, events) is Some,
        !protocol::replay(p, events)->0.blocks.dom().contains(index),
    ensures
        is_away(events, index),
    decreases events.len(),
{
    if events.len() > 0 {
        let front = events.drop_last();
        let q = protocol::replay(p, front)->0;
        assert(protocol::accept(q, events.last()) == protocol::replay(p, events));
        lemma_unknown_block(p, front, index);
        assert forall|i: int| 0 <= i < events.len() implies block_of(#[trigger] events[i]) != Some(
            index,
        ) by {
            if i < front.len() {
                assert(events[i] == front[i]);
            }
        }
    }
}

/// The event that opens the block of a call.
pub open spec fn opening_event(st: StreamView, index: int, t: ToolUseEvent) -> EventView {
    state_manager::block_start_event(
        stream_model::start_data(
            index,
            BlockHeaderView::ToolUse {
                id: t.tool_use_id@,
                name: stream_model::shown_name(st, t.name@),
            },
        ),
    )
}

/// The block that the first piece of a call opens.
proof fn lemma_new_block(p: Protocol, st: StreamView, t: ToolUseEvent)
    requires
        protocol::good(p, st),
        0 <= st.sse.next_block_index < i32::MAX,
        !st.tools.dom().contains(t.tool_use_id@),
    ensures
        ({
            let index = st.sse.next_block_index;
            let (s, e, at) = stream_model::tool_block(st, t.name@, t.tool_use_id@);
            &&& at == index
            &&& for_block(e, index) == seq![opening_event(st, index, t)]
            &&& is_call_in(s, t.tool_use_id@, index, true)
        }),
{
    protocol::lemma_kinds_differ();
    let id = t.tool_use_id@;
    let index = st.sse.next_block_index;
    let (s, e, at) = stream_model::tool_block(st, t.name@, id);
    let start = opening_event(st, index, t);
    let closed = state_manager::closed_blocks(st.sse.blocks, true);
    assert forall|i: int| 0 <= i < closed.len() implies (#[trigger] closed[i]).index < index by {
        assert(st.sse.blocks[i].index < index);
    }
    protocol::lemma_position_is(closed, index);
    let stops = state_manager::closing_events(st.sse.blocks, true, false);
    assert(e =~= stops + seq![start]);
    lemma_text_stops(st.sse.blocks, index);
    lemma_for_block_away(stops, index);
    lemma_for_block_one(start, index);
    lemma_for_block_concat(stops, seq![start], index);
    assert(for_block(e, index) =~= seq![start]);
    let blocks = s.sse.blocks;
    assert(state_manager::is_block(blocks, index, closed.len() as int));
    state_manager::lemma_block_position(blocks, index, closed.len() as int);
    assert forall|other: Seq<char>| #[trigger] s.tools.dom().contains(other) && other
        != id implies s.tools[other] != index by {
        assert(st.tools.dom().contains(other));
        assert(protocol::is_tool_block(st.sse, st.tools[other] as int));
        protocol::lemma_position_is(st.sse.blocks, st.tools[other] as int);
    }
}

/// The first piece of a call opens a block of its own, under the name that the tool is shown with,
/// and what the piece holds of the arguments follows.
pub proof fn first_piece_opens_a_block(p: Protocol, st: StreamView, t: ToolUseEvent)
    requires
        protocol::good(p, st),
        stream::tool_use_fits(st, t),
        !st.tools.dom().contains(t.tool_use_id@),
    ensures
        ({
            let (s, e) = stream::event_step(st, Event::ToolUse(t));
            let index = stream_model::before_tool(st).0.sse.next_block_index;
            &&& for_block(e, index) == seq![opening_event(st, index, t)] + piece_events(
                index,
                t.input@,
                t.stop,
            )
            &&& is_call_in(s, t.tool_use_id@, index, !t.stop)
        }),
{
    let id = t.tool_use_id@;
    let (s1, e1) = stream_model::before_tool(st);
    stream_model::lemma_before_tool_bounds(st);
    protocol::lemma_before_tool_keeps(p, st);
    let q = protocol::replay(p, e1)->0;
    let index = s1.sse.next_block_index;
    assert(!q.blocks.dom().contains(index)) by {
        protocol::lemma_position_is(s1.sse.blocks, index);
    }
    lemma_unknown_block(p, e1, index);
    let (s2, e2, at) = stream_model::tool_block(s1, t.name@, id);
    lemma_new_block(q, s1, t);
    lemma_piece(s2, index, t.input@, t.stop, true);
    let (s3, e3) = stream_model::tool_input(s2, index, t.input@);
    let (s4, e4) = stream_model::tool_stop(s3, index, t.stop);
    let e = stream::event_step(st, Event::ToolUse(t)).1;
    assert(e =~= (e1 + e2) + (e3 + e4));
    lemma_for_block_away(e1, index);
    lemma_for_block_concat(e1, e2, index);
    lemma_for_block_concat(e1 + e2, e3 + e4, index);
    assert(for_block(e, index) =~= seq![opening_event(st, index, t)] + piece_events(
        index,
        t.input@,
        t.stop,
    ));
}

/// A tool call that comes in pieces reaches the client as one block: one start, under the name
/// that the tool is shown with, then the arguments of its pieces in order, then one stop when it
/// is complete. Whatever else comes between the pieces goes elsewhere.
pub proof fn a_tool_call_is_one_block(
    p: Protocol,
    st: StreamView,
    first: ToolUseEvent,
    events: Seq<Event>,
)
    requires
        protocol::good(p, st),
        stream::tool_use_fits(st, first),
        !st.tools.dom().contains(first.tool_use_id@),
        protocol::run_fits(stream::event_step(st, Event::ToolUse(first)).0, events),
    ensures
        ({
            let (s, e) = stream::event_step(st, Event::ToolUse(first));
            let index = stream_model::before_tool(st).0.sse.next_block_index;
            for_block(e + protocol::run(s, events).1, index) == seq![
                opening_event(st, index, first),
            ] + piece_events(index, first.input@, first.stop) + added_by_all(
                first.stop,
                events,
                first.tool_use_id@,
                index,
            )
        }),
{
    let (s, e) = stream::event_step(st, Event::ToolUse(first));
    let index = stream_model::before_tool(st).0.sse.next_block_index;
    first_piece_opens_a_block(p, st, first);
    further_pieces_reach_the_block(s, first.tool_use_id@, index, events, first.stop);
    lemma_for_block_concat(e, protocol::run(s, events).1, index);
}

} // verus!
