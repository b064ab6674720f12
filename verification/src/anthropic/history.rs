//! What holds of an event sequence over any calls of its state manager.

use vstd::prelude::*;

use crate::anthropic::sse::{DataView, EventView};
use crate::anthropic::state_manager;
use crate::anthropic::state_manager::{BlockView, SseView};
use crate::anthropic::usage;

verus! {

/// A call of the state manager that may change it or give events.
pub enum Call {
    NextIndex,
    HasToolUse(bool),
    StopReason(Seq<char>),
    MessageStart(DataView),
    BlockStart { index: int, kind: Seq<char>, data: DataView },
    BlockDelta { index: int, data: DataView },
    BlockStop { index: int },
    CloseAll,
    Finish { input: int, output: int, cache_read: int, cache_creation: int },
}

/// What a call does and gives.
pub open spec fn answer(st: SseView, call: Call) -> (SseView, Seq<EventView>) {
    match call {
        Call::NextIndex => (
            SseView { next_block_index: st.next_block_index + 1, ..st },
            Seq::empty(),
        ),
        Call::HasToolUse(has) => (SseView { has_tool_use: has, ..st }, Seq::empty()),
        Call::StopReason(reason) => (SseView { stop_reason: Some(reason), ..st }, Seq::empty()),
        Call::MessageStart(data) => (
            SseView { message_started: true, ..st },
            if st.message_started {
                Seq::empty()
            } else {
                seq![EventView { name: "message_start"@, data }]
            },
        ),
        Call::BlockStart { index, kind, data } => state_manager::block_started(
            st,
            index,
            kind,
            data,
        ),
        Call::BlockDelta { index, data } => (
            st,
            if state_manager::block_is_open(st.blocks, index) {
                seq![state_manager::block_delta_event(data)]
            } else {
                Seq::empty()
            },
        ),
        Call::BlockStop { index } => {
            let (t, e) = state_manager::block_stopped(st, index);
            (
                t,
                match e {
                    Some(event) => seq![event],
                    None => Seq::empty(),
                },
            )
        },
        Call::CloseAll => (
            SseView { blocks: state_manager::closed_blocks(st.blocks, false), ..st },
            state_manager::closing_events(st.blocks, false, true),
        ),
        Call::Finish { input, output, cache_read, cache_creation } => state_manager::message_finished(
            st,
            input,
            output,
            cache_read,
            cache_creation,
        ),
    }
}

/// The state of a new manager after some calls, and all the events that they gave.
pub open spec fn history(calls: Seq<Call>) -> (SseView, Seq<EventView>)
    decreases calls.len(),
{
    if calls.len() == 0 {
        (state_manager::nothing_sent(), Seq::empty())
    } else {
        let (st, before) = history(calls.drop_last());
        let (t, e) = answer(st, calls.last());
        (t, before + e)
    }
}

/// How often an index was asked for.
pub open spec fn index_requests(calls: Seq<Call>) -> int
    decreases calls.len(),
{
    if calls.len() == 0 {
        0
    } else {
        index_requests(calls.drop_last()) + if calls.last() is NextIndex {
            1int
        } else {
            0
        }
    }
}

/// Block indices are handed out as 0, 1, 2 and so on, whatever else is called between: the index
/// that comes next is the number of those that were handed out.
pub proof fn indices_come_in_order(calls: Seq<Call>)
    ensures
        history(calls).0.next_block_index == index_requests(calls),
    decreases calls.len(),
{
    if calls.len() > 0 {
        indices_come_in_order(calls.drop_last());
    }
}

/// The end of the message was asked for.
pub open spec fn was_finished(calls: Seq<Call>) -> bool
    decreases calls.len(),
{
    calls.len() > 0 && (was_finished(calls.drop_last()) || calls.last() is Finish)
}

/// A start of the message was asked for.
pub open spec fn was_begun(calls: Seq<Call>) -> bool
    decreases calls.len(),
{
    calls.len() > 0 && (was_begun(calls.drop_last()) || calls.last() is MessageStart)
}

/// The last reason that was set.
pub open spec fn last_reason(calls: Seq<Call>) -> Option<Seq<char>>
    decreases calls.len(),
{
    if calls.len() == 0 {
        None
    } else {
        match calls.last() {
            Call::StopReason(reason) => Some(reason),
            _ => last_reason(calls.drop_last()),
        }
    }
}

/// Whether the answer counts as one with a tool call: as it was said last, where a tool block that
/// may start says so too.
pub open spec fn counts_as_tool_use(calls: Seq<Call>) -> bool
    decreases calls.len(),
{
    if calls.len() == 0 {
        false
    } else {
        let front = calls.drop_last();
        match calls.last() {
            Call::HasToolUse(has) => has,
            Call::BlockStart { kind, .. } => counts_as_tool_use(front) || (kind == "tool_use"@
                && !was_finished(front)),
            _ => counts_as_tool_use(front),
        }
    }
}

/// What the flags of the state say of the calls.
proof fn lemma_flags(calls: Seq<Call>)
    ensures
        ({
            let st = history(calls).0;
            &&& st.message_started == was_begun(calls)
            &&& st.message_delta_sent == was_finished(calls)
            &&& st.message_ended == was_finished(calls)
            &&& st.stop_reason == last_reason(calls)
            &&& st.has_tool_use == counts_as_tool_use(calls)
        }),
    decreases calls.len(),
{
    if calls.len() > 0 {
        lemma_flags(calls.drop_last());
    }
}

/// The reason that an answer ends with is the last one that was set, whatever is known of tool
/// calls; else `tool_use`, where the answer counts as one with a tool call; else `end_turn`.
pub proof fn the_last_reason_counts(calls: Seq<Call>)
    ensures
        state_manager::final_stop_reason(history(calls).0) == (match last_reason(calls) {
            Some(reason) => reason,
            None => if counts_as_tool_use(calls) {
                "tool_use"@
            } else {
                "end_turn"@
            },
        }),
{
    lemma_flags(calls);
}

/// The last of the calls that say whether there is a tool call.
pub open spec fn last_tool_use(calls: Seq<Call>) -> Option<bool>
    decreases calls.len(),
{
    if calls.len() == 0 {
        None
    } else {
        match calls.last() {
            Call::HasToolUse(has) => Some(has),
            _ => last_tool_use(calls.drop_last()),
        }
    }
}

/// Where nothing but the two setters is called, an answer counts as one with a tool call where that
/// was said last.
pub proof fn setters_alone_decide(calls: Seq<Call>)
    requires
        forall|i: int|
            0 <= i < calls.len() ==> (#[trigger] calls[i]) is HasToolUse || calls[i] is StopReason,
    ensures
        counts_as_tool_use(calls) == (last_tool_use(calls) == Some(true)),
    decreases calls.len(),
{
    if calls.len() > 0 {
        let front = calls.drop_last();
        assert forall|i: int| 0 <= i < front.len() implies (#[trigger] front[i]) is HasToolUse
            || front[i] is StopReason by {
            assert(front[i] == calls[i]);
        }
        assert(calls[calls.len() - 1] is HasToolUse || calls[calls.len() - 1] is StopReason);
        setters_alone_decide(front);
    }
}

/// How many of the events have a property.
pub open spec fn how_many(events: Seq<EventView>, of: spec_fn(EventView) -> bool) -> nat
    decreases events.len(),
{
    if events.len() == 0 {
        0
    } else {
        how_many(events.drop_last(), of) + if of(events.last()) {
            1nat
        } else {
            0
        }
    }
}

proof fn lemma_how_many_concat(
    a: Seq<EventView>,
    b: Seq<EventView>,
    of: spec_fn(EventView) -> bool,
)
    ensures
        how_many(a + b, of) == how_many(a, of) + how_many(b, of),
    decreases b.len(),
{
    if b.len() == 0 {
        assert(a + b =~= a);
    } else {
        lemma_how_many_concat(a, b.drop_last(), of);
        assert((a + b).drop_last() =~= a + b.drop_last());
        assert((a + b).last() == b.last());
    }
}

proof fn lemma_how_many_one(e: EventView, of: spec_fn(EventView) -> bool)
    ensures
        how_many(seq![e], of) == if of(e) {
            1nat
        } else {
            0
        },
{
    reveal_with_fuel(how_many, 2);
    assert(seq![e].drop_last() =~= Seq::<EventView>::empty());
    assert(seq![e].last() == e);
}

proof fn lemma_how_many_push(events: Seq<EventView>, e: EventView, of: spec_fn(EventView) -> bool)
    ensures
        how_many(events.push(e), of) == how_many(events, of) + if of(e) {
            1nat
        } else {
            0
        },
{
    assert(events.push(e).drop_last() =~= events);
}

/// The event is the stop of block `index`.
pub open spec fn is_stop_of(index: int) -> spec_fn(EventView) -> bool {
    |e: EventView| e == state_manager::block_stop_event(index)
}

/// How many stops of block `index` are among the events.
pub open spec fn stops_of(events: Seq<EventView>, index: int) -> nat {
    how_many(events, is_stop_of(index))
}

/// How many events have the name.
pub open spec fn named(events: Seq<EventView>, name: Seq<char>) -> nat {
    how_many(events, |e: EventView| e.name == name)
}

/// The call, made in the state `st`, gave the start of block `index`.
pub open spec fn gives_start(st: SseView, call: Call, index: int) -> bool {
    match call {
        Call::BlockStart { index: i, data, .. } => {
            let e = answer(st, call).1;
            i == index && e.len() > 0 && e.last() == state_manager::block_start_event(data)
        },
        _ => false,
    }
}

/// A start of block `index` was given, and no stop of it since.
pub open spec fn is_under_way(calls: Seq<Call>, index: int) -> bool
    decreases calls.len(),
{
    if calls.len() == 0 {
        false
    } else {
        let front = calls.drop_last();
        let st = history(front).0;
        if gives_start(st, calls.last(), index) {
            true
        } else if stops_of(answer(st, calls.last()).1, index) > 0 {
            false
        } else {
            is_under_way(front, index)
        }
    }
}

/// Each block has an index of its own, and has started.
pub open spec fn is_sound(blocks: Seq<BlockView>) -> bool {
    &&& forall|i: int| 0 <= i < blocks.len() ==> (#[trigger] blocks[i]).started
    &&& forall|i: int, j: int|
        0 <= i < j < blocks.len() ==> (#[trigger] blocks[i]).index != (#[trigger] blocks[j]).index
}

/// The block `index` was stopped.
pub open spec fn is_stopped(blocks: Seq<BlockView>, index: int) -> bool {
    exists|i: int| 0 <= i < blocks.len() && (#[trigger] blocks[i]).index == index && blocks[i].stopped
}

/// The block `index` is open.
pub open spec fn is_open(blocks: Seq<BlockView>, index: int) -> bool {
    exists|i: int|
        0 <= i < blocks.len() && (#[trigger] blocks[i]).index == index && !blocks[i].stopped
}

proof fn lemma_open_is(blocks: Seq<BlockView>, index: int)
    requires
        is_sound(blocks),
    ensures
        is_open(blocks, index) == state_manager::block_is_open(blocks, index),
        is_stopped(blocks, index) == (match state_manager::block_position(blocks, index) {
            Some(at) => blocks[at].stopped,
            None => false,
        }),
        state_manager::block_position(blocks, index) matches Some(at) ==> 0 <= at < blocks.len()
            && blocks[at].index == index,
        state_manager::block_position(blocks, index) is None ==> !is_open(blocks, index)
            && !is_stopped(blocks, index),
        !(is_open(blocks, index) && is_stopped(blocks, index)),
{
    if exists|i: int| 0 <= i < blocks.len() && (#[trigger] blocks[i]).index == index {
        let i = choose|i: int| 0 <= i < blocks.len() && (#[trigger] blocks[i]).index == index;
        assert forall|j: int| 0 <= j < i implies (#[trigger] blocks[j]).index != index by {
            assert(blocks[j].index != blocks[i].index);
        }
        assert(state_manager::is_block(blocks, index, i));
        state_manager::lemma_block_position(blocks, index, i);
        assert forall|j: int| 0 <= j < blocks.len() && (#[trigger] blocks[j]).index == index implies j
            == i by {
            if j < i {
                assert(blocks[j].index != blocks[i].index);
            } else if i < j {
                assert(blocks[i].index != blocks[j].index);
            }
        }
    } else {
        state_manager::lemma_no_block_position(blocks, index);
    }
}

proof fn lemma_names()
    ensures
        "content_block_start"@ != "content_block_stop"@,
        "content_block_delta"@ != "content_block_stop"@,
        "content_block_delta"@ != "content_block_start"@,
        "message_start"@ != "content_block_stop"@,
        "message_delta"@ != "content_block_stop"@,
        "message_stop"@ != "content_block_stop"@,
        "message_start"@ != "message_delta"@,
        "message_start"@ != "message_stop"@,
        "message_delta"@ != "message_stop"@,
        "message_start"@ != "content_block_start"@,
        "message_start"@ != "content_block_delta"@,
        "message_delta"@ != "content_block_start"@,
        "message_delta"@ != "content_block_delta"@,
        "message_stop"@ != "content_block_start"@,
        "message_stop"@ != "content_block_delta"@,
{
    reveal_strlit("content_block_start");
    reveal_strlit("content_block_delta");
    reveal_strlit("content_block_stop");
    reveal_strlit("message_start");
    reveal_strlit("message_delta");
    reveal_strlit("message_stop");
    assert("content_block_start"@[14] == 's' && "content_block_delta"@[14] == 'd');
    assert("message_start"@[8] == 's' && "message_delta"@[8] == 'd');
    assert("content_block_stop"@.len() == 18);
    assert("message_stop"@.len() == 12 && "message_start"@.len() == 13);
}

/// The block `index` is one that a closing round stops.
pub open spec fn is_picked(blocks: Seq<BlockView>, only_text: bool, index: int) -> bool {
    exists|i: int|
        0 <= i < blocks.len() && (#[trigger] blocks[i]).index == index
            && state_manager::is_closed_by(blocks[i], only_text)
}

/// A closing round gives one stop for each block that it stops, and no other stop.
proof fn lemma_closing_stops(blocks: Seq<BlockView>, only_text: bool, sign: bool, index: int)
    requires
        is_sound(blocks),
    ensures
        stops_of(state_manager::closing_events(blocks, only_text, sign), index) == if is_picked(
            blocks,
            only_text,
            index,
        ) {
            1nat
        } else {
            0
        },
    decreases blocks.len(),
{
    lemma_names();
    if blocks.len() > 0 {
        let front = blocks.drop_last();
        let last = blocks.last();
        let n = blocks.len() - 1;
        assert(is_sound(front)) by {
            assert forall|i: int| 0 <= i < front.len() implies (#[trigger] front[i]).started by {
                assert(front[i] == blocks[i]);
            }
            assert forall|i: int, j: int| 0 <= i < j < front.len() implies (
            #[trigger] front[i]).index != (#[trigger] front[j]).index by {
                assert(blocks[i].index != blocks[j].index);
            }
        }
        lemma_closing_stops(front, only_text, sign, index);
        let e = state_manager::closing_events_of(last, only_text, sign);
        let sign_event = state_manager::signature_event(last.index, ""@);
        let stop = state_manager::block_stop_event(last.index);
        lemma_how_many_concat(
            state_manager::closing_events(front, only_text, sign),
            e,
            is_stop_of(index),
        );
        lemma_how_many_one(stop, is_stop_of(index));
        lemma_how_many_one(sign_event, is_stop_of(index));
        lemma_how_many_concat(seq![sign_event], seq![stop], is_stop_of(index));
        assert(seq![sign_event] + seq![stop] =~= seq![sign_event, stop]);
        assert(stops_of(e, index) == if last.index == index && state_manager::is_closed_by(
            last,
            only_text,
        ) {
            1nat
        } else {
            0
        });
        if is_picked(front, only_text, index) {
            let i = choose|i: int|
                0 <= i < front.len() && (#[trigger] front[i]).index == index
                    && state_manager::is_closed_by(front[i], only_text);
            assert(blocks[i] == front[i]);
            assert(blocks[i].index != blocks[n].index);
        }
        if is_picked(blocks, only_text, index) {
            let i = choose|i: int|
                0 <= i < blocks.len() && (#[trigger] blocks[i]).index == index
                    && state_manager::is_closed_by(blocks[i], only_text);
            if i < n {
                assert(front[i] == blocks[i]);
            }
        }
        assert(blocks[n] == last);
    }
}

/// A closing round gives deltas and stops of blocks alone.
proof fn lemma_closing_names(
    blocks: Seq<BlockView>,
    only_text: bool,
    sign: bool,
    name: Seq<char>,
)
    requires
        name != "content_block_delta"@,
        name != "content_block_stop"@,
    ensures
        named(state_manager::closing_events(blocks, only_text, sign), name) == 0,
    decreases blocks.len(),
{
    if blocks.len() > 0 {
        let of = |e: EventView| e.name == name;
        let last = blocks.last();
        let e = state_manager::closing_events_of(last, only_text, sign);
        let sign_event = state_manager::signature_event(last.index, ""@);
        let stop = state_manager::block_stop_event(last.index);
        lemma_closing_names(blocks.drop_last(), only_text, sign, name);
        lemma_how_many_concat(
            state_manager::closing_events(blocks.drop_last(), only_text, sign),
            e,
            of,
        );
        lemma_how_many_one(stop, of);
        lemma_how_many_one(sign_event, of);
        lemma_how_many_concat(seq![sign_event], seq![stop], of);
        assert(seq![sign_event] + seq![stop] =~= seq![sign_event, stop]);
    }
}

/// What a closing round does to the blocks.
proof fn lemma_closed(blocks: Seq<BlockView>, only_text: bool, index: int)
    requires
        is_sound(blocks),
    ensures
        ({
            let closed = state_manager::closed_blocks(blocks, only_text);
            &&& is_sound(closed)
            &&& is_open(closed, index) == (is_open(blocks, index) && !is_picked(
                blocks,
                only_text,
                index,
            ))
            &&& is_stopped(closed, index) == (is_stopped(blocks, index) || is_picked(
                blocks,
                only_text,
                index,
            ))
            &&& is_picked(blocks, only_text, index) ==> is_open(blocks, index)
            &&& !only_text ==> is_picked(blocks, only_text, index) == is_open(blocks, index)
        }),
{
    let closed = state_manager::closed_blocks(blocks, only_text);
    assert forall|i: int| 0 <= i < closed.len() implies (#[trigger] closed[i]).started by {
        assert(blocks[i].started);
    }
    assert forall|i: int, j: int| 0 <= i < j < closed.len() implies (#[trigger] closed[i]).index != (
    #[trigger] closed[j]).index by {
        assert(blocks[i].index != blocks[j].index);
    }
    if exists|i: int| 0 <= i < blocks.len() && (#[trigger] blocks[i]).index == index {
        let i = choose|i: int| 0 <= i < blocks.len() && (#[trigger] blocks[i]).index == index;
        assert forall|j: int| 0 <= j < blocks.len() && (#[trigger] blocks[j]).index == index implies j
            == i by {
            if j < i {
                assert(blocks[j].index != blocks[i].index);
            } else if i < j {
                assert(blocks[i].index != blocks[j].index);
            }
        }
        assert forall|j: int| 0 <= j < closed.len() && (#[trigger] closed[j]).index == index implies j
            == i by {
            assert(blocks[j].index == index);
        }
        assert(closed[i].index == index);
        assert(blocks[i].started);
    } else {
        assert forall|j: int| 0 <= j < closed.len() implies (#[trigger] closed[j]).index != index by {
            assert(blocks[j].index != index);
        }
    }
}

/// What a new block does to the blocks.
proof fn lemma_pushed(blocks: Seq<BlockView>, block: BlockView, index: int)
    requires
        is_sound(blocks),
        block.started && !block.stopped,
        state_manager::block_position(blocks, block.index) is None,
    ensures
        is_sound(blocks.push(block)),
        is_open(blocks.push(block), index) == (is_open(blocks, index) || block.index == index),
        is_stopped(blocks.push(block), index) == is_stopped(blocks, index),
{
    let t = blocks.push(block);
    let n = blocks.len() as int;
    assert forall|i: int| 0 <= i < n implies (#[trigger] blocks[i]).index != block.index by {
        if blocks[i].index == block.index {
            lemma_open_is(blocks, block.index);
            assert(is_open(blocks, block.index) || is_stopped(blocks, block.index));
        }
    }
    assert forall|i: int, j: int| 0 <= i < j < t.len() implies (#[trigger] t[i]).index != (
    #[trigger] t[j]).index by {
        assert(blocks[i].index != block.index);
        if j < n {
            assert(blocks[i].index != blocks[j].index);
        }
    }
    assert forall|i: int| 0 <= i < t.len() implies (#[trigger] t[i]).started by {
        if i < n {
            assert(blocks[i].started);
        }
    }
    assert(t[n] == block);
    if is_open(blocks, index) {
        let i = choose|i: int|
            0 <= i < n && (#[trigger] blocks[i]).index == index && !blocks[i].stopped;
        assert(t[i] == blocks[i]);
    }
    if is_stopped(blocks, index) {
        let i = choose|i: int|
            0 <= i < n && (#[trigger] blocks[i]).index == index && blocks[i].stopped;
        assert(t[i] == blocks[i]);
    }
    if is_open(t, index) && index != block.index {
        let i = choose|i: int|
            0 <= i < t.len() && (#[trigger] t[i]).index == index && !t[i].stopped;
        assert(t[i] == blocks[i]);
    }
    if is_stopped(t, index) {
        let i = choose|i: int| 0 <= i < t.len() && (#[trigger] t[i]).index == index && t[i].stopped;
        assert(t[i] == blocks[i]);
    }
}

/// What the stop of one block does to the blocks.
proof fn lemma_one_stopped(blocks: Seq<BlockView>, at: int, index: int)
    requires
        is_sound(blocks),
        0 <= at < blocks.len(),
        !blocks[at].stopped,
    ensures
        ({
            let t = blocks.update(at, blocks[at].stop());
            &&& is_sound(t)
            &&& is_open(t, index) == (is_open(blocks, index) && blocks[at].index != index)
            &&& is_stopped(t, index) == (is_stopped(blocks, index) || blocks[at].index == index)
        }),
{
    let t = blocks.update(at, blocks[at].stop());
    assert forall|i: int| 0 <= i < t.len() implies (#[trigger] t[i]).started by {
        assert(blocks[i].started);
    }
    assert forall|i: int, j: int| 0 <= i < j < t.len() implies (#[trigger] t[i]).index != (
    #[trigger] t[j]).index by {
        assert(blocks[i].index != blocks[j].index);
    }
    assert(t[at].index == blocks[at].index);
    if is_open(t, index) {
        let i = choose|i: int|
            0 <= i < t.len() && (#[trigger] t[i]).index == index && !t[i].stopped;
        assert(i != at && blocks[i] == t[i]);
        if i < at {
            assert(blocks[i].index != blocks[at].index);
        } else {
            assert(blocks[at].index != blocks[i].index);
        }
    }
    if is_open(blocks, index) && blocks[at].index != index {
        let i = choose|i: int|
            0 <= i < blocks.len() && (#[trigger] blocks[i]).index == index && !blocks[i].stopped;
        assert(t[i] == blocks[i]);
    }
    if is_stopped(t, index) {
        let i = choose|i: int| 0 <= i < t.len() && (#[trigger] t[i]).index == index && t[i].stopped;
        if i != at {
            assert(blocks[i] == t[i]);
        }
    }
    if is_stopped(blocks, index) {
        let i = choose|i: int|
            0 <= i < blocks.len() && (#[trigger] blocks[i]).index == index && blocks[i].stopped;
        assert(t[i] == blocks[i]);
    }
}

/// What a call means for block `index`.
pub open spec fn fits(st: SseView, call: Call, index: int) -> bool {
    let (t, e) = answer(st, call);
    &&& is_sound(t.blocks)
    &&& is_open(t.blocks, index) == (gives_start(st, call, index) || (is_open(st.blocks, index)
        && stops_of(e, index) == 0))
    &&& is_stopped(t.blocks, index) == (is_stopped(st.blocks, index) || stops_of(e, index) > 0)
    &&& stops_of(e, index) == if is_open(st.blocks, index) && is_stopped(t.blocks, index) {
        1nat
    } else {
        0
    }
}

proof fn lemma_start_fits(
    st: SseView,
    i: int,
    kind: Seq<char>,
    data: DataView,
    index: int,
)
    requires
        is_sound(st.blocks),
    ensures
        fits(st, Call::BlockStart { index: i, kind, data }, index),
{
    lemma_names();
    let call = Call::BlockStart { index: i, kind, data };
    let (t, e) = answer(st, call);
    lemma_open_is(st.blocks, index);
    lemma_open_is(st.blocks, i);
    let stops = state_manager::closing_events(st.blocks, true, false);
    lemma_closing_stops(st.blocks, true, false, index);
    lemma_closed(st.blocks, true, index);
    lemma_closed(st.blocks, true, i);
    let start = state_manager::block_start_event(data);
    if st.message_delta_sent || st.message_ended {
    } else {
        let tool = kind == "tool_use"@;
        let blocks = if tool {
            state_manager::closed_blocks(st.blocks, true)
        } else {
            st.blocks
        };
        let before = if tool {
            stops
        } else {
            Seq::empty()
        };
        lemma_open_is(blocks, i);
        lemma_open_is(blocks, index);
        lemma_how_many_push(before, start, is_stop_of(index));
        match state_manager::block_position(blocks, i) {
            Some(at) => {
                assert(blocks[at].started);
                assert(e == before);
                lemma_no_start_in_closing(st.blocks, data);
            },
            None => {
                let block = BlockView { index: i, kind, started: true, stopped: false };
                lemma_pushed(blocks, block, index);
                assert(e.last() == start);
            },
        }
    }
}

/// A closing round gives no start.
proof fn lemma_no_start_in_closing(blocks: Seq<BlockView>, data: DataView)
    ensures
        ({
            let e = state_manager::closing_events(blocks, true, false);
            e.len() > 0 ==> e.last() != state_manager::block_start_event(data)
        }),
    decreases blocks.len(),
{
    lemma_names();
    if blocks.len() > 0 {
        lemma_no_start_in_closing(blocks.drop_last(), data);
        let front = state_manager::closing_events(blocks.drop_last(), true, false);
        let last = state_manager::closing_events_of(blocks.last(), true, false);
        if last.len() > 0 {
            assert((front + last).last() == last.last());
        } else {
            assert(front + last =~= front);
        }
    }
}

/// Every call fits.
proof fn lemma_call_fits(st: SseView, call: Call, index: int)
    requires
        is_sound(st.blocks),
    ensures
        fits(st, call, index),
{
    lemma_names();
    let (t, e) = answer(st, call);
    let of = is_stop_of(index);
    lemma_open_is(st.blocks, index);
    match call {
        Call::BlockStart { index: i, kind, data } => {
            lemma_start_fits(st, i, kind, data, index);
        },
        Call::MessageStart(data) => {
            lemma_how_many_one(EventView { name: "message_start"@, data }, of);
        },
        Call::BlockDelta { index: i, data } => {
            lemma_how_many_one(state_manager::block_delta_event(data), of);
        },
        Call::BlockStop { index: i } => {
            lemma_open_is(st.blocks, i);
            lemma_how_many_one(state_manager::block_stop_event(i), of);
            if let Some(at) = state_manager::block_position(st.blocks, i) {
                if !st.blocks[at].stopped {
                    lemma_one_stopped(st.blocks, at, index);
                }
            }
        },
        Call::CloseAll => {
            lemma_closing_stops(st.blocks, false, true, index);
            lemma_closed(st.blocks, false, index);
        },
        Call::Finish { input, output, cache_read, cache_creation } => {
            let stops = state_manager::closing_events(st.blocks, false, false);
            lemma_closing_stops(st.blocks, false, false, index);
            lemma_closed(st.blocks, false, index);
            let delta = EventView {
                name: "message_delta"@,
                data: DataView::MessageDelta {
                    stop_reason: state_manager::final_stop_reason(st),
                    usage: usage::usage_model(input, output, cache_read, cache_creation),
                },
            };
            let end = EventView { name: "message_stop"@, data: DataView::MessageStop };
            let with_delta = if st.message_delta_sent {
                stops
            } else {
                stops.push(delta)
            };
            lemma_how_many_push(stops, delta, of);
            lemma_how_many_push(with_delta, end, of);
        },
        _ => {},
    }
}

/// The blocks are sound after any calls.
proof fn lemma_history_is_sound(calls: Seq<Call>)
    ensures
        is_sound(history(calls).0.blocks),
    decreases calls.len(),
{
    if calls.len() > 0 {
        let front = calls.drop_last();
        lemma_history_is_sound(front);
        lemma_call_fits(history(front).0, calls.last(), 0);
    }
}

/// A delta passes where its block has started and not stopped: where a start of the block was
/// given, and no stop of it since. It changes nothing.
pub proof fn deltas_pass_between_start_and_stop(calls: Seq<Call>, index: int, data: DataView)
    ensures
        ({
            let st = history(calls).0;
            &&& state_manager::block_is_open(st.blocks, index) == is_under_way(calls, index)
            &&& answer(st, Call::BlockDelta { index, data }) == (
                st,
                if is_under_way(calls, index) {
                    seq![state_manager::block_delta_event(data)]
                } else {
                    Seq::empty()
                },
            )
        }),
    decreases calls.len(),
{
    lemma_history_is_sound(calls);
    lemma_open_is(history(calls).0.blocks, index);
    if calls.len() > 0 {
        let front = calls.drop_last();
        deltas_pass_between_start_and_stop(front, index, data);
        lemma_history_is_sound(front);
        lemma_open_is(history(front).0.blocks, index);
        lemma_call_fits(history(front).0, calls.last(), index);
    }
}

/// Over any calls a block gets one stop at most, and exactly one where it has stopped.
pub proof fn blocks_stop_once(calls: Seq<Call>, index: int)
    ensures
        stops_of(history(calls).1, index) == if is_stopped(history(calls).0.blocks, index) {
            1nat
        } else {
            0
        },
    decreases calls.len(),
{
    if calls.len() > 0 {
        let front = calls.drop_last();
        let (st, before) = history(front);
        let e = answer(st, calls.last()).1;
        blocks_stop_once(front, index);
        lemma_history_is_sound(front);
        lemma_open_is(st.blocks, index);
        lemma_call_fits(st, calls.last(), index);
        lemma_history_is_sound(calls);
        lemma_open_is(history(calls).0.blocks, index);
        lemma_how_many_concat(before, e, is_stop_of(index));
    }
}

/// A block that has stopped takes no delta again, whatever is called afterwards.
pub proof fn stopped_blocks_take_nothing(
    calls: Seq<Call>,
    more: Seq<Call>,
    index: int,
    data: DataView,
)
    requires
        stops_of(history(calls).1, index) > 0,
    ensures
        answer(history(calls + more).0, Call::BlockDelta { index, data }).1 == Seq::<
            EventView,
        >::empty(),
{
    lemma_history_is_sound(calls + more);
    lemma_open_is(history(calls + more).0.blocks, index);
    blocks_stop_once(calls + more, index);
    if more.len() == 0 {
        assert(calls + more =~= calls);
    } else {
        lemma_stops_grow(calls, more, index);
    }
}

proof fn lemma_stops_grow(calls: Seq<Call>, more: Seq<Call>, index: int)
    ensures
        stops_of(history(calls + more).1, index) >= stops_of(history(calls).1, index),
    decreases more.len(),
{
    if more.len() == 0 {
        assert(calls + more =~= calls);
    } else {
        lemma_stops_grow(calls, more.drop_last(), index);
        let all = calls + more;
        assert(all.drop_last() =~= calls + more.drop_last());
        let (st, before) = history(all.drop_last());
        lemma_how_many_concat(before, answer(st, all.last()).1, is_stop_of(index));
    }
}

/// What a call gives of the events that frame a message.
proof fn lemma_frames(st: SseView, call: Call)
    ensures
        ({
            let e = answer(st, call).1;
            &&& named(e, "message_start"@) == if call is MessageStart && !st.message_started {
                1nat
            } else {
                0
            }
            &&& named(e, "message_delta"@) == if call is Finish && !st.message_delta_sent {
                1nat
            } else {
                0
            }
            &&& named(e, "message_stop"@) == if call is Finish && !st.message_ended {
                1nat
            } else {
                0
            }
        }),
{
    lemma_frame(st, call, "message_start"@);
    lemma_frame(st, call, "message_delta"@);
    lemma_frame(st, call, "message_stop"@);
    lemma_names();
}

proof fn lemma_frame(st: SseView, call: Call, name: Seq<char>)
    requires
        name == "message_start"@ || name == "message_delta"@ || name == "message_stop"@,
    ensures
        named(answer(st, call).1, name) == if call is MessageStart && !st.message_started && name
            == "message_start"@ {
            1nat
        } else if call is Finish && !st.message_delta_sent && name == "message_delta"@ {
            1nat
        } else if call is Finish && !st.message_ended && name == "message_stop"@ {
            1nat
        } else {
            0
        },
{
    lemma_names();
    let of = |e: EventView| e.name == name;
    match call {
        Call::MessageStart(data) => {
            lemma_how_many_one(EventView { name: "message_start"@, data }, of);
        },
        Call::BlockStart { index, kind, data } => {
            let stops = state_manager::closing_events(st.blocks, true, false);
            let start = state_manager::block_start_event(data);
            lemma_closing_names(st.blocks, true, false, name);
            lemma_how_many_push(stops, start, of);
            lemma_how_many_push(Seq::empty(), start, of);
        },
        Call::BlockDelta { index, data } => {
            lemma_how_many_one(state_manager::block_delta_event(data), of);
        },
        Call::BlockStop { index } => {
            lemma_how_many_one(state_manager::block_stop_event(index), of);
        },
        Call::CloseAll => {
            lemma_closing_names(st.blocks, false, true, name);
        },
        Call::Finish { input, output, cache_read, cache_creation } => {
            let stops = state_manager::closing_events(st.blocks, false, false);
            lemma_closing_names(st.blocks, false, false, name);
            let delta = EventView {
                name: "message_delta"@,
                data: DataView::MessageDelta {
                    stop_reason: state_manager::final_stop_reason(st),
                    usage: usage::usage_model(input, output, cache_read, cache_creation),
                },
            };
            let end = EventView { name: "message_stop"@, data: DataView::MessageStop };
            let with_delta = if st.message_delta_sent {
                stops
            } else {
                stops.push(delta)
            };
            lemma_how_many_push(stops, delta, of);
            lemma_how_many_push(with_delta, end, of);
        },
        _ => {},
    }
}

/// Over any calls `message_start`, `message_delta` and `message_stop` come once at most: the first
/// where it was asked for, the other two where the end was.
pub proof fn the_frame_comes_once(calls: Seq<Call>)
    ensures
        ({
            let events = history(calls).1;
            let once = |asked: bool|
                if asked {
                    1nat
                } else {
                    0
                };
            &&& named(events, "message_start"@) == once(was_begun(calls))
            &&& named(events, "message_delta"@) == once(was_finished(calls))
            &&& named(events, "message_stop"@) == once(was_finished(calls))
        }),
    decreases calls.len(),
{
    if calls.len() > 0 {
        let front = calls.drop_last();
        let (st, before) = history(front);
        let e = answer(st, calls.last()).1;
        the_frame_comes_once(front);
        lemma_flags(front);
        lemma_frames(st, calls.last());
        lemma_how_many_concat(before, e, |e: EventView| e.name == "message_start"@);
        lemma_how_many_concat(before, e, |e: EventView| e.name == "message_delta"@);
        lemma_how_many_concat(before, e, |e: EventView| e.name == "message_stop"@);
    }
}

/// A closing round without signatures gives nothing but stops of open blocks.
proof fn lemma_stops_alone(blocks: Seq<BlockView>)
    requires
        is_sound(blocks),
    ensures
        forall|k: int|
            0 <= k < state_manager::closing_events(blocks, false, false).len() ==> is_stop_of_open(
                blocks,
                #[trigger] state_manager::closing_events(blocks, false, false)[k],
            ),
    decreases blocks.len(),
{
    if blocks.len() > 0 {
        let front = blocks.drop_last();
        assert(is_sound(front)) by {
            assert forall|i: int| 0 <= i < front.len() implies (#[trigger] front[i]).started by {
                assert(front[i] == blocks[i]);
            }
            assert forall|i: int, j: int| 0 <= i < j < front.len() implies (
            #[trigger] front[i]).index != (#[trigger] front[j]).index by {
                assert(blocks[i].index != blocks[j].index);
            }
        }
        lemma_stops_alone(front);
        let before = state_manager::closing_events(front, false, false);
        let e = state_manager::closing_events(blocks, false, false);
        assert forall|k: int| 0 <= k < e.len() implies is_stop_of_open(blocks, #[trigger] e[k]) by {
            if k < before.len() {
                assert(e[k] == before[k]);
                assert(is_stop_of_open(front, before[k]));
                let i = choose|i: int|
                    0 <= i < front.len() && !(#[trigger] front[i]).stopped && before[k]
                        == state_manager::block_stop_event(front[i].index);
                assert(blocks[i] == front[i]);
            } else {
                assert(blocks[blocks.len() - 1] == blocks.last());
            }
        }
    }
}

/// The event is the stop of one of the open blocks.
pub open spec fn is_stop_of_open(blocks: Seq<BlockView>, e: EventView) -> bool {
    exists|i: int|
        0 <= i < blocks.len() && !(#[trigger] blocks[i]).stopped && e
            == state_manager::block_stop_event(blocks[i].index)
}

/// The end of an answer after any calls: one stop for each block that has started and not stopped,
/// and, the first time that the end is asked for, one `message_delta` and one `message_stop` last.
pub proof fn the_end_closes_what_is_open(
    calls: Seq<Call>,
    input: int,
    output: int,
    cache_read: int,
    cache_creation: int,
    index: int,
)
    ensures
        ({
            let st = history(calls).0;
            let e = state_manager::message_finished(
                st,
                input,
                output,
                cache_read,
                cache_creation,
            ).1;
            let stops = state_manager::closing_events(st.blocks, false, false);
            &&& forall|k: int| 0 <= k < stops.len() ==> is_stop_of_open(st.blocks, #[trigger] stops[k])
            &&& stops_of(stops, index) == if is_under_way(calls, index) {
                1nat
            } else {
                0
            }
            &&& e == if was_finished(calls) {
                stops
            } else {
                stops + seq![
                    EventView {
                        name: "message_delta"@,
                        data: DataView::MessageDelta {
                            stop_reason: state_manager::final_stop_reason(st),
                            usage: usage::usage_model(input, output, cache_read, cache_creation),
                        },
                    },
                    EventView { name: "message_stop"@, data: DataView::MessageStop },
                ]
            }
        }),
{
    let st = history(calls).0;
    lemma_history_is_sound(calls);
    lemma_flags(calls);
    lemma_stops_alone(st.blocks);
    lemma_closing_stops(st.blocks, false, false, index);
    lemma_closed(st.blocks, false, index);
    lemma_open_is(st.blocks, index);
    deltas_pass_between_start_and_stop(calls, index, DataView::MessageStop);
}

/// Asked for the end twice in a row, the manager gives nothing the second time.
pub proof fn the_end_comes_once(calls: Seq<Call>, first: Call, second: Call)
    requires
        first is Finish,
        second is Finish,
    ensures
        answer(history(calls.push(first)).0, second).1 == Seq::<EventView>::empty(),
{
    let st = history(calls).0;
    assert(calls.push(first).drop_last() =~= calls);
    lemma_history_is_sound(calls);
    if let Call::Finish { input, output, cache_read, cache_creation } = first {
        let t = state_manager::message_finished(st, input, output, cache_read, cache_creation).0;
        assert forall|i: int| 0 <= i < t.blocks.len() implies (#[trigger] t.blocks[i]).stopped by {
            assert(st.blocks[i].started);
        }
        state_manager::lemma_nothing_to_close(t.blocks);
    }
}

} // verus!
