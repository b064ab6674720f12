//! The rules of the event protocol, and the proof that every conversion keeps them.

use vstd::prelude::*;

use crate::anthropic::sse::{BlockHeaderView, DataView, DeltaView, EventView};
use crate::anthropic::state_manager;
use crate::anthropic::state_manager::{BlockView, SseView};
use crate::anthropic::stream;
use crate::anthropic::stream_model;
use crate::anthropic::stream_model::{FailureView, Step, StreamView};
use crate::anthropic::thinking;
use crate::kiro::model::events::Event;
use crate::text;

verus! {

/// What a client knows of a content block.
pub struct Phase {
    pub kind: Seq<char>,
    pub open: bool,
    pub signed: bool,
}

/// What a client knows of an answer.
pub struct Protocol {
    pub started: bool,
    pub blocks: Map<int, Phase>,
    pub delta_sent: bool,
    pub ended: bool,
}

/// Before the first event.
pub open spec fn nothing_seen() -> Protocol {
    Protocol { started: false, blocks: Map::empty(), delta_sent: false, ended: false }
}

pub open spec fn kind_of(block: BlockHeaderView) -> Seq<char> {
    match block {
        BlockHeaderView::Text => "text"@,
        BlockHeaderView::Thinking => "thinking"@,
        BlockHeaderView::ToolUse { .. } => "tool_use"@,
    }
}

/// The kind of block that a delta belongs into.
pub open spec fn kind_for(delta: DeltaView) -> Seq<char> {
    match delta {
        DeltaView::Text(_) => "text"@,
        DeltaView::InputJson(_) => "tool_use"@,
        _ => "thinking"@,
    }
}

pub open spec fn is_signature(delta: DeltaView) -> bool {
    delta is Signature || delta is PendingSignature
}

pub open spec fn all_closed(p: Protocol) -> bool {
    forall|k: int| #[trigger] p.blocks.dom().contains(k) ==> !p.blocks[k].open
}

/// Every thinking block that has been stopped was signed before.
pub open spec fn well_signed(p: Protocol) -> bool {
    forall|k: int|
        #[trigger] p.blocks.dom().contains(k) && p.blocks[k].kind == "thinking"@
            && !p.blocks[k].open ==> p.blocks[k].signed
}

/// The message may still get content.
pub open spec fn is_running(p: Protocol) -> bool {
    p.started && !p.delta_sent && !p.ended
}

/// One event of the protocol; `None` where it breaks a rule.
///
/// `message_start` comes once and first. A block has one index of its own; its deltas are of its
/// kind and lie between its start and its stop; a signature is the last delta of a thinking block.
/// `message_delta` comes once, when all blocks are stopped, and `message_stop` after it. An error
/// comes when all blocks are stopped, in place of these two. Nothing comes after the end.
pub open spec fn accept(p: Protocol, e: EventView) -> Option<Protocol> {
    match e.data {
        DataView::MessageStart { .. } => if e.name == "message_start"@ && !p.started {
            Some(Protocol { started: true, ..p })
        } else {
            None
        },
        DataView::BlockStart { index, block } => if e.name == "content_block_start"@ && is_running(p)
            && !p.blocks.dom().contains(index) {
            Some(
                Protocol {
                    blocks: p.blocks.insert(
                        index,
                        Phase { kind: kind_of(block), open: true, signed: false },
                    ),
                    ..p
                },
            )
        } else {
            None
        },
        DataView::BlockDelta { index, delta } => if e.name == "content_block_delta"@
            && p.blocks.dom().contains(index) && p.blocks[index].open && !p.blocks[index].signed
            && p.blocks[index].kind == kind_for(delta) {
            if is_signature(delta) {
                Some(
                    Protocol {
                        blocks: p.blocks.insert(index, Phase { signed: true, ..p.blocks[index] }),
                        ..p
                    },
                )
            } else {
                Some(p)
            }
        } else {
            None
        },
        DataView::BlockStop { index } => if e.name == "content_block_stop"@
            && p.blocks.dom().contains(index) && p.blocks[index].open {
            Some(
                Protocol {
                    blocks: p.blocks.insert(index, Phase { open: false, ..p.blocks[index] }),
                    ..p
                },
            )
        } else {
            None
        },
        DataView::MessageDelta { .. } => if e.name == "message_delta"@ && is_running(p) && all_closed(
            p,
        ) {
            Some(Protocol { delta_sent: true, ..p })
        } else {
            None
        },
        DataView::MessageStop => if e.name == "message_stop"@ && p.delta_sent && !p.ended {
            Some(Protocol { ended: true, ..p })
        } else {
            None
        },
        DataView::Failure { .. } => if e.name == "error"@ && is_running(p) && all_closed(p) {
            Some(Protocol { ended: true, ..p })
        } else {
            None
        },
        DataView::Payload(_) => None,
    }
}

/// A list of events; `None` where one of them breaks a rule.
pub open spec fn replay(p: Protocol, events: Seq<EventView>) -> Option<Protocol>
    decreases events.len(),
{
    if events.len() == 0 {
        Some(p)
    } else {
        match replay(p, events.drop_last()) {
            Some(q) => accept(q, events.last()),
            None => None,
        }
    }
}

pub proof fn lemma_replay_concat(p: Protocol, a: Seq<EventView>, b: Seq<EventView>)
    ensures
        replay(p, a + b) == (match replay(p, a) {
            Some(q) => replay(q, b),
            None => None,
        }),
    decreases b.len(),
{
    if b.len() == 0 {
        assert(a + b =~= a);
    } else {
        lemma_replay_concat(p, a, b.drop_last());
        assert((a + b).drop_last() =~= a + b.drop_last());
        assert((a + b).last() == b.last());
    }
}

proof fn lemma_replay_none(p: Protocol)
    ensures
        replay(p, Seq::empty()) == Some(p),
{
}

proof fn lemma_replay_one(p: Protocol, e: EventView)
    ensures
        replay(p, seq![e]) == accept(p, e),
{
    assert(seq![e].drop_last() =~= Seq::<EventView>::empty());
    assert(replay(p, seq![e].drop_last()) == Some(p));
    assert(seq![e].last() == e);
}

pub proof fn lemma_kinds_differ()
    ensures
        "text"@ != "thinking"@,
        "text"@ != "tool_use"@,
        "thinking"@ != "tool_use"@,
{
    reveal_strlit("text");
    reveal_strlit("thinking");
    reveal_strlit("tool_use");
    assert("text"@.len() == 4);
    assert("thinking"@.len() == 8);
    assert("tool_use"@.len() == 8);
    assert("thinking"@[1] == 'h');
    assert("tool_use"@[1] == 'o');
}

/// The state of a sequence that has not come to its end is sound: each block has its own index,
/// taken from the counter.
pub open spec fn sse_inv(s: SseView) -> bool {
    &&& !s.message_delta_sent && !s.message_ended
    &&& 0 <= s.next_block_index
    &&& forall|i: int, j: int|
        0 <= i < j < s.blocks.len() ==> (#[trigger] s.blocks[i]).index != (
        #[trigger] s.blocks[j]).index
    &&& forall|i: int|
        0 <= i < s.blocks.len() ==> (#[trigger] s.blocks[i]).started && s.blocks[i].index
            < s.next_block_index
}

/// The client knows the blocks as the state has them.
pub open spec fn agree(p: Protocol, s: SseView) -> bool {
    &&& forall|i: int|
        0 <= i < s.blocks.len() ==> {
            let b = #[trigger] s.blocks[i];
            &&& p.blocks.dom().contains(b.index)
            &&& p.blocks[b.index].kind == b.kind
            &&& p.blocks[b.index].open == !b.stopped
            &&& !b.stopped ==> !p.blocks[b.index].signed
        }
    &&& forall|k: int| #[trigger]
        p.blocks.dom().contains(k) ==> state_manager::block_position(s.blocks, k) is Some
}

/// State and client agree on a message that is running.
pub open spec fn running(p: Protocol, s: SseView) -> bool {
    &&& sse_inv(s)
    &&& agree(p, s)
    &&& is_running(p)
    &&& s.message_started && !s.message_delta_sent && !s.message_ended
}

/// Block `index` is open and holds thinking.
pub open spec fn is_open_thinking(s: SseView, index: Option<int>) -> bool {
    index matches Some(i) && state_manager::block_is_open_of_type(s.blocks, i, "thinking"@)
}

/// Block `index` belongs to a tool call.
pub open spec fn is_tool_block(s: SseView, index: int) -> bool {
    match state_manager::block_position(s.blocks, index) {
        Some(at) => s.blocks[at].kind == "tool_use"@,
        None => false,
    }
}

/// Nothing but the thinking block `index` is open among the thinking blocks.
pub open spec fn only_open_thinking(s: SseView, index: Option<int>) -> bool {
    forall|i: int|
        0 <= i < s.blocks.len() && (#[trigger] s.blocks[i]).is_open() && s.blocks[i].kind
            == "thinking"@ ==> index == Some(s.blocks[i].index)
}

/// The thinking block that is open, where one is.
pub open spec fn open_thinking(st: StreamView) -> Option<int> {
    if st.in_thinking_block || st.reasoning_block_active {
        st.thinking_block_index
    } else {
        None
    }
}

/// The conversion is sound: in reasoning the thinking block is open, in thinking between tags it is
/// open where there is one, no other thinking is open, and what is recorded as the block of a tool
/// call is one.
pub open spec fn stream_inv(st: StreamView) -> bool {
    &&& st.in_thinking_block ==> st.thinking_enabled && !st.native_reasoning_seen
    &&& st.in_thinking_block && st.thinking_block_index is Some ==> is_open_thinking(
        st.sse,
        st.thinking_block_index,
    )
    &&& st.reasoning_block_active ==> st.native_reasoning_seen && is_open_thinking(
        st.sse,
        st.thinking_block_index,
    )
    &&& only_open_thinking(st.sse, open_thinking(st))
    &&& st.thinking_block_index matches Some(i) ==> i < st.sse.next_block_index
    &&& forall|id: Seq<char>| #[trigger]
        st.tools.dom().contains(id) ==> is_tool_block(st.sse, st.tools[id] as int)
}

/// A conversion that is running, and what the client knows of it.
pub open spec fn good(p: Protocol, st: StreamView) -> bool {
    running(p, st.sse) && well_signed(p) && stream_inv(st)
}

/// The client accepts the events of a step, and the conversion runs on soundly.
pub open spec fn keeps(p: Protocol, step: Step) -> bool {
    match replay(p, step.1) {
        Some(q) => good(q, step.0),
        None => false,
    }
}

proof fn lemma_position_of(blocks: Seq<BlockView>, at: int)
    requires
        0 <= at < blocks.len(),
        forall|i: int, j: int|
            0 <= i < j < blocks.len() ==> (#[trigger] blocks[i]).index != (#[trigger] blocks[j]).index,
    ensures
        state_manager::block_position(blocks, blocks[at].index) == Some(at),
{
    assert(state_manager::is_block(blocks, blocks[at].index, at));
    state_manager::lemma_block_position(blocks, blocks[at].index, at);
}

pub proof fn lemma_position_is(blocks: Seq<BlockView>, index: int)
    ensures
        state_manager::block_position(blocks, index) matches Some(at) ==> 0 <= at < blocks.len()
            && blocks[at].index == index,
{
    if exists|at: int| state_manager::is_block(blocks, index, at) {
        let at = choose|at: int| state_manager::is_block(blocks, index, at);
        assert(state_manager::is_block(blocks, index, at));
    }
}

/// An index that the counter has not given out yet belongs to no block.
proof fn lemma_fresh(p: Protocol, s: SseView)
    requires
        sse_inv(s),
        agree(p, s),
    ensures
        !p.blocks.dom().contains(s.next_block_index),
        state_manager::block_position(s.blocks, s.next_block_index) is None,
{
    assert forall|j: int| 0 <= j < s.blocks.len() implies (#[trigger] s.blocks[j]).index
        != s.next_block_index by {}
    state_manager::lemma_no_block_position(s.blocks, s.next_block_index);
}

/// The blocks of `s` are blocks of `t` too, with the same index and kind; thinking blocks are
/// open in both or in neither.
pub open spec fn carries_over(s: SseView, t: SseView) -> bool {
    &&& s.blocks.len() <= t.blocks.len()
    &&& forall|i: int|
        0 <= i < s.blocks.len() ==> {
            let a = #[trigger] s.blocks[i];
            let b = t.blocks[i];
            &&& a.index == b.index
            &&& a.kind == b.kind
            &&& a.kind == "thinking"@ ==> a == b
        }
}

/// The blocks that `t` has beyond those of `s` hold no thinking.
pub open spec fn adds_no_thinking(s: SseView, t: SseView) -> bool {
    forall|i: int| s.blocks.len() <= i < t.blocks.len() ==> (#[trigger] t.blocks[i]).kind != "thinking"@
}

proof fn lemma_carries_over(s: SseView, t: SseView)
    requires
        sse_inv(s),
        sse_inv(t),
        carries_over(s, t),
    ensures
        forall|index: Option<int>| #[trigger]
            is_open_thinking(s, index) ==> is_open_thinking(t, index),
        forall|k: int| #[trigger] is_tool_block(s, k) ==> is_tool_block(t, k),
        adds_no_thinking(s, t) ==> forall|index: Option<int>| #[trigger]
            only_open_thinking(s, index) ==> only_open_thinking(t, index),
{
    if adds_no_thinking(s, t) {
        assert forall|index: Option<int>| #[trigger] only_open_thinking(s, index) implies
            only_open_thinking(t, index) by {
            assert forall|i: int|
                0 <= i < t.blocks.len() && (#[trigger] t.blocks[i]).is_open() && t.blocks[i].kind
                    == "thinking"@ implies index == Some(t.blocks[i].index) by {
                assert(i < s.blocks.len());
                assert(s.blocks[i].kind == "thinking"@);
            }
        }
    }
    assert forall|index: Option<int>| #[trigger] is_open_thinking(s, index) implies is_open_thinking(
        t,
        index,
    ) by {
        let k = index->0;
        lemma_position_is(s.blocks, k);
        let at = state_manager::block_position(s.blocks, k)->0;
        assert(s.blocks[at].index == t.blocks[at].index);
        lemma_position_of(t.blocks, at);
    }
    assert forall|k: int| #[trigger] is_tool_block(s, k) implies is_tool_block(t, k) by {
        lemma_position_is(s.blocks, k);
        let at = state_manager::block_position(s.blocks, k)->0;
        assert(s.blocks[at].index == t.blocks[at].index);
        lemma_position_of(t.blocks, at);
    }
}

/// Starting a block of text or thinking.
proof fn lemma_open_block(p: Protocol, s: SseView, block: BlockHeaderView)
    requires
        running(p, s),
        block !is ToolUse,
    ensures
        ({
            let (t, e) = stream_model::open_block(s, kind_of(block), block);
            &&& replay(p, e) matches Some(q) && running(q, t) && (well_signed(p) ==> well_signed(q))
            &&& carries_over(s, t)
            &&& t.blocks == s.blocks.push(
                BlockView {
                    index: s.next_block_index,
                    kind: kind_of(block),
                    started: true,
                    stopped: false,
                },
            )
        }),
{
    lemma_kinds_differ();
    lemma_fresh(p, s);
    let index = s.next_block_index;
    let (t, e) = stream_model::open_block(s, kind_of(block), block);
    let event = state_manager::block_start_event(stream_model::start_data(index, block));
    assert(e =~= seq![event]);
    lemma_replay_one(p, event);
    let q = accept(p, event)->0;
    assert(accept(p, event) is Some);
    assert(sse_inv(t)) by {
        assert forall|i: int, j: int| 0 <= i < j < t.blocks.len() implies (#[trigger] t.blocks[i]).index
            != (#[trigger] t.blocks[j]).index by {
            if j < s.blocks.len() {
                assert(s.blocks[i].index != s.blocks[j].index);
            } else {
                assert(s.blocks[i].index < index);
            }
        }
        assert forall|i: int| 0 <= i < t.blocks.len() implies (#[trigger] t.blocks[i]).started
            && t.blocks[i].index < t.next_block_index by {
            if i < s.blocks.len() {
                assert(s.blocks[i].started);
            }
        }
    }
    assert(agree(q, t)) by {
        assert forall|i: int| 0 <= i < t.blocks.len() implies ({
            let b = #[trigger] t.blocks[i];
            &&& q.blocks.dom().contains(b.index)
            &&& q.blocks[b.index].kind == b.kind
            &&& q.blocks[b.index].open == !b.stopped
            &&& !b.stopped ==> !q.blocks[b.index].signed
        }) by {
            if i < s.blocks.len() {
                assert(s.blocks[i] == t.blocks[i]);
                assert(s.blocks[i].index < index);
            }
        }
        assert forall|k: int| #[trigger] q.blocks.dom().contains(k) implies
            state_manager::block_position(t.blocks, k) is Some by {
            if k == index {
                lemma_position_of(t.blocks, s.blocks.len() as int);
            } else {
                assert(p.blocks.dom().contains(k));
                lemma_position_is(s.blocks, k);
                let at = state_manager::block_position(s.blocks, k)->0;
                assert(t.blocks[at] == s.blocks[at]);
                lemma_position_of(t.blocks, at);
            }
        }
    }
    if well_signed(p) {
        assert forall|k: int| #[trigger] q.blocks.dom().contains(k) && q.blocks[k].kind
            == "thinking"@ && !q.blocks[k].open implies q.blocks[k].signed by {
            if k != index {
                assert(p.blocks.dom().contains(k));
            }
        }
    }
}

/// A delta that is no signature, into an open block of its kind.
proof fn lemma_delta(p: Protocol, s: SseView, index: int, delta: DeltaView)
    requires
        running(p, s),
        state_manager::block_is_open_of_type(s.blocks, index, kind_for(delta)),
        !is_signature(delta),
    ensures
        replay(
            p,
            seq![state_manager::block_delta_event(stream_model::delta_data(index, delta))],
        ) == Some(p),
{
    lemma_position_is(s.blocks, index);
    let at = state_manager::block_position(s.blocks, index)->0;
    assert(s.blocks[at].index == index);
    lemma_replay_one(
        p,
        state_manager::block_delta_event(stream_model::delta_data(index, delta)),
    );
}

/// The state after the block at `at` stops.
pub open spec fn with_stopped(s: SseView, at: int) -> SseView {
    SseView { blocks: s.blocks.update(at, s.blocks[at].stop()), ..s }
}

/// The events that stop a block, after a signature where one is given.
pub open spec fn stopping_events(index: int, sign: Option<DeltaView>) -> Seq<EventView> {
    match sign {
        Some(d) => seq![
            state_manager::block_delta_event(stream_model::delta_data(index, d)),
            state_manager::block_stop_event(index),
        ],
        None => seq![state_manager::block_stop_event(index)],
    }
}

/// Stopping an open block.
proof fn lemma_stop(p: Protocol, s: SseView, at: int, sign: Option<DeltaView>)
    requires
        running(p, s),
        0 <= at < s.blocks.len(),
        s.blocks[at].is_open(),
        sign matches Some(d) ==> is_signature(d) && s.blocks[at].kind == "thinking"@,
    ensures
        replay(p, stopping_events(s.blocks[at].index, sign)) matches Some(q) && running(
            q,
            with_stopped(s, at),
        ) && (well_signed(p) && (s.blocks[at].kind == "thinking"@ ==> sign is Some) ==> well_signed(
            q,
        )),
{
    let b = s.blocks[at];
    let k = b.index;
    let t = with_stopped(s, at);
    let stop = state_manager::block_stop_event(k);
    let e = stopping_events(k, sign);
    let p1 = match sign {
        Some(d) => Protocol {
            blocks: p.blocks.insert(k, Phase { signed: true, ..p.blocks[k] }),
            ..p
        },
        None => p,
    };
    let q = Protocol { blocks: p1.blocks.insert(k, Phase { open: false, ..p1.blocks[k] }), ..p1 };
    assert(replay(p, e) == Some(q)) by {
        match sign {
            Some(d) => {
                let delta = state_manager::block_delta_event(stream_model::delta_data(k, d));
                assert(e =~= seq![delta] + seq![stop]);
                lemma_replay_concat(p, seq![delta], seq![stop]);
                lemma_replay_one(p, delta);
                lemma_replay_one(p1, stop);
            },
            None => {
                lemma_replay_one(p, stop);
            },
        }
    }
    assert(sse_inv(t)) by {
        assert forall|i: int, j: int| 0 <= i < j < t.blocks.len() implies (#[trigger] t.blocks[i]).index
            != (#[trigger] t.blocks[j]).index by {
            assert(s.blocks[i].index != s.blocks[j].index);
        }
        assert forall|i: int| 0 <= i < t.blocks.len() implies (#[trigger] t.blocks[i]).started
            && t.blocks[i].index < t.next_block_index by {
            assert(s.blocks[i].started);
        }
    }
    assert(agree(q, t)) by {
        assert forall|i: int| 0 <= i < t.blocks.len() implies ({
            let c = #[trigger] t.blocks[i];
            &&& q.blocks.dom().contains(c.index)
            &&& q.blocks[c.index].kind == c.kind
            &&& q.blocks[c.index].open == !c.stopped
            &&& !c.stopped ==> !q.blocks[c.index].signed
        }) by {
            if i < at {
                assert(s.blocks[i].index != s.blocks[at].index);
            } else if i > at {
                assert(s.blocks[at].index != s.blocks[i].index);
            }
        }
        assert forall|j: int| #[trigger] q.blocks.dom().contains(j) implies
            state_manager::block_position(t.blocks, j) is Some by {
            assert(p.blocks.dom().contains(j));
            lemma_position_is(s.blocks, j);
            let pos = state_manager::block_position(s.blocks, j)->0;
            assert(t.blocks[pos].index == j);
            lemma_position_of(t.blocks, pos);
        }
    }
    if well_signed(p) && (b.kind == "thinking"@ ==> sign is Some) {
        assert forall|j: int| #[trigger] q.blocks.dom().contains(j) && q.blocks[j].kind
            == "thinking"@ && !q.blocks[j].open implies q.blocks[j].signed by {
            assert(p.blocks.dom().contains(j));
        }
    }
}

/// Some block that a closing round stops without a signature holds thinking.
pub open spec fn stops_unsigned(s: SseView, only_text: bool, sign: bool) -> bool {
    !only_text && !sign && exists|i: int|
        0 <= i < s.blocks.len() && (#[trigger] s.blocks[i]).is_open() && s.blocks[i].kind
            == "thinking"@
}

/// The state in which a closing round has passed the first `n` blocks.
pub open spec fn partly_closed(s: SseView, only_text: bool, n: int) -> SseView {
    SseView {
        blocks: Seq::new(
            s.blocks.len(),
            |i: int|
                if i < n {
                    state_manager::closed_blocks(s.blocks, only_text)[i]
                } else {
                    s.blocks[i]
                },
        ),
        ..s
    }
}

proof fn lemma_closing_round(p: Protocol, s: SseView, only_text: bool, sign: bool, n: int)
    requires
        running(p, s),
        0 <= n <= s.blocks.len(),
    ensures
        replay(
            p,
            state_manager::closing_events(s.blocks.take(n), only_text, sign),
        ) matches Some(q) && running(q, partly_closed(s, only_text, n)) && (well_signed(p)
            && !stops_unsigned(s, only_text, sign) ==> well_signed(q)),
    decreases n,
{
    lemma_kinds_differ();
    if n == 0 {
        assert(s.blocks.take(0) =~= Seq::<BlockView>::empty());
        assert(state_manager::closing_events(s.blocks.take(0), only_text, sign) =~= Seq::<
            EventView,
        >::empty());
        assert(partly_closed(s, only_text, 0).blocks =~= s.blocks);
    } else {
        lemma_closing_round(p, s, only_text, sign, n - 1);
        let front = state_manager::closing_events(s.blocks.take(n - 1), only_text, sign);
        let q = replay(p, front)->0;
        let mid = partly_closed(s, only_text, n - 1);
        let b = s.blocks[n - 1];
        let more = state_manager::closing_events_of(b, only_text, sign);
        assert(s.blocks.take(n).drop_last() =~= s.blocks.take(n - 1));
        assert(s.blocks.take(n).last() == b);
        lemma_replay_concat(p, front, more);
        assert(mid.blocks[n - 1] == b);
        if state_manager::is_closed_by(b, only_text) {
            if sign && b.kind == "thinking"@ {
                lemma_stop(q, mid, n - 1, Some(DeltaView::Signature(""@)));
                assert(more =~= stopping_events(b.index, Some(DeltaView::Signature(""@))));
            } else {
                lemma_stop(q, mid, n - 1, None);
                assert(more =~= stopping_events(b.index, None));
                if b.kind == "thinking"@ {
                    assert(s.blocks[n - 1].is_open());
                    assert(stops_unsigned(s, only_text, sign));
                }
            }
            assert(with_stopped(mid, n - 1).blocks =~= partly_closed(s, only_text, n).blocks);
        } else {
            lemma_replay_none(q);
            assert(more =~= Seq::<EventView>::empty());
            assert(mid.blocks =~= partly_closed(s, only_text, n).blocks);
        }
    }
}

/// A closing round.
proof fn lemma_closing(p: Protocol, s: SseView, only_text: bool, sign: bool)
    requires
        running(p, s),
    ensures
        replay(p, state_manager::closing_events(s.blocks, only_text, sign)) matches Some(q)
            && running(
            q,
            SseView { blocks: state_manager::closed_blocks(s.blocks, only_text), ..s },
        ) && (well_signed(p) && !stops_unsigned(s, only_text, sign) ==> well_signed(q)) && (
        !only_text ==> all_closed(q)),
        only_text ==> carries_over(
            s,
            SseView { blocks: state_manager::closed_blocks(s.blocks, only_text), ..s },
        ),
{
    lemma_kinds_differ();
    let n = s.blocks.len() as int;
    lemma_closing_round(p, s, only_text, sign, n);
    assert(s.blocks.take(n) =~= s.blocks);
    let t = SseView { blocks: state_manager::closed_blocks(s.blocks, only_text), ..s };
    assert(partly_closed(s, only_text, n).blocks =~= t.blocks);
    let q = replay(p, state_manager::closing_events(s.blocks, only_text, sign))->0;
    if !only_text {
        assert forall|k: int| #[trigger] q.blocks.dom().contains(k) implies !q.blocks[k].open by {
            lemma_position_is(t.blocks, k);
            let at = state_manager::block_position(t.blocks, k)->0;
            assert(t.blocks[at].index == k);
            assert(s.blocks[at].started);
        }
    }
}

/// One step after another.
proof fn lemma_then(p: Protocol, first: Step, second: Step)
    requires
        replay(p, first.1) is Some,
        keeps(replay(p, first.1)->0, second),
    ensures
        keeps(p, (second.0, first.1 + second.1)),
{
    lemma_replay_concat(p, first.1, second.1);
}

proof fn lemma_empty_step(p: Protocol, st: StreamView)
    requires
        good(p, st),
    ensures
        keeps(p, (st, Seq::empty())),
{
    lemma_replay_none(p);
}

/// Text keeps the protocol.
proof fn lemma_text_delta_keeps(p: Protocol, st: StreamView, s: Seq<char>)
    requires
        good(p, st),
    ensures
        keeps(p, stream_model::text_delta(st, s)),
        carries_over(st.sse, stream_model::text_delta(st, s).0.sse),
{
    reveal(stream_model::text_delta);
    lemma_kinds_differ();
    let (t, e) = stream_model::text_delta(st, s);
    let reuse = match st.text_block_index {
        Some(i) => state_manager::block_is_open_of_type(st.sse.blocks, i, "text"@),
        None => false,
    };
    if reuse {
        let index = st.text_block_index->0;
        lemma_delta(p, st.sse, index, DeltaView::Text(s));
        assert(e =~= seq![
            state_manager::block_delta_event(
                stream_model::delta_data(index, DeltaView::Text(s)),
            ),
        ]);
        assert(t.sse == st.sse);
    } else {
        let index = st.sse.next_block_index;
        let (sse, opened) = stream_model::open_block(st.sse, "text"@, BlockHeaderView::Text);
        lemma_open_block(p, st.sse, BlockHeaderView::Text);
        let q = replay(p, opened)->0;
        lemma_position_of(sse.blocks, st.sse.blocks.len() as int);
        lemma_delta(q, sse, index, DeltaView::Text(s));
        let sent = seq![
            state_manager::block_delta_event(
                stream_model::delta_data(index, DeltaView::Text(s)),
            ),
        ];
        assert(e =~= opened + sent);
        lemma_replay_concat(p, opened, sent);
        lemma_carries_over(st.sse, sse);
    }
}

/// Thinking keeps the protocol while the thinking block is open.
proof fn lemma_thinking_delta_keeps(p: Protocol, st: StreamView, s: Seq<char>)
    requires
        good(p, st),
        is_open_thinking(st.sse, st.thinking_block_index),
    ensures
        keeps(p, stream_model::thinking_delta(st, s)),
        replay(p, stream_model::thinking_delta(st, s).1) == Some(p),
{
    let index = st.thinking_block_index->0;
    lemma_delta(p, st.sse, index, DeltaView::Thinking(s));
    assert(stream_model::thinking_delta(st, s).1 =~= seq![
        state_manager::block_delta_event(
            stream_model::delta_data(index, DeltaView::Thinking(s)),
        ),
    ]);
}

/// Stopping a block makes no tool block another kind of block.
proof fn lemma_tools_after_stop(s: SseView, at: int)
    requires
        sse_inv(s),
        sse_inv(with_stopped(s, at)),
        0 <= at < s.blocks.len(),
    ensures
        forall|k: int| #[trigger] is_tool_block(s, k) ==> is_tool_block(with_stopped(s, at), k),
{
    let t = with_stopped(s, at);
    assert forall|k: int| #[trigger] is_tool_block(s, k) implies is_tool_block(t, k) by {
        lemma_position_is(s.blocks, k);
        let pos = state_manager::block_position(s.blocks, k)->0;
        assert(t.blocks[pos].index == k);
        lemma_position_of(t.blocks, pos);
    }
}

/// After the stop of its block no thinking is open that was not open before.
proof fn lemma_stop_leaves_none(s: SseView, index: int)
    requires
        sse_inv(s),
        is_open_thinking(s, Some(index)),
    ensures
        only_open_thinking(s, Some(index)) ==> only_open_thinking(
            stream_model::stop_block(s, index).0,
            None,
        ),
{
    lemma_position_is(s.blocks, index);
    let at = state_manager::block_position(s.blocks, index)->0;
    let t = stream_model::stop_block(s, index).0;
    assert(t == with_stopped(s, at));
    if only_open_thinking(s, Some(index)) {
        assert forall|i: int|
            0 <= i < t.blocks.len() && (#[trigger] t.blocks[i]).is_open() && t.blocks[i].kind
                == "thinking"@ implies None::<int> == Some(t.blocks[i].index) by {
            if i != at {
                assert(s.blocks[i].is_open());
                assert(s.blocks[i].index == index);
                if i < at {
                    assert(s.blocks[i].index != s.blocks[at].index);
                } else {
                    assert(s.blocks[at].index != s.blocks[i].index);
                }
            }
        }
    }
}

/// The end of the open thinking block, with its signature, keeps the protocol.
proof fn lemma_sign_and_stop(p: Protocol, st: StreamView, index: int, d: DeltaView)
    requires
        running(p, st.sse),
        well_signed(p),
        is_open_thinking(st.sse, Some(index)),
        only_open_thinking(st.sse, Some(index)),
        is_signature(d),
        !st.in_thinking_block,
        !st.reasoning_block_active,
        st.thinking_block_index matches Some(i) ==> i < st.sse.next_block_index,
        forall|id: Seq<char>| #[trigger]
            st.tools.dom().contains(id) ==> is_tool_block(st.sse, st.tools[id] as int),
    ensures
        ({
            let (sse, stop) = stream_model::stop_block(st.sse, index);
            let e = seq![
                state_manager::block_delta_event(stream_model::delta_data(index, d)),
            ] + stop;
            keeps(p, (StreamView { sse, ..st }, e))
        }),
{
    lemma_position_is(st.sse.blocks, index);
    let at = state_manager::block_position(st.sse.blocks, index)->0;
    lemma_stop(p, st.sse, at, Some(d));
    let (sse, stop) = stream_model::stop_block(st.sse, index);
    assert(sse == with_stopped(st.sse, at));
    let e = seq![state_manager::block_delta_event(stream_model::delta_data(index, d))] + stop;
    assert(e =~= stopping_events(index, Some(d)));
    lemma_tools_after_stop(st.sse, at);
    lemma_stop_leaves_none(st.sse, index);
}

/// The end of native reasoning keeps the protocol.
proof fn lemma_close_reasoning_keeps(p: Protocol, st: StreamView)
    requires
        good(p, st),
    ensures
        keeps(p, stream_model::close_reasoning(st)),
{
    if st.reasoning_block_active {
        let index = st.thinking_block_index->0;
        let signature = match st.reasoning_signature {
            Some(s) => s,
            None => Seq::empty(),
        };
        let st1 = StreamView { reasoning_block_active: false, reasoning_signature: None, ..st };
        lemma_sign_and_stop(p, st1, index, DeltaView::Signature(signature));
        let (sse, stop) = stream_model::stop_block(st.sse, index);
        assert(stream_model::close_reasoning(st).1 =~= seq![
            state_manager::block_delta_event(
                stream_model::delta_data(index, DeltaView::Signature(signature)),
            ),
        ] + stop);
    } else {
        lemma_empty_step(p, st);
    }
}

/// The end of thinking between tags keeps the protocol.
proof fn lemma_close_tagged_keeps(p: Protocol, st: StreamView)
    requires
        running(p, st.sse),
        well_signed(p),
        st.thinking_block_index is Some ==> is_open_thinking(st.sse, st.thinking_block_index),
        only_open_thinking(st.sse, st.thinking_block_index),
        !st.in_thinking_block,
        !st.reasoning_block_active,
        st.thinking_block_index matches Some(i) ==> i < st.sse.next_block_index,
        forall|id: Seq<char>| #[trigger]
            st.tools.dom().contains(id) ==> is_tool_block(st.sse, st.tools[id] as int),
    ensures
        keeps(p, stream_model::close_tagged(st)),
{
    reveal(stream_model::close_tagged);
    match st.thinking_block_index {
        Some(index) => {
            lemma_sign_and_stop(p, st, index, stream_model::tagged_signature(st));
        },
        None => {
            lemma_empty_step(p, st);
        },
    }
}

/// Thinking between tags keeps the protocol, in a new block too.
proof fn lemma_tagged_delta_keeps(p: Protocol, st: StreamView, s: Seq<char>)
    requires
        good(p, st),
        st.in_thinking_block,
    ensures
        keeps(p, stream_model::tagged_delta(st, s)),
{
    reveal(stream_model::tagged_delta);
    lemma_empty_step(p, st);
    if s.len() > 0 {
        if st.thinking_block_index is Some {
            lemma_thinking_delta_keeps(p, st, s);
        } else {
            let index = st.sse.next_block_index;
            let (sse, e) = stream_model::open_block(
                st.sse,
                "thinking"@,
                BlockHeaderView::Thinking,
            );
            lemma_open_block(p, st.sse, BlockHeaderView::Thinking);
            lemma_carries_over(st.sse, sse);
            lemma_position_of(sse.blocks, st.sse.blocks.len() as int);
            lemma_new_thinking(st.sse, sse);
            let t = StreamView { sse, thinking_block_index: Some(index), ..st };
            assert(keeps(p, (t, e)));
            let q = replay(p, e)->0;
            lemma_thinking_delta_keeps(q, t, s);
            lemma_then(p, (t, e), stream_model::thinking_delta(t, s));
        }
    }
}

proof fn lemma_flush_as_text_keeps(p: Protocol, st: StreamView)
    requires
        good(p, st),
    ensures
        keeps(p, stream_model::flush_as_text(st)),
{
    if st.buffer.len() > 0 {
        lemma_text_delta_keeps(
            p,
            StreamView { buffer: Seq::empty(), after_quote: false, ..st },
            st.buffer,
        );
    } else {
        lemma_empty_step(p, st);
    }
}

/// Thinking up to its closing tag, then the closing of its block.
proof fn lemma_think_and_close(p: Protocol, st: StreamView, content: Seq<char>)
    requires
        good(p, st),
        st.in_thinking_block,
    ensures
        ({
            let (s1, e1) = stream_model::tagged_delta(st, content);
            let s2 = StreamView { in_thinking_block: false, thinking_extracted: true, ..s1 };
            let (s3, e3) = stream_model::close_tagged(s2);
            keeps(p, (s3, e1 + e3))
        }),
{
    lemma_tagged_delta_keeps(p, st, content);
    stream_model::lemma_tagged_delta_frame(st, content);
    let (s1, e1) = stream_model::tagged_delta(st, content);
    let q = replay(p, e1)->0;
    let s2 = StreamView { in_thinking_block: false, thinking_extracted: true, ..s1 };
    lemma_close_tagged_keeps(q, s2);
    lemma_then(p, (s1, e1), stream_model::close_tagged(s2));
}

proof fn lemma_scan_thinking_keeps(p: Protocol, st0: StreamView)
    requires
        good(p, st0),
        st0.in_thinking_block,
    ensures
        keeps(p, stream_model::scan_thinking(st0)),
{
    reveal(stream_model::scan_thinking);
    let st = stream_model::stripped(st0);
    match thinking::end_tag_after(st.after_quote, st.buffer) {
        Some(end) => {
            let content = text::text_before(st.buffer, end);
            lemma_think_and_close(p, st, content);
            let (s1, e1) = stream_model::tagged_delta(st, content);
            let s2 = StreamView { in_thinking_block: false, thinking_extracted: true, ..s1 };
            let (s3, e3) = stream_model::close_tagged(s2);
            let q = replay(p, e1 + e3)->0;
            let s4 = StreamView { buffer: text::text_from(st.buffer, end + 13), ..s3 };
            lemma_flush_as_text_keeps(q, s4);
            lemma_then(p, (s3, e1 + e3), stream_model::flush_as_text(s4));
        },
        None => {
            let n = stream_model::safe_length(st.buffer, 13);
            let safe = text::text_before(st.buffer, n);
            lemma_tagged_delta_keeps(p, st, safe);
            stream_model::lemma_tagged_delta_frame(st, safe);
            lemma_empty_step(p, st);
        },
    }
}

/// Where no thinking is open, a new block of thinking is the only one that is.
proof fn lemma_new_thinking(s: SseView, t: SseView)
    requires
        only_open_thinking(s, None),
        t.blocks == s.blocks.push(
            BlockView {
                index: s.next_block_index,
                kind: "thinking"@,
                started: true,
                stopped: false,
            },
        ),
    ensures
        only_open_thinking(t, Some(s.next_block_index)),
{
    assert forall|i: int|
        0 <= i < t.blocks.len() && (#[trigger] t.blocks[i]).is_open() && t.blocks[i].kind
            == "thinking"@ implies Some(s.next_block_index) == Some(t.blocks[i].index) by {
        if i < s.blocks.len() {
            assert(s.blocks[i].is_open());
        }
    }
}

proof fn lemma_scan_text_keeps(p: Protocol, st: StreamView)
    requires
        good(p, st),
        st.thinking_enabled,
        !st.native_reasoning_seen,
        !st.in_thinking_block,
    ensures
        keeps(p, stream_model::scan_text(st)),
{
    reveal(stream_model::scan_text);
    match thinking::start_tag_after(st.after_quote, st.buffer) {
        Some(start) => {
            let before = text::text_before(st.buffer, start);
            lemma_text_delta_keeps(p, st, before);
            lemma_empty_step(p, st);
            stream_model::lemma_text_delta_frame(st, before);
            let (s1, e1) = if text::is_blank(before) {
                (st, Seq::empty())
            } else {
                stream_model::text_delta(st, before)
            };
            let p1 = replay(p, e1)->0;
            let index = s1.sse.next_block_index;
            let (sse, e2) = stream_model::open_block(
                s1.sse,
                "thinking"@,
                BlockHeaderView::Thinking,
            );
            lemma_open_block(p1, s1.sse, BlockHeaderView::Thinking);
            lemma_carries_over(s1.sse, sse);
            lemma_position_of(sse.blocks, s1.sse.blocks.len() as int);
            let s2 = StreamView {
                sse,
                in_thinking_block: true,
                strip_newline: true,
                buffer: text::text_from(st.buffer, start + 10),
                after_quote: false,
                thinking_block_index: Some(index),
                ..s1
            };
            lemma_new_thinking(s1.sse, sse);
            assert(keeps(p1, (s2, e2)));
            lemma_then(p, (s1, e1), (s2, e2));
            let p2 = replay(p, e1 + e2)->0;
            lemma_scan_thinking_keeps(p2, s2);
            lemma_then(p, (s2, e1 + e2), stream_model::scan_thinking(s2));
        },
        None => {
            let n = stream_model::safe_length(st.buffer, 10);
            lemma_text_delta_keeps(p, st, text::text_before(st.buffer, n));
            lemma_empty_step(p, st);
        },
    }
}

/// Text of the answer keeps the protocol.
proof fn lemma_assistant_response_keeps(p: Protocol, st: StreamView, content: Seq<char>)
    requires
        good(p, st),
    ensures
        keeps(p, stream_model::assistant_response(st, content)),
{
    if content.len() == 0 {
        lemma_empty_step(p, st);
    } else {
        let s0 = StreamView {
            output_tokens: st.output_tokens + stream_model::estimated_tokens(content),
            ..st
        };
        lemma_close_reasoning_keeps(p, s0);
        let (s1, e1) = stream_model::close_reasoning(s0);
        let q = replay(p, e1)->0;
        if s1.thinking_enabled && !s1.native_reasoning_seen {
            let s = StreamView { buffer: s1.buffer + content, ..s1 };
            if !s.in_thinking_block && !s.thinking_extracted {
                lemma_scan_text_keeps(q, s);
            } else if s.in_thinking_block {
                lemma_scan_thinking_keeps(q, s);
            } else {
                lemma_flush_as_text_keeps(q, s);
            }
            lemma_then(p, (s1, e1), stream_model::content_with_thinking(s1, content));
        } else {
            lemma_text_delta_keeps(q, s1, content);
            lemma_then(p, (s1, e1), stream_model::text_delta(s1, content));
        }
    }
}

/// Native reasoning keeps the protocol.
proof fn lemma_reasoning_content_keeps(
    p: Protocol,
    st0: StreamView,
    s: Seq<char>,
    signature: Option<Seq<char>>,
)
    requires
        good(p, st0),
    ensures
        keeps(p, stream_model::reasoning_content(st0, s, signature)),
{
    let st = StreamView {
        reasoning_signature: stream_model::kept_signature(st0, signature),
        ..st0
    };
    lemma_empty_step(p, st);
    if s.len() == 0 || !st.thinking_enabled || (st.text_block_index is Some
        && !st.reasoning_block_active) {
    } else {
        let s1 = StreamView {
            output_tokens: st.output_tokens + stream_model::estimated_tokens(s),
            ..st
        };
        lemma_turn_to_native_keeps(p, s1);
        let (s2, e2) = stream_model::turn_to_native(s1);
        let p2 = replay(p, e2)->0;
        stream_model::lemma_turn_to_native_frame(s1);
        lemma_open_reasoning_keeps(p2, s2);
        let (s3, e3) = stream_model::open_reasoning(s2);
        lemma_then(p, (s2, e2), (s3, e3));
        let p3 = replay(p, e2 + e3)->0;
        lemma_thinking_delta_keeps(p3, s3, s);
        lemma_then(p, (s3, e2 + e3), stream_model::thinking_delta(s3, s));
    }
}

/// The turn to native reasoning keeps the protocol; no thinking between tags is open then.
proof fn lemma_turn_to_native_keeps(p: Protocol, st: StreamView)
    requires
        good(p, st),
    ensures
        keeps(p, stream_model::turn_to_native(st)),
        !stream_model::turn_to_native(st).0.in_thinking_block,
{
    reveal(stream_model::turn_to_native);
    if st.native_reasoning_seen {
        lemma_empty_step(p, st);
    } else {
        let s1 = StreamView {
            in_thinking_block: false,
            thinking_extracted: false,
            reasoning_signature: None,
            ..st
        };
        if st.in_thinking_block {
            stream_model::lemma_close_tagged_frame(s1);
            lemma_close_tagged_keeps(p, s1);
        } else {
            lemma_empty_step(p, s1);
        }
    }
}

/// The beginning of native reasoning keeps the protocol.
proof fn lemma_open_reasoning_keeps(p: Protocol, st: StreamView)
    requires
        good(p, st),
        st.native_reasoning_seen,
        !st.in_thinking_block,
    ensures
        keeps(p, stream_model::open_reasoning(st)),
        is_open_thinking(
            stream_model::open_reasoning(st).0.sse,
            stream_model::open_reasoning(st).0.thinking_block_index,
        ),
{
    reveal(stream_model::open_reasoning);
    if st.reasoning_block_active {
        lemma_empty_step(p, st);
    } else {
        let sse = stream_model::open_block(st.sse, "thinking"@, BlockHeaderView::Thinking).0;
        lemma_open_block(p, st.sse, BlockHeaderView::Thinking);
        lemma_carries_over(st.sse, sse);
        lemma_position_of(sse.blocks, st.sse.blocks.len() as int);
        lemma_new_thinking(st.sse, sse);
    }
}

/// The end of thinking between tags keeps the protocol.
proof fn lemma_end_thinking_keeps(p: Protocol, st: StreamView)
    requires
        good(p, st),
        st.in_thinking_block,
    ensures
        keeps(p, stream_model::end_thinking(st)),
{
    reveal(stream_model::end_thinking);
    let content = match thinking::trailing_end_tag_after(st.after_quote, st.buffer) {
        Some(end) => text::text_before(st.buffer, end),
        None => st.buffer,
    };
    lemma_think_and_close(p, st, content);
    stream_model::lemma_tagged_delta_frame(st, content);
    let s1 = stream_model::tagged_delta(st, content).0;
    stream_model::lemma_close_tagged_frame(
        StreamView { in_thinking_block: false, thinking_extracted: true, ..s1 },
    );
}

/// The interruption of thinking between tags keeps the protocol.
proof fn lemma_pause_thinking_keeps(p: Protocol, st0: StreamView)
    requires
        good(p, st0),
        st0.in_thinking_block,
    ensures
        keeps(p, stream_model::pause_thinking(st0)),
{
    reveal(stream_model::pause_thinking);
    reveal(stream_model::close_tagged);
    let st = stream_model::stripped(st0);
    let content = text::text_before(st.buffer, thinking::begun_tag_offset(st.buffer));
    lemma_think_and_close(p, st, content);
    stream_model::lemma_tagged_delta_frame(st, content);
    let (s1, e1) = stream_model::tagged_delta(st, content);
    let s2 = StreamView { in_thinking_block: false, thinking_extracted: true, ..s1 };
    let (s3, e3) = stream_model::close_tagged(s2);
    stream_model::lemma_close_tagged_frame(s1);
    stream_model::lemma_close_tagged_frame(s2);
    let (s4, e4) = stream_model::close_tagged(s1);
    assert(s4.sse == s3.sse && e4 == e3);
    let q = replay(p, e1 + e3)->0;
    let t = stream_model::pause_thinking(st0).0;
    assert(!st0.reasoning_block_active);
    assert(open_thinking(s3) is None && open_thinking(t) is None);
    assert(t.sse == s3.sse && t.tools == s3.tools);
    assert(running(q, t.sse));
    assert(stream_inv(t));
}

/// What precedes a tool call keeps the protocol.
pub proof fn lemma_before_tool_keeps(p: Protocol, st: StreamView)
    requires
        good(p, st),
    ensures
        keeps(p, stream_model::before_tool(st)),
{
    lemma_close_reasoning_keeps(p, st);
    let (s1, e1) = stream_model::close_reasoning(st);
    let p1 = replay(p, e1)->0;
    let s2 = StreamView { sse: SseView { has_tool_use: true, ..s1.sse }, ..s1 };
    assert(good(p1, s2)) by {
        lemma_carries_over(s1.sse, s2.sse);
    }
    lemma_empty_step(p1, s2);
    let (s3, e3) = if s2.thinking_enabled && s2.in_thinking_block {
        stream_model::yield_thinking(s2)
    } else {
        (s2, Seq::empty())
    };
    if s2.in_thinking_block {
        lemma_end_thinking_keeps(p1, s2);
        lemma_pause_thinking_keeps(p1, s2);
    }
    lemma_then(p, (s1, e1), (s3, e3));
    let p3 = replay(p, e1 + e3)->0;
    lemma_flush_as_text_keeps(p3, s3);
    lemma_empty_step(p3, s3);
    lemma_then(p, (s3, e1 + e3), stream_model::flush_as_text(s3));
    lemma_then(p, (s3, e1 + e3), (s3, Seq::empty()));
}

/// A tool call comes after thinking: no thinking block is open when its block starts.
pub proof fn thinking_ends_before_a_call(p: Protocol, st: StreamView)
    requires
        good(p, st),
    ensures
        only_open_thinking(stream_model::before_tool(st).0.sse, None),
{
    lemma_before_tool_keeps(p, st);
    let s1 = stream_model::close_reasoning(st).0;
    let s2 = StreamView { sse: SseView { has_tool_use: true, ..s1.sse }, ..s1 };
    stream_model::lemma_yield_thinking_frame(s2);
    let s3 = if s2.thinking_enabled && s2.in_thinking_block {
        stream_model::yield_thinking(s2).0
    } else {
        s2
    };
    stream_model::lemma_text_delta_frame(
        StreamView { buffer: Seq::empty(), after_quote: false, ..s3 },
        s3.buffer,
    );
}

/// The block of a tool call keeps the protocol, and is a tool block.
proof fn lemma_tool_block_keeps(p: Protocol, st: StreamView, name: Seq<char>, id: Seq<char>)
    requires
        good(p, st),
        st.sse.next_block_index < i32::MAX,
    ensures
        ({
            let (t, e, index) = stream_model::tool_block(st, name, id);
            keeps(p, (t, e)) && is_tool_block(t.sse, index)
        }),
{
    lemma_kinds_differ();
    let (t, e, index) = stream_model::tool_block(st, name, id);
    let known = st.tools.dom().contains(id);
    let s = if known {
        st.sse
    } else {
        SseView { next_block_index: index + 1, ..st.sse }
    };
    assert(running(p, s));
    let closed = SseView {
        has_tool_use: true,
        blocks: state_manager::closed_blocks(s.blocks, true),
        ..s
    };
    let closed_plain = SseView { blocks: state_manager::closed_blocks(s.blocks, true), ..s };
    let stops = state_manager::closing_events(s.blocks, true, false);
    lemma_closing(p, s, true, false);
    let q = replay(p, stops)->0;
    assert(running(q, closed_plain));
    assert(running(q, closed));
    assert(carries_over(st.sse, closed));
    lemma_carries_over(st.sse, closed);
    if known {
        assert(is_tool_block(st.sse, index));
        assert(is_tool_block(closed, index));
        lemma_position_is(closed.blocks, index);
        let at = state_manager::block_position(closed.blocks, index)->0;
        assert(closed.blocks[at].started);
        assert(t.sse == closed);
        assert(e == stops);
    } else {
        assert forall|j: int| 0 <= j < closed.blocks.len() implies (#[trigger] closed.blocks[j]).index
            != index by {
            assert(closed.blocks[j].index == st.sse.blocks[j].index);
        }
        state_manager::lemma_no_block_position(closed.blocks, index);
        let block = BlockHeaderView::ToolUse {
            id,
            name: stream_model::shown_name(
                StreamView { sse: s, tools: st.tools.insert(id, index as i32), ..st },
                name,
            ),
        };
        let event = state_manager::block_start_event(stream_model::start_data(index, block));
        assert(e =~= stops + seq![event]);
        lemma_replay_concat(p, stops, seq![event]);
        lemma_replay_one(q, event);
        lemma_push_block(q, closed, event, index, block);
        assert(t.sse.blocks == closed.blocks.push(
            BlockView { index, kind: "tool_use"@, started: true, stopped: false },
        ));
        lemma_carries_over(closed, t.sse);
        lemma_position_of(t.sse.blocks, closed.blocks.len() as int);
        assert forall|other: Seq<char>| #[trigger] t.tools.dom().contains(other) implies
            is_tool_block(t.sse, t.tools[other] as int) by {
            if other != id {
                assert(st.tools.dom().contains(other));
                assert(is_tool_block(closed, st.tools[other] as int));
            }
        }
    }
}

/// Adding a started block with an index of its own.
proof fn lemma_push_block(
    p: Protocol,
    s: SseView,
    event: EventView,
    index: int,
    block: BlockHeaderView,
)
    requires
        running(p, s),
        state_manager::block_position(s.blocks, index) is None,
        index < s.next_block_index,
        event == state_manager::block_start_event(stream_model::start_data(index, block)),
        forall|j: int| 0 <= j < s.blocks.len() ==> (#[trigger] s.blocks[j]).index != index,
    ensures
        ({
            let t = SseView {
                blocks: s.blocks.push(
                    BlockView { index, kind: kind_of(block), started: true, stopped: false },
                ),
                ..s
            };
            accept(p, event) matches Some(q) && running(q, t) && (well_signed(p) ==> well_signed(q))
                && carries_over(s, t)
        }),
{
    let t = SseView {
        blocks: s.blocks.push(
            BlockView { index, kind: kind_of(block), started: true, stopped: false },
        ),
        ..s
    };
    if p.blocks.dom().contains(index) {
        assert(state_manager::block_position(s.blocks, index) is Some);
    }
    let q = accept(p, event)->0;
    assert(accept(p, event) is Some);
    assert(sse_inv(t)) by {
        assert forall|i: int, j: int| 0 <= i < j < t.blocks.len() implies (#[trigger] t.blocks[i]).index
            != (#[trigger] t.blocks[j]).index by {
            assert(s.blocks[i].index != index);
            if j < s.blocks.len() {
                assert(s.blocks[i].index != s.blocks[j].index);
            }
        }
        assert forall|i: int| 0 <= i < t.blocks.len() implies (#[trigger] t.blocks[i]).started
            && t.blocks[i].index < t.next_block_index by {
            if i < s.blocks.len() {
                assert(s.blocks[i].started);
            }
        }
    }
    assert(agree(q, t)) by {
        assert forall|i: int| 0 <= i < t.blocks.len() implies ({
            let b = #[trigger] t.blocks[i];
            &&& q.blocks.dom().contains(b.index)
            &&& q.blocks[b.index].kind == b.kind
            &&& q.blocks[b.index].open == !b.stopped
            &&& !b.stopped ==> !q.blocks[b.index].signed
        }) by {
            if i < s.blocks.len() {
                assert(s.blocks[i].index != index);
            }
        }
        assert forall|k: int| #[trigger] q.blocks.dom().contains(k) implies
            state_manager::block_position(t.blocks, k) is Some by {
            if k == index {
                lemma_position_of(t.blocks, s.blocks.len() as int);
            } else {
                assert(p.blocks.dom().contains(k));
                lemma_position_is(s.blocks, k);
                let at = state_manager::block_position(s.blocks, k)->0;
                assert(t.blocks[at] == s.blocks[at]);
                lemma_position_of(t.blocks, at);
            }
        }
    }
    if well_signed(p) {
        assert forall|k: int| #[trigger] q.blocks.dom().contains(k) && q.blocks[k].kind
            == "thinking"@ && !q.blocks[k].open implies q.blocks[k].signed by {
            if k != index {
                assert(p.blocks.dom().contains(k));
            }
        }
    }
}

/// Tool arguments keep the protocol.
proof fn lemma_tool_input_keeps(p: Protocol, st: StreamView, index: int, input: Seq<char>)
    requires
        good(p, st),
        is_tool_block(st.sse, index),
    ensures
        keeps(p, stream_model::tool_input(st, index, input)),
        stream_model::tool_input(st, index, input).0.sse == st.sse,
{
    lemma_empty_step(p, st);
    if input.len() > 0 && state_manager::block_is_open(st.sse.blocks, index) {
        lemma_delta(p, st.sse, index, DeltaView::InputJson(input));
    }
}

/// The end of a tool call keeps the protocol.
proof fn lemma_tool_stop_keeps(p: Protocol, st: StreamView, index: int, stop: bool)
    requires
        good(p, st),
        is_tool_block(st.sse, index),
    ensures
        keeps(p, stream_model::tool_stop(st, index, stop)),
{
    lemma_kinds_differ();
    lemma_empty_step(p, st);
    if stop {
        lemma_position_is(st.sse.blocks, index);
        let at = state_manager::block_position(st.sse.blocks, index)->0;
        let b = st.sse.blocks[at];
        if !b.stopped {
            assert(b.started);
            lemma_stop(p, st.sse, at, None);
            let t = with_stopped(st.sse, at);
            let (sse, e) = stream_model::stop_block(st.sse, index);
            assert(sse == t);
            assert(e =~= stopping_events(index, None));
            lemma_tools_after_stop(st.sse, at);
            assert(carries_over(st.sse, t));
            lemma_carries_over(st.sse, t);
        }
    }
}

/// A tool call keeps the protocol.
proof fn lemma_tool_use_keeps(
    p: Protocol,
    st: StreamView,
    name: Seq<char>,
    id: Seq<char>,
    input: Seq<char>,
    stop: bool,
)
    requires
        good(p, st),
        stream_model::before_tool(st).0.sse.next_block_index < i32::MAX,
    ensures
        keeps(p, stream_model::tool_use(st, name, id, input, stop)),
{
    let (s1, e1) = stream_model::before_tool(st);
    lemma_before_tool_keeps(p, st);
    let p1 = replay(p, e1)->0;
    let (s2, e2, index) = stream_model::tool_block(s1, name, id);
    lemma_tool_block_keeps(p1, s1, name, id);
    lemma_then(p, (s1, e1), (s2, e2));
    let p2 = replay(p, e1 + e2)->0;
    let (s3, e3) = stream_model::tool_input(s2, index, input);
    lemma_tool_input_keeps(p2, s2, index, input);
    lemma_then(p, (s2, e1 + e2), (s3, e3));
    let p3 = replay(p, e1 + e2 + e3)->0;
    let (s4, e4) = stream_model::tool_stop(s3, index, stop);
    lemma_tool_stop_keeps(p3, s3, index, stop);
    lemma_then(p, (s3, e1 + e2 + e3), (s4, e4));
}

/// Every event of the service keeps the protocol.
pub proof fn event_keeps_protocol(p: Protocol, st: StreamView, event: Event)
    requires
        good(p, st),
        stream::event_fits(st, event),
    ensures
        keeps(p, stream::event_step(st, event)),
{
    match event {
        Event::AssistantResponse { content } => {
            lemma_assistant_response_keeps(p, st, content@);
        },
        Event::ReasoningContent(r) => {
            lemma_reasoning_content_keeps(
                p,
                st,
                r.text@,
                state_manager::optional_text(r.signature),
            );
        },
        Event::ToolUse(t) => {
            stream_model::lemma_before_tool_bounds(st);
            lemma_tool_use_keeps(p, st, t.name@, t.tool_use_id@, t.input@, t.stop);
        },
        _ => {
            let (t, e) = stream::event_step(st, event);
            assert(carries_over(st.sse, t.sse));
            lemma_carries_over(st.sse, t.sse);
            lemma_empty_step(p, t);
        },
    }
}

/// What is sent at the end keeps the protocol, and no thinking between tags is open then.
proof fn lemma_flush_at_end_keeps(p: Protocol, st: StreamView)
    requires
        good(p, st),
    ensures
        keeps(p, stream_model::flush_at_end(st)),
        !stream_model::flush_at_end(st).0.in_thinking_block,
        stream_model::flush_at_end(st).0.reasoning_block_active == st.reasoning_block_active,
{
    reveal(stream_model::flush_at_end);
    lemma_empty_step(p, st);
    if st.in_thinking_block {
        lemma_end_thinking_keeps(p, st);
        stream_model::lemma_end_thinking_frame(st);
    } else {
        lemma_text_delta_keeps(p, st, st.buffer);
        stream_model::lemma_text_delta_frame(st, st.buffer);
    }
}

/// What is sent at the end keeps the protocol, and no thinking is open then.
proof fn lemma_complete_content_keeps(p: Protocol, st: StreamView)
    requires
        good(p, st),
    ensures
        keeps(p, stream_model::complete_content(st)),
        only_open_thinking(stream_model::complete_content(st).0.sse, None),
{
    lemma_close_reasoning_keeps(p, st);
    let (s1, e1) = stream_model::close_reasoning(st);
    let p1 = replay(p, e1)->0;
    lemma_flush_at_end_keeps(p1, s1);
    let (s2, e2) = stream_model::flush_at_end(s1);
    lemma_then(p, (s1, e1), (s2, e2));
    let p2 = replay(p, e1 + e2)->0;
    lemma_empty_step(p2, s2);
    let s2m = StreamView {
        sse: SseView { stop_reason: Some("max_tokens"@), ..s2.sse },
        ..s2
    };
    lemma_carries_over(s2.sse, s2m.sse);
    lemma_text_delta_keeps(p2, s2m, " "@);
    stream_model::lemma_text_delta_frame(s2m, " "@);
    lemma_then(p, (s2, e1 + e2), stream_model::text_delta(s2m, " "@));
    lemma_then(p, (s2, e1 + e2), (s2, Seq::empty()));
}

/// An answer that did not fail ends with `message_delta` and `message_stop`, when all its blocks
/// are stopped and its thinking is signed.
pub proof fn success_ends_legally(p: Protocol, st: StreamView, reported: int)
    requires
        good(p, st),
    ensures
        replay(p, stream_model::successful_end(st, reported).1) matches Some(q) && q.delta_sent
            && q.ended && all_closed(q) && well_signed(q),
        stream_model::successful_end(st, reported).1.len() > 0,
        stream_model::successful_end(st, reported).1.last().data is MessageStop,
{
    lemma_complete_content_keeps(p, st);
    let (s1, e1) = stream_model::complete_content(st);
    let p1 = replay(p, e1)->0;
    let stops = state_manager::closing_events(s1.sse.blocks, false, false);
    lemma_closing(p1, s1.sse, false, false);
    let p2 = replay(p1, stops)->0;
    assert(!stops_unsigned(s1.sse, false, false)) by {
        if stops_unsigned(s1.sse, false, false) {
            let i = choose|i: int|
                0 <= i < s1.sse.blocks.len() && (#[trigger] s1.sse.blocks[i]).is_open()
                    && s1.sse.blocks[i].kind == "thinking"@;
            assert(None::<int> == Some(s1.sse.blocks[i].index));
        }
    }
    let (s2, e2) = stream_model::finish_message(s1, reported);
    let delta = EventView {
        name: "message_delta"@,
        data: DataView::MessageDelta {
            stop_reason: state_manager::final_stop_reason(s1.sse),
            usage: crate::anthropic::usage::usage_model(
                stream_model::context_size(s1),
                s1.output_tokens,
                stream_model::billed_cache_read(s1, reported),
                0,
            ),
        },
    };
    let stop = EventView { name: "message_stop"@, data: DataView::MessageStop };
    assert(e2 =~= stops + seq![delta] + seq![stop]);
    lemma_replay_concat(p1, stops, seq![delta]);
    lemma_replay_one(p2, delta);
    let p3 = accept(p2, delta)->0;
    lemma_replay_concat(p1, stops + seq![delta], seq![stop]);
    lemma_replay_one(p3, stop);
    lemma_replay_concat(p, e1, e2);
    assert((e1 + e2).last() == stop);
}

/// An answer that failed ends with the error, when all its blocks are stopped and its thinking is
/// signed. Neither `message_delta` nor `message_stop` comes.
pub proof fn failure_ends_legally(p: Protocol, st: StreamView, failure: FailureView)
    requires
        good(p, st),
    ensures
        replay(p, stream_model::failed_end(st, failure).1) matches Some(q) && !q.delta_sent
            && q.ended && all_closed(q) && well_signed(q),
        stream_model::failed_end(st, failure).1.len() > 0,
        stream_model::failed_end(st, failure).1.last().data == (DataView::Failure {
            message: failure.message(),
        }),
{
    lemma_close_reasoning_keeps(p, st);
    let (s1, e1) = stream_model::close_reasoning(st);
    let p1 = replay(p, e1)->0;
    let stops = state_manager::closing_events(s1.sse.blocks, false, true);
    lemma_closing(p1, s1.sse, false, true);
    let p2 = replay(p1, stops)->0;
    let error = EventView {
        name: "error"@,
        data: DataView::Failure { message: failure.message() },
    };
    let e = stream_model::failed_end(st, failure).1;
    assert(e =~= e1 + (stops + seq![error]));
    lemma_replay_concat(p, e1, stops + seq![error]);
    lemma_replay_concat(p1, stops, seq![error]);
    lemma_replay_one(p2, error);
}

/// What a list of events of the service does.
pub open spec fn run(st: StreamView, events: Seq<Event>) -> Step
    decreases events.len(),
{
    if events.len() == 0 {
        (st, Seq::empty())
    } else {
        let (s, e) = run(st, events.drop_last());
        let (t, more) = stream::event_step(s, events.last());
        (t, e + more)
    }
}

/// No count leaves the range of its type on the way.
pub open spec fn run_fits(st: StreamView, events: Seq<Event>) -> bool
    decreases events.len(),
{
    events.len() == 0 || (run_fits(st, events.drop_last()) && stream::event_fits(
        run(st, events.drop_last()).0,
        events.last(),
    ))
}

pub proof fn lemma_run_keeps(p: Protocol, st: StreamView, events: Seq<Event>)
    requires
        good(p, st),
        run_fits(st, events),
    ensures
        keeps(p, run(st, events)),
    decreases events.len(),
{
    if events.len() == 0 {
        lemma_empty_step(p, st);
    } else {
        lemma_run_keeps(p, st, events.drop_last());
        let (s, e) = run(st, events.drop_last());
        let q = replay(p, e)->0;
        event_keeps_protocol(q, s, events.last());
        lemma_then(p, (s, e), stream::event_step(s, events.last()));
    }
}

/// The initial events of a new answer keep the protocol.
pub proof fn lemma_initial_keeps(
    model: Seq<char>,
    input_tokens: int,
    thinking_enabled: bool,
    tool_names: Map<Seq<char>, String>,
    id: Seq<char>,
)
    ensures
        keeps(
            nothing_seen(),
            stream_model::initial_events(
                stream_model::new_stream(model, input_tokens, thinking_enabled, tool_names, id),
            ),
        ),
{
    let st = stream_model::new_stream(model, input_tokens, thinking_enabled, tool_names, id);
    let p = nothing_seen();
    let start = EventView {
        name: "message_start"@,
        data: DataView::MessageStart { id, model, input_tokens },
    };
    lemma_replay_one(p, start);
    let p1 = Protocol { started: true, ..p };
    let s1 = StreamView { sse: SseView { message_started: true, ..st.sse }, ..st };
    assert(running(p1, s1.sse));
    if !thinking_enabled {
        lemma_open_block(p1, s1.sse, BlockHeaderView::Text);
        let (sse, e2) = stream_model::open_block(s1.sse, "text"@, BlockHeaderView::Text);
        lemma_replay_concat(p, seq![start], e2);
        lemma_kinds_differ();
        lemma_carries_over(s1.sse, sse);
    }
}

/// The events of a whole answer.
pub open spec fn whole_answer(st: StreamView, events: Seq<Event>, reported: int) -> Seq<EventView> {
    let (s1, e1) = stream_model::initial_events(st);
    let (s2, e2) = run(s1, events);
    e1 + e2 + stream_model::final_events(s2, reported).1
}

/// The failure with which a whole answer ends.
pub open spec fn whole_failure(st: StreamView, events: Seq<Event>) -> Option<FailureView> {
    stream_model::end_failure(run(stream_model::initial_events(st).0, events).0)
}

/// Whatever the service sends, the events of a whole answer keep the protocol to its end, and
/// every thinking block is signed before it stops. An
/// answer that failed ends with an error, and has neither `message_delta` nor `message_stop`;
/// another one has both.
pub proof fn every_answer_is_legal(
    model: Seq<char>,
    input_tokens: int,
    thinking_enabled: bool,
    tool_names: Map<Seq<char>, String>,
    id: Seq<char>,
    events: Seq<Event>,
    reported: int,
)
    requires
        run_fits(
            stream_model::initial_events(
                stream_model::new_stream(model, input_tokens, thinking_enabled, tool_names, id),
            ).0,
            events,
        ),
    ensures
        ({
            let st = stream_model::new_stream(
                model,
                input_tokens,
                thinking_enabled,
                tool_names,
                id,
            );
            let all = whole_answer(st, events, reported);
            let failure = whole_failure(st, events);
            &&& replay(nothing_seen(), all) matches Some(q) && q.ended && all_closed(q) && (
            q.delta_sent <==> failure is None) && well_signed(q)
            &&& all.len() > 0
            &&& failure is None ==> all.last().data is MessageStop
            &&& failure matches Some(f) ==> all.last().data == (DataView::Failure {
                message: f.message(),
            })
        }),
{
    let st = stream_model::new_stream(model, input_tokens, thinking_enabled, tool_names, id);
    lemma_initial_keeps(model, input_tokens, thinking_enabled, tool_names, id);
    let p = nothing_seen();
    let (s1, e1) = stream_model::initial_events(st);
    let p1 = replay(p, e1)->0;
    lemma_run_keeps(p1, s1, events);
    let (s2, e2) = run(s1, events);
    lemma_replay_concat(p, e1, e2);
    let p2 = replay(p, e1 + e2)->0;
    let e3 = stream_model::final_events(s2, reported).1;
    lemma_replay_concat(p, e1 + e2, e3);
    match stream_model::end_failure(s2) {
        Some(f) => {
            let failed = StreamView { failure: Some(f), ..s2 };
            failure_ends_legally(p2, failed, f);
        },
        None => {
            success_ends_legally(p2, s2, reported);
        },
    }
    assert((e1 + e2 + e3).last() == e3.last());
}

} // verus!
