//! The state of the event sequence of one answer.

use vstd::prelude::*;
use vstd::string::*;

use crate::anthropic::sse;
use crate::anthropic::sse::{DataView, Delta, DeltaView, EventView, SseData, SseEvent};
use crate::anthropic::usage;
use crate::text;

verus! {

/// A content block of the answer.
#[derive(Debug, Clone)]
struct BlockState {
    index: i32,
    block_type: String,
    started: bool,
    stopped: bool,
}

/// Keeps the event sequence of one answer legal: one `message_start`, each block started before
/// its deltas and stopped after them, one `message_delta` after all blocks, `message_stop` last.
#[derive(Debug)]
pub struct SseStateManager {
    message_started: bool,
    message_delta_sent: bool,
    active_blocks: Vec<BlockState>,
    message_ended: bool,
    next_block_index: i32,
    stop_reason: Option<String>,
    has_tool_use: bool,
}

/// A content block.
pub struct BlockView {
    pub index: int,
    pub kind: Seq<char>,
    pub started: bool,
    pub stopped: bool,
}

impl BlockView {
    /// The block takes deltas.
    pub open spec fn is_open(self) -> bool {
        self.started && !self.stopped
    }

    pub open spec fn stop(self) -> BlockView {
        BlockView { stopped: true, ..self }
    }
}

/// The state of an event sequence. Blocks stand in the order in which they were started.
pub struct SseView {
    pub message_started: bool,
    pub message_delta_sent: bool,
    pub blocks: Seq<BlockView>,
    pub message_ended: bool,
    pub next_block_index: int,
    pub stop_reason: Option<Seq<char>>,
    pub has_tool_use: bool,
}

impl View for BlockState {
    type V = BlockView;

    closed spec fn view(&self) -> BlockView {
        BlockView {
            index: self.index as int,
            kind: self.block_type@,
            started: self.started,
            stopped: self.stopped,
        }
    }
}

/// The text that an optional text holds.
pub open spec fn optional_text(s: Option<String>) -> Option<Seq<char>> {
    match s {
        Some(t) => Some(t@),
        None => None,
    }
}

spec fn block_views(blocks: Seq<BlockState>) -> Seq<BlockView> {
    blocks.map_values(|b: BlockState| b@)
}

impl View for SseStateManager {
    type V = SseView;

    closed spec fn view(&self) -> SseView {
        SseView {
            message_started: self.message_started,
            message_delta_sent: self.message_delta_sent,
            blocks: block_views(self.active_blocks@),
            message_ended: self.message_ended,
            next_block_index: self.next_block_index as int,
            stop_reason: optional_text(self.stop_reason),
            has_tool_use: self.has_tool_use,
        }
    }
}

/// The state before anything was sent.
pub open spec fn nothing_sent() -> SseView {
    SseView {
        message_started: false,
        message_delta_sent: false,
        blocks: Seq::empty(),
        message_ended: false,
        next_block_index: 0,
        stop_reason: None,
        has_tool_use: false,
    }
}

/// Block `at` is the first one with the index `index`.
pub open spec fn is_block(blocks: Seq<BlockView>, index: int, at: int) -> bool {
    &&& 0 <= at < blocks.len()
    &&& blocks[at].index == index
    &&& forall|j: int| 0 <= j < at ==> (#[trigger] blocks[j]).index != index
}

/// Where the block with the index `index` stands.
pub open spec fn block_position(blocks: Seq<BlockView>, index: int) -> Option<int> {
    if exists|at: int| is_block(blocks, index, at) {
        Some(choose|at: int| is_block(blocks, index, at))
    } else {
        None
    }
}

/// The block `index` takes deltas.
pub open spec fn block_is_open(blocks: Seq<BlockView>, index: int) -> bool {
    match block_position(blocks, index) {
        Some(at) => blocks[at].is_open(),
        None => false,
    }
}

/// The block `index` takes deltas and has the type `kind`.
pub open spec fn block_is_open_of_type(
    blocks: Seq<BlockView>,
    index: int,
    kind: Seq<char>,
) -> bool {
    match block_position(blocks, index) {
        Some(at) => blocks[at].is_open() && blocks[at].kind == kind,
        None => false,
    }
}

pub open spec fn block_start_event(data: DataView) -> EventView {
    EventView { name: "content_block_start"@, data }
}

pub open spec fn block_delta_event(data: DataView) -> EventView {
    EventView { name: "content_block_delta"@, data }
}

pub open spec fn block_stop_event(index: int) -> EventView {
    EventView { name: "content_block_stop"@, data: DataView::BlockStop { index } }
}

pub open spec fn signature_event(index: int, signature: Seq<char>) -> EventView {
    block_delta_event(DataView::BlockDelta { index, delta: DeltaView::Signature(signature) })
}

/// The open blocks that a closing round stops: only the text blocks, or all of them.
pub open spec fn is_closed_by(b: BlockView, only_text: bool) -> bool {
    b.is_open() && (only_text ==> b.kind == "text"@)
}

/// The blocks after a closing round.
pub open spec fn closed_blocks(blocks: Seq<BlockView>, only_text: bool) -> Seq<BlockView> {
    blocks.map_values(
        |b: BlockView|
            if is_closed_by(b, only_text) {
                b.stop()
            } else {
                b
            },
    )
}

/// The events with which a closing round stops one block. `sign` puts an empty signature in
/// front of the stop of a thinking block.
pub open spec fn closing_events_of(b: BlockView, only_text: bool, sign: bool) -> Seq<EventView> {
    if !is_closed_by(b, only_text) {
        Seq::empty()
    } else if sign && b.kind == "thinking"@ {
        seq![signature_event(b.index, ""@), block_stop_event(b.index)]
    } else {
        seq![block_stop_event(b.index)]
    }
}

/// The events of a closing round.
pub open spec fn closing_events(blocks: Seq<BlockView>, only_text: bool, sign: bool) -> Seq<
    EventView,
>
    decreases blocks.len(),
{
    if blocks.len() == 0 {
        Seq::empty()
    } else {
        closing_events(blocks.drop_last(), only_text, sign) + closing_events_of(
            blocks.last(),
            only_text,
            sign,
        )
    }
}

/// What the start of a block does. A tool block stops the text blocks that are open; a block
/// that has started already does not start again. Once `message_delta` or `message_stop` is sent,
/// no block starts.
pub open spec fn block_started(st: SseView, index: int, kind: Seq<char>, data: DataView) -> (
    SseView,
    Seq<EventView>,
) {
    let (s, events) = if kind == "tool_use"@ {
        (
            SseView { has_tool_use: true, blocks: closed_blocks(st.blocks, true), ..st },
            closing_events(st.blocks, true, false),
        )
    } else {
        (st, Seq::empty())
    };
    if st.message_delta_sent || st.message_ended {
        (st, Seq::empty())
    } else {
        match block_position(s.blocks, index) {
            Some(at) => if s.blocks[at].started {
                (s, events)
            } else {
                (
                    SseView {
                        blocks: s.blocks.update(at, BlockView { started: true, ..s.blocks[at] }),
                        ..s
                    },
                    events.push(block_start_event(data)),
                )
            },
            None => (
                SseView {
                    blocks: s.blocks.push(BlockView { index, kind, started: true, stopped: false }),
                    ..s
                },
                events.push(block_start_event(data)),
            ),
        }
    }
}

/// What a stop of a block does: a block that is known and not stopped yet stops.
pub open spec fn block_stopped(st: SseView, index: int) -> (SseView, Option<EventView>) {
    match block_position(st.blocks, index) {
        Some(at) => if st.blocks[at].stopped {
            (st, None)
        } else {
            (
                SseView { blocks: st.blocks.update(at, st.blocks[at].stop()), ..st },
                Some(block_stop_event(index)),
            )
        },
        None => (st, None),
    }
}

/// The reason that the answer ends with.
pub open spec fn final_stop_reason(st: SseView) -> Seq<char> {
    match st.stop_reason {
        Some(reason) => reason,
        None => if st.has_tool_use {
            "tool_use"@
        } else {
            "end_turn"@
        },
    }
}

/// What the end of the answer does: open blocks stop, then come `message_delta` and
/// `message_stop`, each at most once.
pub open spec fn message_finished(
    st: SseView,
    input: int,
    output: int,
    cache_read: int,
    cache_creation: int,
) -> (SseView, Seq<EventView>) {
    let stops = closing_events(st.blocks, false, false);
    let with_delta = if st.message_delta_sent {
        stops
    } else {
        stops.push(
            EventView {
                name: "message_delta"@,
                data: DataView::MessageDelta {
                    stop_reason: final_stop_reason(st),
                    usage: usage::usage_model(input, output, cache_read, cache_creation),
                },
            },
        )
    };
    let all = if st.message_ended {
        with_delta
    } else {
        with_delta.push(EventView { name: "message_stop"@, data: DataView::MessageStop })
    };
    (
        SseView {
            blocks: closed_blocks(st.blocks, false),
            message_delta_sent: true,
            message_ended: true,
            ..st
        },
        all,
    )
}

/// An event, if there is one, as a list.
pub open spec fn optional_event(e: Option<SseEvent>) -> Option<EventView> {
    match e {
        Some(event) => Some(event@),
        None => None,
    }
}

pub proof fn lemma_block_position(blocks: Seq<BlockView>, index: int, at: int)
    requires
        is_block(blocks, index, at),
    ensures
        block_position(blocks, index) == Some(at),
{
    let c = choose|c: int| is_block(blocks, index, c);
    assert(is_block(blocks, index, c));
    if c < at {
        assert(blocks[c].index != index);
    }
    if at < c {
        assert(blocks[at].index != index);
    }
}

pub proof fn lemma_no_block_position(blocks: Seq<BlockView>, index: int)
    requires
        forall|j: int| 0 <= j < blocks.len() ==> (#[trigger] blocks[j]).index != index,
    ensures
        block_position(blocks, index) is None,
{
}

/// Appends events to events.
pub proof fn lemma_event_views_push(events: Seq<SseEvent>, e: SseEvent)
    ensures
        sse::event_views(events.push(e)) == sse::event_views(events).push(e@),
{
    assert(sse::event_views(events.push(e)) =~= sse::event_views(events).push(e@));
}

impl SseStateManager {
    pub fn new() -> (r: Self)
        ensures
            r@ == nothing_sent(),
    {
        let r = SseStateManager {
            message_started: false,
            message_delta_sent: false,
            active_blocks: Vec::new(),
            message_ended: false,
            next_block_index: 0,
            stop_reason: None,
            has_tool_use: false,
        };
        proof {
            assert(r@.blocks =~= Seq::<BlockView>::empty());
        }
        r
    }

    /// Where the block with the index `index` stands.
    fn position(&self, index: i32) -> (r: Option<usize>)
        ensures
            match r {
                Some(at) => {
                    &&& at < self.active_blocks@.len()
                    &&& is_block(self@.blocks, index as int, at as int)
                    &&& block_position(self@.blocks, index as int) == Some(at as int)
                },
                None => block_position(self@.blocks, index as int) is None,
            },
    {
        let mut i: usize = 0;
        while i < self.active_blocks.len()
            invariant
                i <= self.active_blocks@.len(),
                self@.blocks == block_views(self.active_blocks@),
                forall|j: int| 0 <= j < i ==> (#[trigger] self@.blocks[j]).index != index,
            decreases self.active_blocks@.len() - i,
        {
            assert(self@.blocks[i as int] == self.active_blocks@[i as int]@);
            if self.active_blocks[i].index == index {
                proof {
                    lemma_block_position(self@.blocks, index as int, i as int);
                }
                return Some(i);
            }
            i = i + 1;
        }
        proof {
            lemma_no_block_position(self@.blocks, index as int);
        }
        None
    }

    /// Whether the block `index` takes deltas and has the type `expected_type`.
    pub fn is_block_open_of_type(&self, index: i32, expected_type: &str) -> (r: bool)
        ensures
            r == block_is_open_of_type(self@.blocks, index as int, expected_type@),
    {
        match self.position(index) {
            Some(at) => {
                assert(self@.blocks[at as int] == self.active_blocks@[at as int]@);
                self.active_blocks[at].started && !self.active_blocks[at].stopped
                    && text::same_text(self.active_blocks[at].block_type.as_str(), expected_type)
            },
            None => false,
        }
    }

    /// Hands out the next block index.
    pub fn next_block_index(&mut self) -> (r: i32)
        requires
            old(self)@.next_block_index < i32::MAX,
        ensures
            r == old(self)@.next_block_index,
            final(self)@ == (SseView {
                next_block_index: old(self)@.next_block_index + 1,
                ..old(self)@
            }),
    {
        let index: i32 = self.next_block_index;
        self.next_block_index = index + 1;
        index
    }

    /// The block index that is handed out next.
    pub fn free_block_index(&self) -> (r: i32)
        ensures
            r == self@.next_block_index,
    {
        self.next_block_index
    }

    /// Records whether the answer uses a tool.
    pub fn set_has_tool_use(&mut self, has: bool)
        ensures
            final(self)@ == (SseView { has_tool_use: has, ..old(self)@ }),
    {
        self.has_tool_use = has;
    }

    /// Sets the reason that the answer ends with.
    pub fn set_stop_reason(&mut self, reason: &str)
        ensures
            final(self)@ == (SseView { stop_reason: Some(reason@), ..old(self)@ }),
    {
        self.stop_reason = Some(reason.to_owned());
    }

    /// Whether there is a block of another type than `thinking`.
    pub fn has_non_thinking_blocks(&self) -> (r: bool)
        ensures
            r == exists|i: int|
                0 <= i < self@.blocks.len() && (#[trigger] self@.blocks[i]).kind != "thinking"@,
    {
        let mut i: usize = 0;
        while i < self.active_blocks.len()
            invariant
                i <= self.active_blocks@.len(),
                self@.blocks == block_views(self.active_blocks@),
                forall|j: int| 0 <= j < i ==> (#[trigger] self@.blocks[j]).kind == "thinking"@,
            decreases self.active_blocks@.len() - i,
        {
            assert(self@.blocks[i as int] == self.active_blocks@[i as int]@);
            if !text::same_text(self.active_blocks[i].block_type.as_str(), "thinking") {
                return true;
            }
            i = i + 1;
        }
        false
    }

    /// Stops the open blocks, or only the open text blocks.
    fn close_blocks(&mut self, only_text: bool, sign: bool) -> (r: Vec<SseEvent>)
        ensures
            sse::event_views(r@) == closing_events(old(self)@.blocks, only_text, sign),
            final(self)@ == (SseView {
                blocks: closed_blocks(old(self)@.blocks, only_text),
                ..old(self)@
            }),
    {
        let ghost before = self@;
        let ghost all = before.blocks;
        let mut events: Vec<SseEvent> = Vec::new();
        let mut i: usize = 0;
        proof {
            assert(sse::event_views(events@) =~= Seq::<EventView>::empty());
        }
        while i < self.active_blocks.len()
            invariant
                all == before.blocks,
                i <= self.active_blocks@.len(),
                self.active_blocks@.len() == all.len(),
                self@ == (SseView { blocks: self@.blocks, ..before }),
                forall|j: int| i <= j < all.len() ==> #[trigger] self.active_blocks@[j]@ == all[j],
                forall|j: int|
                    0 <= j < i ==> #[trigger] self.active_blocks@[j]@ == closed_blocks(
                        all,
                        only_text,
                    )[j],
                sse::event_views(events@) == closing_events(all.take(i as int), only_text, sign),
            decreases all.len() - i,
        {
            let ghost done = all.take(i as int);
            let ghost events_before = events@;
            proof {
                assert(self.active_blocks@[i as int]@ == all[i as int]);
                assert(all.take(i + 1).drop_last() =~= done);
                assert(all.take(i + 1).last() == all[i as int]);
            }
            let index: i32 = self.active_blocks[i].index;
            let open: bool = self.active_blocks[i].started && !self.active_blocks[i].stopped;
            let selected: bool = !only_text || text::same_text(
                self.active_blocks[i].block_type.as_str(),
                "text",
            );
            if open && selected {
                if sign && text::same_text(self.active_blocks[i].block_type.as_str(), "thinking") {
                    let delta = Delta::Signature("".to_owned());
                    let event = SseEvent::new(
                        "content_block_delta",
                        SseData::BlockDelta { index, delta },
                    );
                    events.push(event);
                    proof {
                        lemma_event_views_push(events_before, event);
                    }
                }
                let ghost events_middle = events@;
                let event = SseEvent::new("content_block_stop", SseData::BlockStop { index });
                events.push(event);
                proof {
                    lemma_event_views_push(events_middle, event);
                }
                self.active_blocks[i].stopped = true;
            }
            proof {
                assert(sse::event_views(events@) =~= closing_events(done, only_text, sign)
                    + closing_events_of(all[i as int], only_text, sign));
            }
            i = i + 1;
        }
        proof {
            assert(all.take(i as int) =~= all);
            assert(self@.blocks =~= closed_blocks(all, only_text));
        }
        events
    }

    /// Stops all open blocks. A thinking block gets an empty signature before its stop.
    pub fn close_all_open_blocks(&mut self) -> (r: Vec<SseEvent>)
        ensures
            sse::event_views(r@) == closing_events(old(self)@.blocks, false, true),
            final(self)@ == (SseView {
                blocks: closed_blocks(old(self)@.blocks, false),
                ..old(self)@
            }),
    {
        self.close_blocks(false, true)
    }

    /// The reason that the answer ends with.
    pub fn get_stop_reason(&self) -> (r: String)
        ensures
            r@ == final_stop_reason(self@),
    {
        match &self.stop_reason {
            Some(reason) => reason.clone(),
            None => if self.has_tool_use {
                "tool_use".to_owned()
            } else {
                "end_turn".to_owned()
            },
        }
    }

    /// Lets the first `message_start` through.
    pub fn handle_message_start(&mut self, event: SseData) -> (r: Option<SseEvent>)
        ensures
            final(self)@ == (SseView { message_started: true, ..old(self)@ }),
            optional_event(r) == if old(self)@.message_started {
                None
            } else {
                Some(EventView { name: "message_start"@, data: event@ })
            },
    {
        if self.message_started {
            return None;
        }
        self.message_started = true;
        Some(SseEvent::new("message_start", event))
    }

    /// Starts a block, after the stops that a tool block causes. Nothing starts once the message
    /// is at its end.
    pub fn handle_content_block_start(
        &mut self,
        index: i32,
        block_type: &str,
        data: SseData,
    ) -> (r: Vec<SseEvent>)
        ensures
            (final(self)@, sse::event_views(r@)) == block_started(
                old(self)@,
                index as int,
                block_type@,
                data@,
            ),
    {
        let mut events: Vec<SseEvent> = Vec::new();
        proof {
            assert(sse::event_views(events@) =~= Seq::<EventView>::empty());
        }
        if self.message_delta_sent || self.message_ended {
            return events;
        }
        if text::same_text(block_type, "tool_use") {
            self.has_tool_use = true;
            events = self.close_blocks(true, false);
        }
        let ghost middle = self@;
        let ghost events_before = events@;
        match self.position(index) {
            Some(at) => {
                assert(self@.blocks[at as int] == self.active_blocks@[at as int]@);
                if self.active_blocks[at].started {
                    return events;
                }
                self.active_blocks[at].started = true;
                proof {
                    assert(self@.blocks =~= middle.blocks.update(
                        at as int,
                        BlockView { started: true, ..middle.blocks[at as int] },
                    ));
                }
            },
            None => {
                self.active_blocks.push(
                    BlockState {
                        index,
                        block_type: block_type.to_owned(),
                        started: true,
                        stopped: false,
                    },
                );
                proof {
                    assert(self@.blocks =~= middle.blocks.push(
                        BlockView {
                            index: index as int,
                            kind: block_type@,
                            started: true,
                            stopped: false,
                        },
                    ));
                }
            },
        }
        let event = SseEvent::new("content_block_start", data);
        events.push(event);
        proof {
            lemma_event_views_push(events_before, event);
        }
        events
    }

    /// Lets a delta through where its block is open.
    pub fn handle_content_block_delta(&mut self, index: i32, data: SseData) -> (r: Option<SseEvent>)
        ensures
            final(self)@ == old(self)@,
            optional_event(r) == if block_is_open(old(self)@.blocks, index as int) {
                Some(block_delta_event(data@))
            } else {
                None
            },
    {
        match self.position(index) {
            Some(at) => {
                assert(self@.blocks[at as int] == self.active_blocks@[at as int]@);
                if !self.active_blocks[at].started || self.active_blocks[at].stopped {
                    return None;
                }
            },
            None => {
                return None;
            },
        }
        Some(SseEvent::new("content_block_delta", data))
    }

    /// Stops a block that is known and not stopped yet.
    pub fn handle_content_block_stop(&mut self, index: i32) -> (r: Option<SseEvent>)
        ensures
            (final(self)@, optional_event(r)) == block_stopped(old(self)@, index as int),
    {
        let ghost before = self@;
        match self.position(index) {
            Some(at) => {
                assert(self@.blocks[at as int] == self.active_blocks@[at as int]@);
                if self.active_blocks[at].stopped {
                    return None;
                }
                self.active_blocks[at].stopped = true;
                proof {
                    assert(self@.blocks =~= before.blocks.update(
                        at as int,
                        before.blocks[at as int].stop(),
                    ));
                }
                Some(SseEvent::new("content_block_stop", SseData::BlockStop { index }))
            },
            None => None,
        }
    }

    /// Ends the answer.
    pub fn generate_final_events(
        &mut self,
        input_tokens: i32,
        output_tokens: i32,
        cache_read: i32,
        cache_creation: i32,
    ) -> (r: Vec<SseEvent>)
        requires
            i32::MIN <= input_tokens - cache_read <= i32::MAX,
            i32::MIN <= input_tokens - cache_read - cache_creation <= i32::MAX,
        ensures
            (final(self)@, sse::event_views(r@)) == message_finished(
                old(self)@,
                input_tokens as int,
                output_tokens as int,
                cache_read as int,
                cache_creation as int,
            ),
    {
        let mut events = self.close_blocks(false, false);
        if !self.message_delta_sent {
            let ghost events_before = events@;
            self.message_delta_sent = true;
            let stop_reason = self.get_stop_reason();
            let usage = usage::build_usage_json(
                input_tokens,
                output_tokens,
                cache_read,
                cache_creation,
            );
            let event = SseEvent::new(
                "message_delta",
                SseData::MessageDelta { stop_reason, usage },
            );
            events.push(event);
            proof {
                lemma_event_views_push(events_before, event);
            }
        }
        if !self.message_ended {
            let ghost events_before = events@;
            self.message_ended = true;
            let event = SseEvent::new("message_stop", SseData::MessageStop);
            events.push(event);
            proof {
                lemma_event_views_push(events_before, event);
            }
        }
        events
    }
}

/// Nothing follows the end of the answer: no block starts, gets a delta or stops, and neither
/// `message_delta` nor `message_stop` comes again.
pub proof fn nothing_follows_the_end(
    st: SseView,
    input: int,
    output: int,
    cache_read: int,
    cache_creation: int,
    index: int,
    kind: Seq<char>,
    data: DataView,
)
    requires
        forall|i: int| 0 <= i < st.blocks.len() ==> (#[trigger] st.blocks[i]).started,
    ensures
        ({
            let t = message_finished(st, input, output, cache_read, cache_creation).0;
            &&& block_started(t, index, kind, data) == (t, Seq::<EventView>::empty())
            &&& !block_is_open(t.blocks, index)
            &&& block_stopped(t, index) == (t, None::<EventView>)
            &&& message_finished(t, input, output, cache_read, cache_creation) == (
                t,
                Seq::<EventView>::empty(),
            )
        }),
{
    let t = message_finished(st, input, output, cache_read, cache_creation).0;
    assert forall|i: int| 0 <= i < t.blocks.len() implies (#[trigger] t.blocks[i]).stopped by {
        assert(st.blocks[i].started);
    }
    if block_position(t.blocks, index) is Some {
        let at = choose|at: int| is_block(t.blocks, index, at);
        assert(is_block(t.blocks, index, at));
        assert(t.blocks[at].stopped);
    }
    lemma_nothing_to_close(t.blocks);
    assert(closed_blocks(t.blocks, false) =~= t.blocks);
}

pub proof fn lemma_nothing_to_close(blocks: Seq<BlockView>)
    requires
        forall|i: int| 0 <= i < blocks.len() ==> (#[trigger] blocks[i]).stopped,
    ensures
        closing_events(blocks, false, false) == Seq::<EventView>::empty(),
    decreases blocks.len(),
{
    if blocks.len() > 0 {
        let front = blocks.drop_last();
        assert forall|i: int| 0 <= i < front.len() implies (#[trigger] front[i]).stopped by {
            assert(blocks[i].stopped);
        }
        assert(blocks[blocks.len() - 1].stopped);
        lemma_nothing_to_close(front);
        assert(closing_events(blocks, false, false) =~= Seq::<EventView>::empty());
    }
}

impl Default for SseStateManager {
    fn default() -> (r: Self)
        ensures
            r@ == nothing_sent(),
    {
        SseStateManager::new()
    }
}

} // verus!
