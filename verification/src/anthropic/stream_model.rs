//! What the conversion of a Kiro answer stream does, as a function from state and input to state
//! and events.

use vstd::prelude::*;

use crate::anthropic::sse::{BlockHeaderView, DataView, DeltaView, EventView};
use crate::anthropic::signature;
use crate::anthropic::state_manager;
use crate::anthropic::state_manager::SseView;
use crate::anthropic::thinking;
use crate::text;

verus! {

/// Why an answer failed.
pub enum FailureView {
    UpstreamError(Seq<char>),
    UpstreamException(Seq<char>),
    EmptyResponse,
    StreamIo(Seq<char>),
}

impl FailureView {
    /// What the client is told.
    pub open spec fn message(self) -> Seq<char> {
        match self {
            FailureView::UpstreamError(m) => "upstream error event: "@ + m,
            FailureView::UpstreamException(m) => "upstream exception: "@ + m,
            FailureView::EmptyResponse =>
                "上游返回空响应（200 但流中无任何内容事件），可能是生成超时或瞬时限流"@,
            FailureView::StreamIo(m) => "reading upstream stream failed: "@ + m,
        }
    }

    /// The class under which the failure is logged.
    pub open spec fn kind(self) -> Seq<char> {
        match self {
            FailureView::UpstreamError(_) => "upstream_error"@,
            FailureView::UpstreamException(_) => "upstream_exception"@,
            FailureView::EmptyResponse => "empty_response"@,
            FailureView::StreamIo(_) => "stream_io"@,
        }
    }
}

/// The state of the conversion of one answer.
pub struct StreamView {
    pub sse: SseView,
    pub model: Seq<char>,
    pub message_id: Seq<char>,
    pub input_tokens: int,
    pub context_input_tokens: Option<int>,
    pub output_tokens: int,
    /// The block of each tool call.
    pub tools: Map<Seq<char>, i32>,
    /// The original name of each renamed tool.
    pub tool_names: Map<Seq<char>, String>,
    pub thinking_enabled: bool,
    /// Text that is held back until it is clear what it belongs to.
    pub buffer: Seq<char>,
    /// What was sent right before the buffer ends with a quote character.
    pub after_quote: bool,
    pub in_thinking_block: bool,
    pub thinking_extracted: bool,
    pub thinking_block_index: Option<int>,
    pub text_block_index: Option<int>,
    pub strip_newline: bool,
    pub cache_read_input_tokens: Option<int>,
    pub cache_creation_input_tokens: Option<int>,
    pub metering_usage: Option<u64>,
    pub cache_read_multiplier: u64,
    pub cache_cap_ratio: u64,
    pub cache_floor_ratio: u64,
    pub sim_cache: Option<(int, int)>,
    pub emitted_cache_read: Option<int>,
    pub emitted_raw_cache_read: Option<int>,
    pub emitted_cache_creation: Option<int>,
    pub reasoning_block_active: bool,
    /// All thinking that was sent.
    pub thinking_text: Seq<char>,
    pub native_reasoning_seen: bool,
    pub reasoning_signature: Option<Seq<char>>,
    pub failure: Option<FailureView>,
}

/// A new state and the events that led to it.
pub type Step = (StreamView, Seq<EventView>);

/// Chinese characters, of which a token holds fewer.
pub open spec fn is_cjk(c: char) -> bool {
    0x4e00 <= c as u32 <= 0x9fff
}

pub open spec fn cjk_count(s: Seq<char>) -> int
    decreases s.len(),
{
    if s.len() == 0 {
        0
    } else {
        cjk_count(s.drop_last()) + (if is_cjk(s.last()) {
            1int
        } else {
            0
        })
    }
}

/// The estimate of the tokens of a text: two for three Chinese characters, one for four others,
/// rounded up, and at least one.
pub open spec fn estimated_tokens(s: Seq<char>) -> int {
    let cjk = cjk_count(s);
    let n = (cjk * 2 + 2) / 3 + (s.len() - cjk + 3) / 4;
    if n > 1 {
        n
    } else {
        1
    }
}

/// The text is short enough for its tokens to be counted.
pub open spec fn is_countable(s: Seq<char>) -> bool {
    cjk_count(s) * 2 + 2 <= i32::MAX && s.len() - cjk_count(s) + 3 <= i32::MAX
}

pub open spec fn optional_as_list(e: Option<EventView>) -> Seq<EventView> {
    match e {
        Some(event) => seq![event],
        None => Seq::empty(),
    }
}

pub open spec fn start_data(index: int, block: BlockHeaderView) -> DataView {
    DataView::BlockStart { index, block }
}

pub open spec fn delta_data(index: int, delta: DeltaView) -> DataView {
    DataView::BlockDelta { index, delta }
}

/// Takes a new block index and starts a block with it.
pub open spec fn open_block(sse: SseView, kind: Seq<char>, block: BlockHeaderView) -> (
    SseView,
    Seq<EventView>,
) {
    let index = sse.next_block_index;
    state_manager::block_started(
        SseView { next_block_index: index + 1, ..sse },
        index,
        kind,
        start_data(index, block),
    )
}

/// Sends text, in the text block that is open or else in a new one.
#[verifier::opaque]
pub open spec fn text_delta(st: StreamView, s: Seq<char>) -> Step {
    let reuse = match st.text_block_index {
        Some(i) => state_manager::block_is_open_of_type(st.sse.blocks, i, "text"@),
        None => false,
    };
    let (sse, opened) = if reuse {
        (st.sse, Seq::empty())
    } else {
        open_block(st.sse, "text"@, BlockHeaderView::Text)
    };
    let index = if reuse {
        st.text_block_index->0
    } else {
        st.sse.next_block_index
    };
    let sent = if state_manager::block_is_open(sse.blocks, index) {
        seq![state_manager::block_delta_event(delta_data(index, DeltaView::Text(s)))]
    } else {
        Seq::empty()
    };
    (StreamView { sse, text_block_index: Some(index), ..st }, opened + sent)
}

pub open spec fn thinking_event(index: int, s: Seq<char>) -> EventView {
    state_manager::block_delta_event(delta_data(index, DeltaView::Thinking(s)))
}

/// Sends thinking in the current thinking block, where there is one.
pub open spec fn thinking_delta(st: StreamView, s: Seq<char>) -> Step {
    match st.thinking_block_index {
        Some(i) => (
            StreamView { thinking_text: st.thinking_text + s, ..st },
            seq![thinking_event(i, s)],
        ),
        None => (st, Seq::empty()),
    }
}

/// Sends thinking that stands between tags: in the block that is open, else in a new one. Nothing
/// is sent of an empty text.
#[verifier::opaque]
pub open spec fn tagged_delta(st: StreamView, s: Seq<char>) -> Step {
    if s.len() == 0 {
        (st, Seq::empty())
    } else if st.thinking_block_index is Some {
        thinking_delta(st, s)
    } else {
        let (sse, e1) = open_block(st.sse, "thinking"@, BlockHeaderView::Thinking);
        let (s2, e2) = thinking_delta(
            StreamView { sse, thinking_block_index: Some(st.sse.next_block_index), ..st },
            s,
        );
        (s2, e1 + e2)
    }
}

/// Stops block `index`.
pub open spec fn stop_block(sse: SseView, index: int) -> (SseView, Seq<EventView>) {
    let (s, e) = state_manager::block_stopped(sse, index);
    (s, optional_as_list(e))
}

/// Ends the block of native reasoning that is open: its signature, then its stop.
pub open spec fn close_reasoning(st: StreamView) -> Step {
    if !st.reasoning_block_active {
        (st, Seq::empty())
    } else {
        let signature = match st.reasoning_signature {
            Some(s) => s,
            None => Seq::empty(),
        };
        match st.thinking_block_index {
            Some(i) => {
                let (sse, stop) = stop_block(st.sse, i);
                (
                    StreamView {
                        sse,
                        reasoning_block_active: false,
                        reasoning_signature: None,
                        ..st
                    },
                    seq![state_manager::signature_event(i, signature)] + stop,
                )
            },
            None => (
                StreamView { reasoning_block_active: false, reasoning_signature: None, ..st },
                Seq::empty(),
            ),
        }
    }
}

/// The signature of thinking that was found in the text: the one that came with the answer, else
/// one that is still to be made.
pub open spec fn tagged_signature(st: StreamView) -> DeltaView {
    match st.reasoning_signature {
        Some(s) => if s.len() > 0 {
            DeltaView::Signature(s)
        } else {
            DeltaView::PendingSignature { model: st.model, thinking: st.thinking_text }
        },
        None => DeltaView::PendingSignature { model: st.model, thinking: st.thinking_text },
    }
}

/// Ends the thinking block, where there is one.
#[verifier::opaque]
pub open spec fn close_tagged(st: StreamView) -> Step {
    match st.thinking_block_index {
        Some(i) => {
            let (sse, stop) = stop_block(st.sse, i);
            (
                StreamView { sse, ..st },
                seq![state_manager::block_delta_event(delta_data(i, tagged_signature(st)))] + stop,
            )
        },
        None => (st, Seq::empty()),
    }
}

/// Thinking is over: the rest of the buffer is text.
pub open spec fn flush_as_text(st: StreamView) -> Step {
    if st.buffer.len() > 0 {
        text_delta(StreamView { buffer: Seq::empty(), after_quote: false, ..st }, st.buffer)
    } else {
        (st, Seq::empty())
    }
}

/// The first newline of thinking goes.
pub open spec fn stripped(st: StreamView) -> StreamView {
    if !st.strip_newline || st.buffer.len() == 0 {
        st
    } else {
        StreamView {
            buffer: thinking::without_leading_newline(st.buffer),
            strip_newline: false,
            ..st
        }
    }
}

/// How many bytes of the buffer may be sent while the last `keep` may be the start of a tag.
pub open spec fn safe_length(buffer: Seq<char>, keep: int) -> int {
    let len = text::bytes_of(buffer).len();
    thinking::boundary_at_or_before(
        text::bytes_of(buffer),
        if len > keep {
            len - keep
        } else {
            0
        },
    )
}

/// Inside thinking: send what is surely thinking, or end it at its closing tag.
#[verifier::opaque]
pub open spec fn scan_thinking(st0: StreamView) -> Step {
    let st = stripped(st0);
    match thinking::end_tag_after(st.after_quote, st.buffer) {
        Some(end) => {
            let (s1, e1) = tagged_delta(st, text::text_before(st.buffer, end));
            let s2 = StreamView { in_thinking_block: false, thinking_extracted: true, ..s1 };
            let (s3, e3) = close_tagged(s2);
            let s4 = StreamView { buffer: text::text_from(st.buffer, end + 13), ..s3 };
            let (s5, e5) = flush_as_text(s4);
            (s5, e1 + e3 + e5)
        },
        None => {
            let n = safe_length(st.buffer, 13);
            if n > 0 {
                let safe = text::text_before(st.buffer, n);
                let (s1, e1) = tagged_delta(st, safe);
                (
                    StreamView {
                        buffer: text::text_from(st.buffer, n),
                        after_quote: thinking::ends_in_quote(safe),
                        ..s1
                    },
                    e1,
                )
            } else {
                (st, Seq::empty())
            }
        },
    }
}

/// Before any thinking: send what is surely text, or begin thinking at its opening tag.
#[verifier::opaque]
pub open spec fn scan_text(st: StreamView) -> Step {
    match thinking::start_tag_after(st.after_quote, st.buffer) {
        Some(start) => {
            let before = text::text_before(st.buffer, start);
            let (s1, e1) = if text::is_blank(before) {
                (st, Seq::empty())
            } else {
                text_delta(st, before)
            };
            let index = s1.sse.next_block_index;
            let (sse, e2) = open_block(s1.sse, "thinking"@, BlockHeaderView::Thinking);
            let s2 = StreamView {
                sse,
                in_thinking_block: true,
                strip_newline: true,
                buffer: text::text_from(st.buffer, start + 10),
                after_quote: false,
                thinking_block_index: Some(index),
                ..s1
            };
            let (s3, e3) = scan_thinking(s2);
            (s3, e1 + e2 + e3)
        },
        None => {
            let n = safe_length(st.buffer, 10);
            let safe = text::text_before(st.buffer, n);
            if n > 0 && !text::is_blank(safe) {
                let (s1, e1) = text_delta(st, safe);
                (
                    StreamView {
                        buffer: text::text_from(st.buffer, n),
                        after_quote: thinking::ends_in_quote(safe),
                        ..s1
                    },
                    e1,
                )
            } else {
                (st, Seq::empty())
            }
        },
    }
}

/// Takes text in which thinking may stand between tags.
pub open spec fn content_with_thinking(st: StreamView, content: Seq<char>) -> Step {
    let s = StreamView { buffer: st.buffer + content, ..st };
    if !s.in_thinking_block && !s.thinking_extracted {
        scan_text(s)
    } else if s.in_thinking_block {
        scan_thinking(s)
    } else {
        flush_as_text(s)
    }
}

/// Takes text of the answer.
pub open spec fn assistant_response(st: StreamView, content: Seq<char>) -> Step {
    if content.len() == 0 {
        (st, Seq::empty())
    } else {
        let (s1, e1) = close_reasoning(
            StreamView { output_tokens: st.output_tokens + estimated_tokens(content), ..st },
        );
        let (s2, e2) = if s1.thinking_enabled && !s1.native_reasoning_seen {
            content_with_thinking(s1, content)
        } else {
            text_delta(s1, content)
        };
        (s2, e1 + e2)
    }
}

/// The signature that is kept of a signature that came with the answer: with the name of the
/// model that was asked for, where it has the shape for that.
pub open spec fn kept_signature(st: StreamView, signature: Option<Seq<char>>) -> Option<Seq<char>> {
    match signature {
        Some(s) => if s.len() == 0 {
            st.reasoning_signature
        } else {
            match signature::signature_with_model(s, st.model) {
                Some(renamed) => Some(renamed),
                None => Some(s),
            }
        },
        None => st.reasoning_signature,
    }
}

/// With the first native reasoning, tags in the text count no more: thinking that is open between
/// them ends, and what is held back is dropped. A signature that came already belongs to the
/// native reasoning.
#[verifier::opaque]
pub open spec fn turn_to_native(st: StreamView) -> Step {
    if st.native_reasoning_seen {
        (st, Seq::empty())
    } else {
        let s1 = StreamView {
            in_thinking_block: false,
            thinking_extracted: false,
            reasoning_signature: None,
            ..st
        };
        let (s2, e2) = if st.in_thinking_block {
            close_tagged(s1)
        } else {
            (s1, Seq::empty())
        };
        (
            StreamView {
                native_reasoning_seen: true,
                buffer: Seq::empty(),
                after_quote: false,
                reasoning_signature: st.reasoning_signature,
                ..s2
            },
            e2,
        )
    }
}

/// Begins a block of native reasoning, unless one is open.
#[verifier::opaque]
pub open spec fn open_reasoning(st: StreamView) -> Step {
    if st.reasoning_block_active {
        (st, Seq::empty())
    } else {
        let (sse, e) = open_block(st.sse, "thinking"@, BlockHeaderView::Thinking);
        (
            StreamView {
                sse,
                thinking_block_index: Some(st.sse.next_block_index),
                reasoning_block_active: true,
                ..st
            },
            e,
        )
    }
}

/// Takes native reasoning. Without thinking, and behind text, it is dropped.
pub open spec fn reasoning_content(st0: StreamView, s: Seq<char>, signature: Option<Seq<char>>) -> Step {
    let st = StreamView { reasoning_signature: kept_signature(st0, signature), ..st0 };
    if s.len() == 0 || !st.thinking_enabled || (st.text_block_index is Some
        && !st.reasoning_block_active) {
        (st, Seq::empty())
    } else {
        let s1 = StreamView { output_tokens: st.output_tokens + estimated_tokens(s), ..st };
        let (s2, e2) = turn_to_native(s1);
        let (s3, e3) = open_reasoning(s2);
        let (s4, e4) = thinking_delta(s3, s);
        (s4, e2 + e3 + e4)
    }
}

/// Ends thinking between tags. A closing tag that ends the buffer is not shown.
#[verifier::opaque]
pub open spec fn end_thinking(st: StreamView) -> Step {
    let content = match thinking::trailing_end_tag_after(st.after_quote, st.buffer) {
        Some(end) => text::text_before(st.buffer, end),
        None => st.buffer,
    };
    let (s1, e1) = tagged_delta(st, content);
    let s2 = StreamView { in_thinking_block: false, thinking_extracted: true, ..s1 };
    let (s3, e3) = close_tagged(s2);
    (StreamView { buffer: Seq::empty(), ..s3 }, e1 + e3)
}

/// Interrupts thinking between tags: its block ends, and what follows of it gets a block of its
/// own. What may be the beginning of the closing tag is held back.
#[verifier::opaque]
pub open spec fn pause_thinking(st0: StreamView) -> Step {
    let st = stripped(st0);
    let at = thinking::begun_tag_offset(st.buffer);
    let content = text::text_before(st.buffer, at);
    let (s1, e1) = tagged_delta(st, content);
    let (s2, e2) = close_tagged(s1);
    (
        StreamView {
            thinking_block_index: None,
            buffer: text::text_from(st.buffer, at),
            after_quote: if content.len() > 0 {
                thinking::ends_in_quote(content)
            } else {
                st.after_quote
            },
            ..s2
        },
        e1 + e2,
    )
}

/// Thinking between tags makes way for a tool call: it ends where its closing tag is held back,
/// and else goes on behind the call.
pub open spec fn yield_thinking(st: StreamView) -> Step {
    if thinking::trailing_end_tag_after(st.after_quote, st.buffer) is Some {
        end_thinking(st)
    } else {
        pause_thinking(st)
    }
}

/// The quotient of a division by four that rounds toward zero.
pub open spec fn quarter(n: int) -> int {
    if n >= 0 {
        n / 4
    } else {
        -((-n) / 4)
    }
}

/// The estimate of the tokens of tool arguments of `len` bytes.
pub open spec fn input_tokens_of(len: int) -> int {
    quarter((len as i32) + 3)
}

/// What a tool call needs to be done before its block: reasoning ends, the block of thinking
/// between tags ends, text that is held back goes out.
pub open spec fn before_tool(st: StreamView) -> Step {
    let (s1, e1) = close_reasoning(st);
    let s2 = StreamView { sse: SseView { has_tool_use: true, ..s1.sse }, ..s1 };
    let (s3, e3) = if s2.thinking_enabled && s2.in_thinking_block {
        yield_thinking(s2)
    } else {
        (s2, Seq::empty())
    };
    let (s4, e4) = if s3.thinking_enabled && !s3.in_thinking_block && !s3.thinking_extracted {
        flush_as_text(s3)
    } else {
        (s3, Seq::empty())
    };
    (s4, e1 + e3 + e4)
}

/// The name under which a tool is shown: its original name, where it was renamed.
pub open spec fn shown_name(st: StreamView, name: Seq<char>) -> Seq<char> {
    if st.tool_names.dom().contains(name) {
        st.tool_names[name]@
    } else {
        name
    }
}

/// The block of a tool call: a new one for a call that is not known yet.
pub open spec fn tool_block(st: StreamView, name: Seq<char>, id: Seq<char>) -> (
    StreamView,
    Seq<EventView>,
    int,
) {
    let known = st.tools.dom().contains(id);
    let index = if known {
        st.tools[id] as int
    } else {
        st.sse.next_block_index
    };
    let s = if known {
        st
    } else {
        StreamView {
            sse: SseView { next_block_index: index + 1, ..st.sse },
            tools: st.tools.insert(id, index as i32),
            ..st
        }
    };
    let (sse, e) = state_manager::block_started(
        s.sse,
        index,
        "tool_use"@,
        start_data(index, BlockHeaderView::ToolUse { id, name: shown_name(s, name) }),
    );
    (StreamView { sse, ..s }, e, index)
}

/// A piece of the arguments of the tool call in block `index`.
pub open spec fn tool_input(st: StreamView, index: int, input: Seq<char>) -> Step {
    if input.len() == 0 {
        (st, Seq::empty())
    } else {
        (
            StreamView {
                output_tokens: st.output_tokens + input_tokens_of(
                    text::bytes_of(input).len() as int,
                ),
                ..st
            },
            if state_manager::block_is_open(st.sse.blocks, index) {
                seq![
                    state_manager::block_delta_event(
                        delta_data(index, DeltaView::InputJson(input)),
                    ),
                ]
            } else {
                Seq::empty()
            },
        )
    }
}

/// The end of the tool call in block `index`, where it is complete.
pub open spec fn tool_stop(st: StreamView, index: int, stop: bool) -> Step {
    if stop {
        let (sse, e) = stop_block(st.sse, index);
        (StreamView { sse, ..st }, e)
    } else {
        (st, Seq::empty())
    }
}

/// Takes a piece of a tool call.
pub open spec fn tool_use(
    st: StreamView,
    name: Seq<char>,
    id: Seq<char>,
    input: Seq<char>,
    stop: bool,
) -> Step {
    let (s1, e1) = before_tool(st);
    let (s2, e2, index) = tool_block(s1, name, id);
    let (s3, e3) = tool_input(s2, index, input);
    let (s4, e4) = tool_stop(s3, index, stop);
    (s4, e1 + e2 + e3 + e4)
}

/// The first failure counts.
pub open spec fn with_failure(st: StreamView, f: FailureView) -> StreamView {
    match st.failure {
        Some(_) => st,
        None => StreamView { failure: Some(f), ..st },
    }
}

/// Something of substance came: text, a tool call or reasoning.
pub open spec fn has_content(st: StreamView) -> bool {
    st.output_tokens > 0 || st.tools != Map::<Seq<char>, i32>::empty() || st.native_reasoning_seen
}

/// The events that begin an answer. With thinking enabled the text block waits for text.
pub open spec fn initial_events(st: StreamView) -> Step {
    let e1 = if st.sse.message_started {
        Seq::empty()
    } else {
        seq![
            EventView {
                name: "message_start"@,
                data: DataView::MessageStart {
                    id: st.message_id,
                    model: st.model,
                    input_tokens: st.input_tokens,
                },
            },
        ]
    };
    let s1 = StreamView { sse: SseView { message_started: true, ..st.sse }, ..st };
    if s1.thinking_enabled {
        (s1, e1)
    } else {
        let (sse, e2) = open_block(s1.sse, "text"@, BlockHeaderView::Text);
        (
            StreamView { sse, text_block_index: Some(s1.sse.next_block_index), ..s1 },
            e1 + e2,
        )
    }
}

/// The end of an answer that failed: every open block is closed, then the error is sent. Neither
/// `message_delta` nor `message_stop` follows.
pub open spec fn failed_end(st: StreamView, failure: FailureView) -> Step {
    let (s1, e1) = close_reasoning(st);
    let e2 = state_manager::closing_events(s1.sse.blocks, false, true);
    let s2 = StreamView {
        sse: SseView { blocks: state_manager::closed_blocks(s1.sse.blocks, false), ..s1.sse },
        ..s1
    };
    (
        s2,
        (e1 + e2).push(
            EventView {
                name: "error"@,
                data: DataView::Failure { message: failure.message() },
            },
        ),
    )
}

/// What is held back at the end of an answer goes out, and thinking that is open ends.
#[verifier::opaque]
pub open spec fn flush_at_end(st: StreamView) -> Step {
    if !st.thinking_enabled {
        (st, Seq::empty())
    } else if st.in_thinking_block {
        end_thinking(st)
    } else if st.buffer.len() > 0 {
        let (s1, e1) = text_delta(st, st.buffer);
        (StreamView { buffer: Seq::empty(), ..s1 }, e1)
    } else {
        (st, Seq::empty())
    }
}

pub open spec fn has_only_thinking(st: StreamView) -> bool {
    forall|i: int|
        0 <= i < st.sse.blocks.len() ==> (#[trigger] st.sse.blocks[i]).kind == "thinking"@
}

/// An answer of thinking alone counts as cut off, and gets a text block with one space.
pub open spec fn complete_thinking_only(st: StreamView) -> Step {
    if st.thinking_enabled && st.thinking_block_index is Some && has_only_thinking(st) {
        text_delta(
            StreamView { sse: SseView { stop_reason: Some("max_tokens"@), ..st.sse }, ..st },
            " "@,
        )
    } else {
        (st, Seq::empty())
    }
}

/// The size of the context: as the service reported it, else as it was estimated.
pub open spec fn context_size(st: StreamView) -> int {
    match st.context_input_tokens {
        Some(n) => n,
        None => st.input_tokens,
    }
}

/// The tokens that the cache simulation hit.
pub open spec fn simulated_hit(st: StreamView) -> int {
    match st.sim_cache {
        Some((hit, _)) => if hit > 0 {
            hit
        } else {
            0
        },
        None => 0,
    }
}

/// The cache read that is billed: none for an answer without output.
pub open spec fn billed_cache_read(st: StreamView, reported: int) -> int {
    if st.output_tokens <= 0 {
        0
    } else {
        reported
    }
}

/// Everything that is still to be sent before the answer can end.
pub open spec fn complete_content(st: StreamView) -> Step {
    let (s1, e1) = close_reasoning(st);
    let (s2, e2) = flush_at_end(s1);
    let (s3, e3) = complete_thinking_only(s2);
    (s3, e1 + e2 + e3)
}

/// The closing events with the token counts.
pub open spec fn finish_message(st: StreamView, reported: int) -> Step {
    let read = billed_cache_read(st, reported);
    let (sse, e) = state_manager::message_finished(
        st.sse,
        context_size(st),
        st.output_tokens,
        read,
        0,
    );
    (
        StreamView {
            sse,
            emitted_raw_cache_read: if st.sim_cache is Some {
                Some(simulated_hit(st))
            } else {
                st.emitted_raw_cache_read
            },
            emitted_cache_read: Some(read),
            emitted_cache_creation: Some(0),
            ..st
        },
        e,
    )
}

/// The end of an answer that did not fail.
pub open spec fn successful_end(st: StreamView, reported: int) -> Step {
    let (s1, e1) = complete_content(st);
    let (s2, e2) = finish_message(s1, reported);
    (s2, e1 + e2)
}

/// The failure with which an answer ends: the one that was recorded, else that nothing came.
pub open spec fn end_failure(st: StreamView) -> Option<FailureView> {
    match st.failure {
        Some(f) => Some(f),
        None => if has_content(st) {
            None
        } else {
            Some(FailureView::EmptyResponse)
        },
    }
}

/// The end of an answer.
pub open spec fn final_events(st: StreamView, reported: int) -> Step {
    match end_failure(st) {
        Some(f) => failed_end(StreamView { failure: Some(f), ..st }, f),
        None => successful_end(st, reported),
    }
}

/// What sending text leaves alone.
pub proof fn lemma_text_delta_frame(st: StreamView, s: Seq<char>)
    ensures
        ({
            let t = text_delta(st, s).0;
            &&& t == StreamView { sse: t.sse, text_block_index: t.text_block_index, ..st }
            &&& t.sse == SseView {
                blocks: t.sse.blocks,
                next_block_index: t.sse.next_block_index,
                has_tool_use: t.sse.has_tool_use,
                ..st.sse
            }
            &&& t.sse.next_block_index <= st.sse.next_block_index + 1
        }),
{
    reveal(text_delta);
}

/// What the beginning of an answer leaves alone. It takes a block index where thinking is not
/// enabled.
pub proof fn lemma_initial_events_frame(st: StreamView)
    ensures
        ({
            let t = initial_events(st).0;
            &&& t == StreamView { sse: t.sse, text_block_index: t.text_block_index, ..st }
            &&& st.sse.next_block_index <= t.sse.next_block_index <= st.sse.next_block_index + 1
            &&& st.thinking_enabled ==> t.sse.next_block_index == st.sse.next_block_index
                && t.text_block_index == st.text_block_index
        }),
{
}

/// What ending a thinking block leaves alone.
pub proof fn lemma_close_tagged_frame(st: StreamView)
    ensures
        ({
            let t = close_tagged(st).0;
            &&& t == StreamView { sse: t.sse, ..st }
            &&& t.sse == SseView { blocks: t.sse.blocks, ..st.sse }
        }),
{
    reveal(close_tagged);
}

/// What sending thinking between tags leaves alone. It takes a block index where no block is open.
pub proof fn lemma_tagged_delta_frame(st: StreamView, s: Seq<char>)
    ensures
        ({
            let t = tagged_delta(st, s).0;
            &&& t == StreamView {
                sse: t.sse,
                thinking_block_index: t.thinking_block_index,
                thinking_text: t.thinking_text,
                ..st
            }
            &&& t.sse == SseView {
                blocks: t.sse.blocks,
                next_block_index: t.sse.next_block_index,
                has_tool_use: t.sse.has_tool_use,
                ..st.sse
            }
            &&& t.sse.next_block_index <= st.sse.next_block_index + 1
            &&& st.thinking_block_index is Some ==> t.sse == st.sse && t.thinking_block_index
                == st.thinking_block_index
        }),
{
    reveal(tagged_delta);
}

/// What the end of thinking leaves alone.
pub proof fn lemma_end_thinking_frame(st: StreamView)
    ensures
        ({
            let t = end_thinking(st).0;
            &&& t == StreamView {
                sse: t.sse,
                thinking_block_index: t.thinking_block_index,
                thinking_text: t.thinking_text,
                in_thinking_block: false,
                thinking_extracted: true,
                buffer: Seq::empty(),
                ..st
            }
            &&& t.sse.next_block_index <= st.sse.next_block_index + 1
        }),
{
    reveal(end_thinking);
    let content = match thinking::trailing_end_tag_after(st.after_quote, st.buffer) {
        Some(end) => text::text_before(st.buffer, end),
        None => st.buffer,
    };
    lemma_tagged_delta_frame(st, content);
    let (s1, _) = tagged_delta(st, content);
    lemma_close_tagged_frame(
        StreamView { in_thinking_block: false, thinking_extracted: true, ..s1 },
    );
}

/// What the interruption of thinking leaves alone.
pub proof fn lemma_pause_thinking_frame(st: StreamView)
    ensures
        ({
            let t = pause_thinking(st).0;
            &&& t == StreamView {
                sse: t.sse,
                thinking_block_index: None,
                thinking_text: t.thinking_text,
                buffer: t.buffer,
                after_quote: t.after_quote,
                strip_newline: t.strip_newline,
                ..st
            }
            &&& t.sse.next_block_index <= st.sse.next_block_index + 1
        }),
{
    reveal(pause_thinking);
    let s0 = stripped(st);
    let content = text::text_before(s0.buffer, thinking::begun_tag_offset(s0.buffer));
    lemma_tagged_delta_frame(s0, content);
    lemma_close_tagged_frame(tagged_delta(s0, content).0);
}

/// What thinking leaves alone when it makes way for a tool call.
pub proof fn lemma_yield_thinking_frame(st: StreamView)
    ensures
        ({
            let t = yield_thinking(st).0;
            &&& t == StreamView {
                sse: t.sse,
                thinking_block_index: t.thinking_block_index,
                thinking_text: t.thinking_text,
                buffer: t.buffer,
                after_quote: t.after_quote,
                strip_newline: t.strip_newline,
                in_thinking_block: t.in_thinking_block,
                thinking_extracted: t.thinking_extracted,
                ..st
            }
            &&& t.sse.next_block_index <= st.sse.next_block_index + 1
            &&& t.in_thinking_block && st.in_thinking_block ==> t.thinking_block_index is None
        }),
{
    lemma_end_thinking_frame(st);
    lemma_pause_thinking_frame(st);
}

/// What the turn to native reasoning leaves alone.
pub proof fn lemma_turn_to_native_frame(st: StreamView)
    ensures
        ({
            let t = turn_to_native(st).0;
            &&& t == StreamView {
                sse: t.sse,
                buffer: t.buffer,
                after_quote: t.after_quote,
                in_thinking_block: t.in_thinking_block,
                thinking_extracted: t.thinking_extracted,
                native_reasoning_seen: true,
                ..st
            }
            &&& t.sse == SseView { blocks: t.sse.blocks, ..st.sse }
        }),
{
    reveal(turn_to_native);
    lemma_close_tagged_frame(
        StreamView {
            in_thinking_block: false,
            thinking_extracted: false,
            reasoning_signature: None,
            ..st
        },
    );
}

/// What precedes a tool call takes at most two block indices, counts no tokens and leaves the
/// known calls and names alone.
pub proof fn lemma_before_tool_bounds(st: StreamView)
    ensures
        before_tool(st).0.sse.next_block_index <= st.sse.next_block_index + 2,
        before_tool(st).0.output_tokens == st.output_tokens,
        before_tool(st).0.tools == st.tools,
        before_tool(st).0.tool_names == st.tool_names,
{
    let (s1, _) = close_reasoning(st);
    let s2 = StreamView { sse: SseView { has_tool_use: true, ..s1.sse }, ..s1 };
    lemma_yield_thinking_frame(s2);
    let (s3, _) = if s2.thinking_enabled && s2.in_thinking_block {
        yield_thinking(s2)
    } else {
        (s2, Seq::empty())
    };
    lemma_text_delta_frame(
        StreamView { buffer: Seq::empty(), after_quote: false, ..s3 },
        s3.buffer,
    );
}

/// Sending what was held back leaves the counts alone.
pub proof fn lemma_complete_content_keeps_counts(st: StreamView)
    ensures
        context_size(complete_content(st).0) == context_size(st),
        complete_content(st).0.output_tokens == st.output_tokens,
        complete_content(st).0.sim_cache == st.sim_cache,
{
    let (s1, _) = close_reasoning(st);
    lemma_flush_at_end_bounds(s1);
    let (s2, _) = flush_at_end(s1);
    lemma_text_delta_frame(
        StreamView { sse: SseView { stop_reason: Some("max_tokens"@), ..s2.sse }, ..s2 },
        " "@,
    );
}

/// Sending what was held back takes at most one block index and leaves the counts alone.
pub proof fn lemma_flush_at_end_bounds(st: StreamView)
    ensures
        flush_at_end(st).0.sse.next_block_index <= st.sse.next_block_index + 1,
        context_size(flush_at_end(st).0) == context_size(st),
        flush_at_end(st).0.output_tokens == st.output_tokens,
        flush_at_end(st).0.sim_cache == st.sim_cache,
{
    reveal(flush_at_end);
    lemma_text_delta_frame(st, st.buffer);
    lemma_end_thinking_frame(st);
}

/// The state before the first event.
pub open spec fn new_stream(
    model: Seq<char>,
    input_tokens: int,
    thinking_enabled: bool,
    tool_names: Map<Seq<char>, String>,
    message_id: Seq<char>,
) -> StreamView {
    StreamView {
        sse: SseView {
            message_started: false,
            message_delta_sent: false,
            blocks: Seq::empty(),
            message_ended: false,
            next_block_index: 0,
            stop_reason: None,
            has_tool_use: false,
        },
        model,
        message_id,
        input_tokens,
        context_input_tokens: None,
        output_tokens: 0,
        tools: Map::empty(),
        tool_names,
        thinking_enabled,
        buffer: Seq::empty(),
        after_quote: false,
        in_thinking_block: false,
        thinking_extracted: false,
        thinking_block_index: None,
        text_block_index: None,
        strip_newline: false,
        cache_read_input_tokens: None,
        cache_creation_input_tokens: None,
        metering_usage: None,
        cache_read_multiplier: 0x3ffc_cccc_cccc_cccd,
        cache_cap_ratio: 0x3fec_cccc_cccc_cccd,
        cache_floor_ratio: 0,
        sim_cache: None,
        emitted_cache_read: None,
        emitted_raw_cache_read: None,
        emitted_cache_creation: None,
        reasoning_block_active: false,
        thinking_text: Seq::empty(),
        native_reasoning_seen: false,
        reasoning_signature: None,
        failure: None,
    }
}

/// The same event with the size of the context in it, where it is a `message_start`.
pub open spec fn corrected(e: EventView, input_tokens: int) -> EventView {
    if e.name == "message_start"@ {
        match e.data {
            DataView::MessageStart { id, model, .. } => EventView {
                name: e.name,
                data: DataView::MessageStart { id, model, input_tokens },
            },
            _ => e,
        }
    } else {
        e
    }
}

/// The state of a conversion that holds its events back.
pub struct BufferedView {
    pub inner: StreamView,
    pub events: Seq<EventView>,
    pub estimated_input_tokens: int,
    pub initial_events_generated: bool,
}

/// The initial events come before the first others.
pub open spec fn with_initial_events(b: BufferedView) -> BufferedView {
    if b.initial_events_generated {
        b
    } else {
        let (inner, e) = initial_events(b.inner);
        BufferedView { inner, events: b.events + e, initial_events_generated: true, ..b }
    }
}

/// The end of a conversion that held its events back: all of them, with the size of the context
/// that is known by now in `message_start`.
pub open spec fn buffered_end(b0: BufferedView, reported: int) -> (BufferedView, Seq<EventView>) {
    let b = with_initial_events(b0);
    let (inner, e) = final_events(b.inner, reported);
    let size = match inner.context_input_tokens {
        Some(n) => n,
        None => b.estimated_input_tokens,
    };
    (
        BufferedView { inner, events: Seq::empty(), ..b },
        (b.events + e).map_values(|event: EventView| corrected(event, size)),
    )
}

} // verus!
