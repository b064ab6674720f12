//! What each event of the service does to an answer, and what the answer starts and ends with.

use vstd::prelude::*;

use crate::anthropic::protocol;
use crate::anthropic::sse::{BlockHeaderView, DataView, DeltaView, EventView};
use crate::anthropic::signature;
use crate::anthropic::state_manager;
use crate::anthropic::state_manager::SseView;
use crate::anthropic::stream;
use crate::anthropic::stream_model;
use crate::anthropic::stream_model::{FailureView, StreamView};
use crate::anthropic::thinking;
use crate::anthropic::wire;
use crate::json::JsonView;
use crate::kiro::model::events::{ContextUsage, Event, MeteringEvent, TokenUsageEvent};
use crate::text;

verus! {

/// The token counts of the service tell the size of the context: the input that no cache served
/// and, where it is reported, that which a cache served. A size that is not positive tells nothing.
/// The client gets nothing of this event.
pub proof fn token_counts_tell_the_size(st: StreamView, t: TokenUsageEvent)
    ensures
        ({
            let (r, e) = stream::event_step(st, Event::TokenUsage(t));
            let uncached = t.uncached_input_tokens;
            &&& e.len() == 0
            &&& t.cache_read_input_tokens is None && 0 < uncached <= i32::MAX
                ==> r.context_input_tokens == Some(uncached as int)
            &&& t.cache_read_input_tokens is None && uncached <= 0 ==> r.context_input_tokens
                == st.context_input_tokens
            &&& t.cache_read_input_tokens matches Some(n) ==> {
                &&& 0 < uncached + n <= i32::MAX ==> r.context_input_tokens == Some(uncached + n)
                &&& uncached + n <= 0 ==> r.context_input_tokens == st.context_input_tokens
                &&& i32::MIN <= n <= i32::MAX ==> r.cache_read_input_tokens == Some(n as int)
            }
            &&& t.cache_read_input_tokens is None ==> r.cache_read_input_tokens
                == st.cache_read_input_tokens
            &&& t.cache_write_input_tokens matches Some(n) ==> (i32::MIN <= n <= i32::MAX
                ==> r.cache_creation_input_tokens == Some(n as int))
            &&& t.cache_write_input_tokens is None ==> r.cache_creation_input_tokens
                == st.cache_creation_input_tokens
            &&& r.sse == st.sse && r.output_tokens == st.output_tokens && r.failure == st.failure
        }),
{
}

/// The share of the context tells its size; a context that is full is the reason for the end.
pub proof fn context_shares_tell_the_size(st: StreamView, c: ContextUsage)
    ensures
        ({
            let (r, e) = stream::event_step(st, Event::ContextUsage(c));
            &&& e.len() == 0
            &&& r.context_input_tokens == Some(c.input_tokens as int)
            &&& c.is_full ==> r.sse.stop_reason == Some("model_context_window_exceeded"@)
            &&& !c.is_full ==> r.sse == st.sse
            &&& r.output_tokens == st.output_tokens && r.failure == st.failure
        }),
{
}

/// An error of the service fails the answer, with its code and its message; an exception does, with
/// its type and its message, but one: an answer that is too long is cut off. The first failure
/// counts. The client gets nothing of these events.
pub proof fn errors_fail_the_answer(st: StreamView, code: String, message: String)
    requires
        st.failure is None,
    ensures
        ({
            let (r, e) = stream::event_step(
                st,
                Event::Error { error_code: code, error_message: message },
            );
            &&& e.len() == 0
            &&& r.failure == Some(FailureView::UpstreamError(code@ + " - "@ + message@))
            &&& r.sse == st.sse
        }),
        ({
            let (r, e) = stream::event_step(
                st,
                Event::Exception { exception_type: code, message },
            );
            &&& e.len() == 0
            &&& code@ != "ContentLengthExceededException"@ ==> r.failure == Some(
                FailureView::UpstreamException(code@ + " - "@ + message@),
            ) && r.sse == st.sse
            &&& code@ == "ContentLengthExceededException"@ ==> r.failure is None
                && r.sse.stop_reason == Some("max_tokens"@)
        }),
{
}

/// What the client is told of a failure, and under which class it is logged.
pub proof fn failures_are_told(m: Seq<char>)
    ensures
        FailureView::UpstreamError(m).message() == "upstream error event: "@ + m,
        FailureView::UpstreamException(m).message() == "upstream exception: "@ + m,
        FailureView::StreamIo(m).message() == "reading upstream stream failed: "@ + m,
        FailureView::UpstreamError(m).kind() == "upstream_error"@,
        FailureView::UpstreamException(m).kind() == "upstream_exception"@,
        FailureView::StreamIo(m).kind() == "stream_io"@,
        FailureView::EmptyResponse.kind() == "empty_response"@,
        FailureView::EmptyResponse.message().len() > 0,
{
    reveal_strlit("上游返回空响应（200 但流中无任何内容事件），可能是生成超时或瞬时限流");
}

/// An answer begins with one `message_start` that has its identifier, its model and the size of
/// the question; without thinking a text block follows at once.
pub proof fn answers_begin_with_their_start(
    model: Seq<char>,
    input_tokens: int,
    thinking_enabled: bool,
    tool_names: Map<Seq<char>, String>,
    id: Seq<char>,
)
    ensures
        ({
            let st = stream_model::new_stream(
                model,
                input_tokens,
                thinking_enabled,
                tool_names,
                id,
            );
            let (r, e) = stream_model::initial_events(st);
            &&& e.len() == if thinking_enabled {
                1nat
            } else {
                2
            }
            &&& e[0].name == "message_start"@
            &&& e[0].data == (DataView::MessageStart { id, model, input_tokens })
            &&& !thinking_enabled ==> e[1].name == "content_block_start"@ && e[1].data == (
            DataView::BlockStart { index: 0, block: BlockHeaderView::Text })
            &&& r.output_tokens == 0 && r.failure is None && r.context_input_tokens is None
            &&& r.tool_names == tool_names && r.thinking_enabled == thinking_enabled
        }),
        stream_model::initial_events(
            stream_model::initial_events(
                stream_model::new_stream(model, input_tokens, true, tool_names, id),
            ).0,
        ).1.len() == 0,
{
    let st = stream_model::new_stream(model, input_tokens, thinking_enabled, tool_names, id);
    state_manager::lemma_no_block_position(st.sse.blocks, 0);
    reveal_strlit("text");
    reveal_strlit("tool_use");
    assert("text"@.len() != "tool_use"@.len());
}

/// An answer that did not fail ends with its reason and its counts: the output that was counted;
/// the size of the context, as it was reported or else as it was estimated, without what is billed
/// as read from the cache; and the cache read where there was output.
pub proof fn answers_end_with_their_counts(st: StreamView, reported: int)
    requires
        !st.sse.message_delta_sent,
        !st.sse.message_ended,
        0 <= reported,
    ensures
        ({
            let (r, e) = stream_model::finish_message(st, reported);
            let n = e.len() as int;
            let v = e[n - 2].data.json();
            let counts = v.member("usage"@)->0;
            let size = match st.context_input_tokens {
                Some(k) => k,
                None => st.input_tokens,
            };
            let read = if st.output_tokens > 0 {
                reported
            } else {
                0
            };
            &&& n >= 2
            &&& e[n - 1].name == "message_stop"@ && e[n - 1].data is MessageStop
            &&& e[n - 2].name == "message_delta"@
            &&& wire::text_at(v, "delta"@, "stop_reason"@) == Some(
                match st.sse.stop_reason {
                    Some(reason) => reason,
                    None => if st.sse.has_tool_use {
                        "tool_use"@
                    } else {
                        "end_turn"@
                    },
                },
            )
            &&& v.member("usage"@) is Some
            &&& counts.member("output_tokens"@) == Some(JsonView::Int(st.output_tokens))
            &&& size >= read ==> counts.member("input_tokens"@) == Some(JsonView::Int(size - read))
            &&& size < read ==> counts.member("input_tokens"@) == Some(JsonView::Int(0))
            &&& read > 0 ==> counts.member("cache_read_input_tokens"@) == Some(JsonView::Int(read))
            &&& read == 0 ==> counts.member("cache_read_input_tokens"@) is None
            &&& counts.member("cache_creation_input_tokens"@) is None
            &&& r.emitted_cache_read == Some(read)
            &&& r.emitted_cache_creation == Some(0int)
            &&& st.sim_cache matches Some((hit, _)) ==> {
                &&& hit >= 0 ==> r.emitted_raw_cache_read == Some(hit)
                &&& hit < 0 ==> r.emitted_raw_cache_read == Some(0int)
            }
        }),
{
    let size = match st.context_input_tokens {
        Some(k) => k,
        None => st.input_tokens,
    };
    let read = if st.output_tokens > 0 {
        reported
    } else {
        0
    };
    let e = stream_model::finish_message(st, reported).1;
    let n = e.len() as int;
    wire::usage_says_what_was_counted(size, st.output_tokens, read, 0);
    if let DataView::MessageDelta { stop_reason, usage } = e[n - 2].data {
        wire::ends_say_why(0, stop_reason, usage, ""@, JsonView::Null);
    }
}

/// An answer that failed ends with an error that tells the failure, and is not completed. An answer
/// of which nothing came, neither output nor a call nor reasoning, failed.
pub proof fn failed_answers_end_with_an_error(st: StreamView, reported: int)
    ensures
        ({
            let (r, e) = stream_model::final_events(st, reported);
            let n = e.len() as int;
            let nothing = st.output_tokens <= 0 && st.tools == Map::<Seq<char>, i32>::empty()
                && !st.native_reasoning_seen;
            let failure = match st.failure {
                Some(f) => Some(f),
                None => if nothing {
                    Some(FailureView::EmptyResponse)
                } else {
                    None
                },
            };
            failure matches Some(f) ==> {
                &&& r.failure == Some(f)
                &&& n > 0
                &&& e[n - 1].name == "error"@
                &&& wire::text_at(e[n - 1].data.json(), "error"@, "message"@) == Some(f.message())
                &&& wire::text_at(e[n - 1].data.json(), "error"@, "type"@) == Some("api_error"@)
            }
        }),
{
    let failure = stream_model::end_failure(st);
    if let Some(f) = failure {
        wire::ends_say_why(0, ""@, JsonView::Null, f.message(), JsonView::Null);
    }
}

/// The output tokens of a text grow with it: one for four characters, two for three Chinese ones,
/// rounded up, and at least one.
pub proof fn tokens_are_estimated_by_length(s: Seq<char>, chinese: bool)
    requires
        forall|i: int|
            0 <= i < s.len() ==> (0x4e00 <= (#[trigger] s[i]) as u32 <= 0x9fff) == chinese,
    ensures
        chinese ==> {
            &&& stream_model::estimated_tokens(s) * 3 >= s.len() * 2
            &&& s.len() > 0 ==> stream_model::estimated_tokens(s) * 3 < s.len() * 2 + 3
        },
        !chinese ==> {
            &&& stream_model::estimated_tokens(s) * 4 >= s.len()
            &&& s.len() > 0 ==> stream_model::estimated_tokens(s) * 4 < s.len() + 4
        },
        s.len() == 0 ==> stream_model::estimated_tokens(s) == 1,
{
    lemma_cjk_count(s, chinese);
}

proof fn lemma_cjk_count(s: Seq<char>, chinese: bool)
    requires
        forall|i: int|
            0 <= i < s.len() ==> (0x4e00 <= (#[trigger] s[i]) as u32 <= 0x9fff) == chinese,
    ensures
        stream_model::cjk_count(s) == if chinese {
            s.len() as int
        } else {
            0
        },
    decreases s.len(),
{
    if s.len() > 0 {
        let front = s.drop_last();
        assert forall|i: int| 0 <= i < front.len() implies (0x4e00 <= (#[trigger] front[i]) as u32
            <= 0x9fff) == chinese by {
            assert(front[i] == s[i]);
        }
        lemma_cjk_count(front, chinese);
        assert(s[s.len() - 1] == s.last());
    }
}

/// Mixed text is estimated by its Chinese characters and its other ones, each for themselves.
pub proof fn mixed_text_adds_up(s: Seq<char>, c: char)
    ensures
        stream_model::cjk_count(s.push(c)) == stream_model::cjk_count(s) + if 0x4e00 <= c as u32
            <= 0x9fff {
            1int
        } else {
            0
        },
        ({
            let a = stream_model::cjk_count(s);
            let b = s.len() - a;
            let n = stream_model::estimated_tokens(s);
            a + b > 0 && a >= 0 && b >= 0 ==> n == (a * 2 + 2) / 3 + (b + 3) / 4
        }),
{
    assert(s.push(c).drop_last() =~= s);
}

/// The arguments of a tool call count one token for four bytes, rounded up.
pub proof fn arguments_are_counted_by_bytes(st: StreamView, index: int, input: Seq<char>)
    requires
        text::bytes_of(input).len() + 3 <= i32::MAX,
    ensures
        ({
            let n = text::bytes_of(input).len() as int;
            let more = stream_model::tool_input(st, index, input).0.output_tokens
                - st.output_tokens;
            &&& input.len() > 0 ==> more * 4 >= n && more * 4 < n + 4
            &&& input.len() == 0 ==> more == 0
        }),
{
}

/// Native reasoning is taken only where thinking is wanted and no text came before it; else nothing
/// of it is sent or counted.
pub proof fn unwanted_reasoning_is_dropped(
    st: StreamView,
    s: Seq<char>,
    signature: Option<Seq<char>>,
)
    requires
        s.len() == 0 || !st.thinking_enabled || (st.text_block_index is Some
            && !st.reasoning_block_active),
    ensures
        ({
            let (r, e) = stream_model::reasoning_content(st, s, signature);
            &&& e.len() == 0
            &&& r.output_tokens == st.output_tokens
            &&& r.native_reasoning_seen == st.native_reasoning_seen
            &&& r.sse == st.sse
        }),
{
}

/// The signature of reasoning is the last one that came, with the name of the model in it where it
/// has the shape for that, and else as it came. One that is empty is none.
pub proof fn the_last_signature_is_kept(st: StreamView, s: Seq<char>)
    ensures
        stream_model::kept_signature(st, None) == st.reasoning_signature,
        s.len() == 0 ==> stream_model::kept_signature(st, Some(s)) == st.reasoning_signature,
        s.len() > 0 && signature::signature_with_model(s, st.model) is None
            ==> stream_model::kept_signature(st, Some(s)) == Some(s),
        s.len() > 0 && signature::signature_with_model(s, st.model) is Some
            ==> stream_model::kept_signature(st, Some(s)) == signature::signature_with_model(
            s,
            st.model,
        ),
{
}

/// Native reasoning ends with its signature and the stop of its block.
pub proof fn reasoning_ends_signed(st: StreamView)
    requires
        st.reasoning_block_active,
        st.thinking_block_index is Some,
    ensures
        ({
            let (r, e) = stream_model::close_reasoning(st);
            let i = st.thinking_block_index->0;
            &&& !r.reasoning_block_active
            &&& e.len() >= 1
            &&& e[0].name == "content_block_delta"@
            &&& e[0].data == (DataView::BlockDelta {
                index: i,
                delta: DeltaView::Signature(
                    match st.reasoning_signature {
                        Some(s) => s,
                        None => ""@,
                    },
                ),
            })
            &&& e.len() == 2 ==> e[1].name == "content_block_stop"@ && e[1].data == (
            DataView::BlockStop { index: i })
            &&& e.len() <= 2
            &&& state_manager::block_is_open(st.sse.blocks, i) ==> e.len() == 2
        }),
{
    reveal_strlit("");
    assert(""@ =~= Seq::<char>::empty());
}

/// Thinking between tags is signed with the signature that came, and where none came with one that
/// is made of the model and of all thinking that was sent.
pub proof fn tagged_thinking_is_signed(st: StreamView)
    ensures
        ({
            let d = stream_model::tagged_signature(st);
            &&& st.reasoning_signature matches Some(s) ==> (s.len() > 0 ==> d
                == DeltaView::Signature(s))
            &&& st.reasoning_signature is None || st.reasoning_signature->0.len() == 0 ==> d == (
            DeltaView::PendingSignature { model: st.model, thinking: st.thinking_text })
        }),
{
}

/// An answer of thinking alone counts as cut off, and gets a text of one space.
pub proof fn thinking_alone_is_cut_off(st: StreamView)
    requires
        st.thinking_enabled,
        st.thinking_block_index is Some,
        forall|i: int|
            0 <= i < st.sse.blocks.len() ==> (#[trigger] st.sse.blocks[i]).kind == "thinking"@,
    ensures
        stream_model::complete_thinking_only(st) == stream_model::text_delta(
            StreamView { sse: SseView { stop_reason: Some("max_tokens"@), ..st.sse }, ..st },
            " "@,
        ),
{
}

/// An answer with a block of another kind, or without thinking, is left as it is.
pub proof fn other_answers_are_complete(st: StreamView, i: int)
    requires
        !st.thinking_enabled || st.thinking_block_index is None || (0 <= i < st.sse.blocks.len()
            && st.sse.blocks[i].kind != "thinking"@),
    ensures
        stream_model::complete_thinking_only(st).0 == st,
        stream_model::complete_thinking_only(st).1.len() == 0,
{
}

/// An answer that was held back states the size of the context in its `message_start`, and nothing
/// else of it changes.
pub proof fn held_back_starts_state_the_size(e: EventView, size: int)
    ensures
        e.name == "message_start"@ ==> (e.data matches DataView::MessageStart { id, model, .. }
            ==> stream_model::corrected(e, size) == (EventView {
            name: e.name,
            data: DataView::MessageStart { id, model, input_tokens: size },
        })),
        e.name != "message_start"@ || !(e.data is MessageStart) ==> stream_model::corrected(e, size)
            == e,
{
}

/// A tool call stops the text blocks that are open and no others; a block of another kind stops
/// none.
pub proof fn calls_stop_text_alone(
    st: SseView,
    index: int,
    kind: Seq<char>,
    data: DataView,
    i: int,
)
    requires
        !st.message_delta_sent,
        !st.message_ended,
        0 <= i < st.blocks.len(),
        st.blocks[i].started,
    ensures
        ({
            let after = state_manager::block_started(st, index, kind, data).0;
            &&& i < after.blocks.len()
            &&& after.blocks[i].index == st.blocks[i].index
            &&& after.blocks[i].kind == st.blocks[i].kind
            &&& kind == "tool_use"@ && st.blocks[i].kind == "text"@ ==> after.blocks[i].stopped
            &&& kind != "tool_use"@ || st.blocks[i].kind != "text"@ ==> after.blocks[i].stopped
                == st.blocks[i].stopped
            &&& kind == "tool_use"@ ==> after.has_tool_use
            &&& kind != "tool_use"@ ==> after.has_tool_use == st.has_tool_use
            &&& after.stop_reason == st.stop_reason && after.next_block_index
                == st.next_block_index
        }),
{
    let s = if kind == "tool_use"@ {
        state_manager::closed_blocks(st.blocks, true)
    } else {
        st.blocks
    };
    if let Some(at) = state_manager::block_position(s, index) {
        let k = choose|k: int| state_manager::is_block(s, index, k);
        assert(state_manager::is_block(s, index, k));
        state_manager::lemma_block_position(s, index, k);
    }
}

/// Once an answer has its reason, no block starts any more.
pub proof fn nothing_starts_after_the_end(st: SseView, index: int, kind: Seq<char>, data: DataView)
    requires
        st.message_delta_sent || st.message_ended,
    ensures
        state_manager::block_started(st, index, kind, data).0 == st,
        state_manager::block_started(st, index, kind, data).1.len() == 0,
{
}

/// What the cache read of an answer is computed from: the size of the context, as it was reported
/// or else as it was estimated, and the hit of the simulation, never less than nothing.
pub proof fn reports_start_from_size_and_hit(st: StreamView)
    ensures
        st.context_input_tokens matches Some(n) ==> stream_model::context_size(st) == n,
        st.context_input_tokens is None ==> stream_model::context_size(st) == st.input_tokens,
        st.sim_cache matches Some((hit, _)) ==> {
            &&& hit >= 0 ==> stream_model::simulated_hit(st) == hit
            &&& hit < 0 ==> stream_model::simulated_hit(st) == 0
        },
        st.sim_cache is None ==> stream_model::simulated_hit(st) == 0,
        stream::is_cache_read(st, 0),
        0 <= stream_model::context_size(st) ==> stream::is_cache_read(
            st,
            stream_model::context_size(st),
        ),
{
}

/// An answer of ordinary size is taken to its end: each event whose texts have up to a million
/// characters, while up to a million blocks and a thousand million tokens were counted.
pub proof fn ordinary_events_fit(st: StreamView, event: Event)
    requires
        0 <= st.sse.next_block_index <= 1_000_000,
        0 <= st.output_tokens <= 1_000_000_000,
        event matches Event::AssistantResponse { content } ==> content@.len() <= 1_000_000,
        event matches Event::ReasoningContent(r) ==> r.text@.len() <= 1_000_000,
        event matches Event::ToolUse(t) ==> text::bytes_of(t.input@).len() <= 1_000_000,
        event matches Event::TokenUsage(t) ==> {
            &&& 0 <= t.uncached_input_tokens <= 1_000_000_000
            &&& t.cache_read_input_tokens matches Some(n) ==> 0 <= n <= 1_000_000_000
        },
    ensures
        stream::event_fits(st, event),
{
    match event {
        Event::AssistantResponse { content } => lemma_cjk_within(content@),
        Event::ReasoningContent(r) => lemma_cjk_within(r.text@),
        _ => {},
    }
}

proof fn lemma_cjk_within(s: Seq<char>)
    ensures
        0 <= stream_model::cjk_count(s) <= s.len(),
    decreases s.len(),
{
    if s.len() > 0 {
        lemma_cjk_within(s.drop_last());
    }
}

/// A failure that is recorded stays the first one that came.
pub proof fn only_the_first_failure_counts(st: StreamView, f: FailureView)
    ensures
        st.failure is None ==> stream_model::with_failure(st, f) == (StreamView {
            failure: Some(f),
            ..st
        }),
        st.failure is Some ==> stream_model::with_failure(st, f) == st,
{
}

/// What scanning leaves alone: the output that was counted, and whether the answer failed.
proof fn lemma_scans_count_nothing(st: StreamView)
    ensures
        stream_model::scan_thinking(st).0.output_tokens == st.output_tokens,
        stream_model::scan_thinking(st).0.failure == st.failure,
        stream_model::scan_text(st).0.output_tokens == st.output_tokens,
        stream_model::scan_text(st).0.failure == st.failure,
{
    lemma_scan_thinking_counts_nothing(st);
    reveal(stream_model::scan_text);
    match thinking::start_tag_after(st.after_quote, st.buffer) {
        Some(start) => {
            let before = text::text_before(st.buffer, start);
            stream_model::lemma_text_delta_frame(st, before);
            let s1 = if text::is_blank(before) {
                st
            } else {
                stream_model::text_delta(st, before).0
            };
            let sse = stream_model::open_block(
                s1.sse,
                "thinking"@,
                BlockHeaderView::Thinking,
            ).0;
            lemma_scan_thinking_counts_nothing(
                StreamView {
                    sse,
                    in_thinking_block: true,
                    strip_newline: true,
                    buffer: text::text_from(st.buffer, start + 10),
                    after_quote: false,
                    thinking_block_index: Some(s1.sse.next_block_index),
                    ..s1
                },
            );
        },
        None => {
            let n = stream_model::safe_length(st.buffer, 10);
            stream_model::lemma_text_delta_frame(st, text::text_before(st.buffer, n));
        },
    }
}

proof fn lemma_scan_thinking_counts_nothing(st0: StreamView)
    ensures
        stream_model::scan_thinking(st0).0.output_tokens == st0.output_tokens,
        stream_model::scan_thinking(st0).0.failure == st0.failure,
{
    reveal(stream_model::scan_thinking);
    let st = stream_model::stripped(st0);
    match thinking::end_tag_after(st.after_quote, st.buffer) {
        Some(end) => {
            let before = text::text_before(st.buffer, end);
            stream_model::lemma_tagged_delta_frame(st, before);
            let s1 = stream_model::tagged_delta(st, before).0;
            let s2 = StreamView { in_thinking_block: false, thinking_extracted: true, ..s1 };
            stream_model::lemma_close_tagged_frame(s2);
            let s3 = stream_model::close_tagged(s2).0;
            stream_model::lemma_text_delta_frame(
                StreamView { buffer: Seq::empty(), after_quote: false, ..s3 },
                text::text_from(st.buffer, end + 13),
            );
        },
        None => {
            let n = stream_model::safe_length(st.buffer, 13);
            stream_model::lemma_tagged_delta_frame(st, text::text_before(st.buffer, n));
        },
    }
}

/// All text of an answer counts as output, whatever becomes of it; so does reasoning that is taken,
/// and no other event but a tool call.
pub proof fn output_is_counted(st: StreamView, content: Seq<char>, signature: Option<Seq<char>>)
    requires
        content.len() > 0,
    ensures
        stream_model::assistant_response(st, content).0.output_tokens == st.output_tokens
            + stream_model::estimated_tokens(content),
        st.thinking_enabled && st.text_block_index is None ==> stream_model::reasoning_content(
            st,
            content,
            signature,
        ).0.output_tokens == st.output_tokens + stream_model::estimated_tokens(content),
        stream_model::assistant_response(st, content).0.failure == st.failure,
{
    let s0 = StreamView {
        output_tokens: st.output_tokens + stream_model::estimated_tokens(content),
        ..st
    };
    let s1 = stream_model::close_reasoning(s0).0;
    stream_model::lemma_text_delta_frame(s1, content);
    let s2 = StreamView { buffer: s1.buffer + content, ..s1 };
    lemma_scans_count_nothing(s2);
    stream_model::lemma_text_delta_frame(
        StreamView { buffer: Seq::empty(), after_quote: false, ..s2 },
        s2.buffer,
    );
    let k = StreamView {
        reasoning_signature: stream_model::kept_signature(st, signature),
        ..s0
    };
    stream_model::lemma_turn_to_native_frame(k);
    reveal(stream_model::open_reasoning);
}

/// The cost of an answer is kept as it was told, and changes nothing that the client gets; events
/// that carry nothing change nothing.
pub proof fn costs_are_kept(st: StreamView, m: MeteringEvent)
    ensures
        stream::event_step(st, Event::Metering(m)).1.len() == 0,
        stream::event_step(st, Event::Metering(m)).0.metering_usage == Some(m.usage.bits),
        stream::event_step(st, Event::Metering(m)).0.sse == st.sse,
        stream::event_step(st, Event::Metering(m)).0.output_tokens == st.output_tokens,
        stream::event_step(st, Event::Metering(m)).0.context_input_tokens
            == st.context_input_tokens,
        stream::event_step(st, Event::Other).1.len() == 0,
        stream::event_step(st, Event::Other).0 == st,
{
}

/// The block of a call stops as soon as the call is complete, and stays open until then.
pub proof fn complete_calls_stop(st: StreamView, index: int, stop: bool)
    requires
        state_manager::block_is_open(st.sse.blocks, index),
    ensures
        ({
            let (r, e) = stream_model::tool_stop(st, index, stop);
            &&& stop ==> {
                &&& e.len() == 1
                &&& e[0].name == "content_block_stop"@
                &&& e[0].data == (DataView::BlockStop { index })
                &&& !state_manager::block_is_open(r.sse.blocks, index)
            }
            &&& !stop ==> e.len() == 0 && state_manager::block_is_open(r.sse.blocks, index)
            &&& r.output_tokens == st.output_tokens
        }),
{
    if stop {
        let at = state_manager::block_position(st.sse.blocks, index)->0;
        let after = stream_model::tool_stop(st, index, stop).0.sse.blocks;
        protocol::lemma_position_is(st.sse.blocks, index);
        state_manager::lemma_block_position(after, index, at);
    }
}

/// Sending what was held back does not end the answer.
proof fn lemma_complete_content_goes_on(st: StreamView)
    requires
        !st.sse.message_delta_sent,
        !st.sse.message_ended,
    ensures
        !stream_model::complete_content(st).0.sse.message_delta_sent,
        !stream_model::complete_content(st).0.sse.message_ended,
{
    reveal(stream_model::flush_at_end);
    let s1 = stream_model::close_reasoning(st).0;
    reveal(stream_model::end_thinking);
    reveal(stream_model::tagged_delta);
    reveal(stream_model::close_tagged);
    stream_model::lemma_text_delta_frame(s1, s1.buffer);
    let s2 = stream_model::flush_at_end(s1).0;
    stream_model::lemma_text_delta_frame(
        StreamView { sse: SseView { stop_reason: Some("max_tokens"@), ..s2.sse }, ..s2 },
        " "@,
    );
}

/// An answer of which something came, output or a call or reasoning, and that did not fail, is
/// completed: its last events are its counts and its stop.
pub proof fn answers_with_content_are_completed(st: StreamView, reported: int)
    requires
        !st.sse.message_delta_sent,
        !st.sse.message_ended,
        st.failure is None,
        st.output_tokens > 0 || st.native_reasoning_seen || st.tools != Map::<
            Seq<char>,
            i32,
        >::empty(),
    ensures
        ({
            let (r, e) = stream_model::final_events(st, reported);
            let n = e.len() as int;
            &&& n >= 2
            &&& e[n - 2].name == "message_delta"@
            &&& e[n - 1].name == "message_stop"@ && e[n - 1].data is MessageStop
            &&& r.output_tokens == st.output_tokens
            &&& r.sse.message_ended
        }),
{
    stream_model::lemma_complete_content_keeps_counts(st);
    lemma_complete_content_goes_on(st);
    let (s1, e1) = stream_model::complete_content(st);
    let (s2, e2) = stream_model::finish_message(s1, reported);
    let n = e2.len() as int;
    assert(e2[n - 2].name == "message_delta"@);
    let all = e1 + e2;
    assert(all[all.len() - 2] == e2[n - 2]);
    assert(all[all.len() - 1] == e2[n - 1]);
}

} // verus!
