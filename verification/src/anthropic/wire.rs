//! What the client reads of an answer: the members of the JSON objects that it gets.

use vstd::prelude::*;

use crate::anthropic::delivery;
use crate::anthropic::protocol;
use crate::anthropic::protocol::Protocol;
use crate::anthropic::sse;
use crate::anthropic::sse::{BlockHeaderView, DataView, DeltaView, EventView};
use crate::anthropic::state_manager;
use crate::anthropic::state_manager::{BlockView, SseView};
use crate::anthropic::stream;
use crate::anthropic::stream_model;
use crate::anthropic::stream_model::StreamView;
use crate::anthropic::tool_calls;
use crate::anthropic::thinking;
use crate::anthropic::usage;
use crate::json;
use crate::json::JsonView;
use crate::kiro::model::events::{Event, ToolUseEvent};
use crate::text;

verus! {

/// The text at `outer` and `inner` in an object.
pub open spec fn text_at(v: JsonView, outer: Seq<char>, inner: Seq<char>) -> Option<Seq<char>> {
    match v.member(outer) {
        Some(m) => match m.member(inner) {
            Some(JsonView::Text(s)) => Some(s),
            _ => None,
        },
        None => None,
    }
}

/// The keys of the objects differ.
proof fn lemma_keys()
    ensures
        "type"@ != "id"@,
        "type"@ != "name"@,
        "type"@ != "input"@,
        "type"@ != "text"@,
        "type"@ != "thinking"@,
        "type"@ != "signature"@,
        "type"@ != "partial_json"@,
        "type"@ != "index"@,
        "type"@ != "content_block"@,
        "type"@ != "delta"@,
        "type"@ != "message"@,
        "type"@ != "usage"@,
        "type"@ != "error"@,
        "type"@ != "role"@,
        "type"@ != "content"@,
        "type"@ != "model"@,
        "type"@ != "stop_reason"@,
        "type"@ != "stop_sequence"@,
        "id"@ != "name"@,
        "id"@ != "input"@,
        "name"@ != "input"@,
        "index"@ != "content_block"@,
        "index"@ != "delta"@,
        "delta"@ != "usage"@,
        "id"@ != "role"@,
        "id"@ != "content"@,
        "id"@ != "model"@,
        "id"@ != "stop_reason"@,
        "id"@ != "stop_sequence"@,
        "id"@ != "usage"@,
        "role"@ != "content"@,
        "role"@ != "model"@,
        "role"@ != "stop_reason"@,
        "role"@ != "stop_sequence"@,
        "role"@ != "usage"@,
        "content"@ != "model"@,
        "content"@ != "stop_reason"@,
        "content"@ != "stop_sequence"@,
        "content"@ != "usage"@,
        "model"@ != "stop_reason"@,
        "model"@ != "stop_sequence"@,
        "model"@ != "usage"@,
        "stop_reason"@ != "stop_sequence"@,
        "stop_reason"@ != "usage"@,
        "stop_sequence"@ != "usage"@,
        "input_tokens"@ != "output_tokens"@,
        "input_tokens"@ != "cache_read_input_tokens"@,
        "input_tokens"@ != "cache_creation_input_tokens"@,
        "output_tokens"@ != "cache_read_input_tokens"@,
        "output_tokens"@ != "cache_creation_input_tokens"@,
        "cache_read_input_tokens"@ != "cache_creation_input_tokens"@,
        "text"@ != "tool_use"@,
        "thinking"@ != "tool_use"@,
{
    reveal_strlit("type");
    reveal_strlit("id");
    reveal_strlit("name");
    reveal_strlit("input");
    reveal_strlit("text");
    reveal_strlit("thinking");
    reveal_strlit("tool_use");
    reveal_strlit("signature");
    reveal_strlit("partial_json");
    reveal_strlit("index");
    reveal_strlit("content_block");
    reveal_strlit("delta");
    reveal_strlit("message");
    reveal_strlit("usage");
    reveal_strlit("error");
    reveal_strlit("role");
    reveal_strlit("content");
    reveal_strlit("model");
    reveal_strlit("stop_reason");
    reveal_strlit("stop_sequence");
    reveal_strlit("input_tokens");
    reveal_strlit("output_tokens");
    reveal_strlit("cache_read_input_tokens");
    reveal_strlit("cache_creation_input_tokens");
    assert("type"@[0] == 't' && "type"@[1] == 'y');
    assert("text"@[1] == 'e');
    assert("name"@[0] == 'n');
    assert("role"@[0] == 'r');
    assert("input"@[0] == 'i' && "input"@[2] == 'p');
    assert("index"@[2] == 'd');
    assert("delta"@[0] == 'd');
    assert("usage"@[0] == 'u');
    assert("error"@[0] == 'e');
    assert("model"@[0] == 'm');
    assert("content"@[0] == 'c');
    assert("message"@[0] == 'm');
    assert("thinking"@[1] == 'h' && "tool_use"@[1] == 'o');
    assert("stop_reason"@.len() == 11 && "stop_sequence"@.len() == 13);
    assert("id"@.len() == 2 && "input"@.len() == 5);
    assert("input_tokens"@.len() == 12 && "output_tokens"@.len() == 13);
    assert("cache_read_input_tokens"@.len() == 23);
    assert("cache_creation_input_tokens"@.len() == 27);
}

/// The start of a block says which block it is and, of a tool call, its identifier, its name and
/// arguments without members. The other blocks start out empty.
pub proof fn block_starts_say_what_starts(index: int, block: BlockHeaderView)
    ensures
        ({
            let v = DataView::BlockStart { index, block }.json();
            let b = v.member("content_block"@)->0;
            &&& v.member("type"@) == Some(JsonView::Text("content_block_start"@))
            &&& v.member("index"@) == Some(JsonView::Int(index))
            &&& v.member("content_block"@) is Some
            &&& block matches BlockHeaderView::ToolUse { id, name } ==> {
                &&& b.member("type"@) == Some(JsonView::Text("tool_use"@))
                &&& b.member("id"@) == Some(JsonView::Text(id))
                &&& b.member("name"@) == Some(JsonView::Text(name))
                &&& b.member("input"@) == Some(JsonView::Object(Map::empty()))
            }
            &&& block is Text ==> {
                &&& b.member("type"@) == Some(JsonView::Text("text"@))
                &&& b.member("text"@) == Some(JsonView::Text(""@))
            }
            &&& block is Thinking ==> {
                &&& b.member("type"@) == Some(JsonView::Text("thinking"@))
                &&& b.member("thinking"@) == Some(JsonView::Text(""@))
            }
        }),
{
    lemma_keys();
}

/// A delta says to which block it belongs and of which type it is, and holds its text under the
/// key of that type, unchanged.
pub proof fn deltas_hold_their_text(index: int, delta: DeltaView)
    ensures
        ({
            let v = DataView::BlockDelta { index, delta }.json();
            let d = v.member("delta"@)->0;
            &&& v.member("type"@) == Some(JsonView::Text("content_block_delta"@))
            &&& v.member("index"@) == Some(JsonView::Int(index))
            &&& v.member("delta"@) is Some
            &&& delta matches DeltaView::Text(s) ==> {
                &&& d.member("type"@) == Some(JsonView::Text("text_delta"@))
                &&& d.member("text"@) == Some(JsonView::Text(s))
            }
            &&& delta matches DeltaView::Thinking(s) ==> {
                &&& d.member("type"@) == Some(JsonView::Text("thinking_delta"@))
                &&& d.member("thinking"@) == Some(JsonView::Text(s))
            }
            &&& delta matches DeltaView::Signature(s) ==> {
                &&& d.member("type"@) == Some(JsonView::Text("signature_delta"@))
                &&& d.member("signature"@) == Some(JsonView::Text(s))
            }
            &&& delta matches DeltaView::InputJson(s) ==> {
                &&& d.member("type"@) == Some(JsonView::Text("input_json_delta"@))
                &&& d.member("partial_json"@) == Some(JsonView::Text(s))
            }
        }),
{
    lemma_keys();
}

/// The start of a message says who answers, with which model, under which identifier, and how long
/// the question is; nothing of the answer is there yet.
pub proof fn message_starts_say_who_answers(id: Seq<char>, model: Seq<char>, input_tokens: int)
    ensures
        ({
            let v = DataView::MessageStart { id, model, input_tokens }.json();
            let m = v.member("message"@)->0;
            let u = m.member("usage"@)->0;
            &&& v.member("type"@) == Some(JsonView::Text("message_start"@))
            &&& v.member("message"@) is Some
            &&& m.member("id"@) == Some(JsonView::Text(id))
            &&& m.member("type"@) == Some(JsonView::Text("message"@))
            &&& m.member("role"@) == Some(JsonView::Text("assistant"@))
            &&& m.member("model"@) == Some(JsonView::Text(model))
            &&& m.member("content"@) == Some(JsonView::Array(Seq::empty()))
            &&& m.member("stop_reason"@) == Some(JsonView::Null)
            &&& m.member("stop_sequence"@) == Some(JsonView::Null)
            &&& m.member("usage"@) is Some
            &&& u.member("input_tokens"@) == Some(JsonView::Int(input_tokens))
            &&& u.member("output_tokens"@) == Some(JsonView::Int(1))
        }),
{
    lemma_keys();
}

/// The other events: the stop of a block names it, the end says why the answer ended and what it
/// took, an error says what went wrong.
pub proof fn ends_say_why(
    index: int,
    stop_reason: Seq<char>,
    counts: JsonView,
    message: Seq<char>,
    payload: JsonView,
)
    ensures
        ({
            let v = DataView::BlockStop { index }.json();
            &&& v.member("type"@) == Some(JsonView::Text("content_block_stop"@))
            &&& v.member("index"@) == Some(JsonView::Int(index))
        }),
        ({
            let v = DataView::MessageDelta { stop_reason, usage: counts }.json();
            &&& v.member("type"@) == Some(JsonView::Text("message_delta"@))
            &&& text_at(v, "delta"@, "stop_reason"@) == Some(stop_reason)
            &&& v.member("delta"@)->0.member("stop_sequence"@) == Some(JsonView::Null)
            &&& v.member("usage"@) == Some(counts)
        }),
        DataView::MessageStop.json().member("type"@) == Some(JsonView::Text("message_stop"@)),
        ({
            let v = DataView::Failure { message }.json();
            &&& v.member("type"@) == Some(JsonView::Text("error"@))
            &&& text_at(v, "error"@, "type"@) == Some("api_error"@)
            &&& text_at(v, "error"@, "message"@) == Some(message)
        }),
        DataView::Payload(payload).json() == payload,
{
    lemma_keys();
}

/// The counts at the end of an answer: what no cache served, never less than nothing; what was
/// written; and the cache counts where they are positive.
pub proof fn usage_says_what_was_counted(total: int, output: int, cache_read: int, cache_creation: int)
    ensures
        ({
            let u = usage::usage_model(total, output, cache_read, cache_creation);
            let rest = total - cache_read - cache_creation;
            &&& u.member("output_tokens"@) == Some(JsonView::Int(output))
            &&& rest >= 0 ==> u.member("input_tokens"@) == Some(JsonView::Int(rest))
            &&& rest < 0 ==> u.member("input_tokens"@) == Some(JsonView::Int(0))
            &&& cache_read > 0 ==> u.member("cache_read_input_tokens"@) == Some(
                JsonView::Int(cache_read),
            )
            &&& cache_read <= 0 ==> u.member("cache_read_input_tokens"@) is None
            &&& cache_creation > 0 ==> u.member("cache_creation_input_tokens"@) == Some(
                JsonView::Int(cache_creation),
            )
            &&& cache_creation <= 0 ==> u.member("cache_creation_input_tokens"@) is None
        }),
{
    lemma_keys();
}

/// An event goes over the wire in two lines, its name and its data, and an empty one.
pub proof fn frames_have_two_lines(e: EventView)
    ensures
        sse::sse_frame(e) == ("event: "@ + e.name + "\n"@) + ("data: "@ + json::json_text(
            e.data.json(),
        ) + "\n"@) + "\n"@,
{
    reveal_strlit("\n");
    reveal_strlit("\n\n");
    reveal_strlit("data: ");
    reveal_strlit("\ndata: ");
    assert("\ndata: "@ =~= "\n"@ + "data: "@);
    assert("\n\n"@ =~= "\n"@ + "\n"@);
    assert(sse::sse_frame(e) =~= ("event: "@ + e.name + "\n"@) + ("data: "@ + json::json_text(
        e.data.json(),
    ) + "\n"@) + "\n"@);
}

/// The event announces a tool call.
pub open spec fn announces_call(e: EventView) -> bool {
    e.data is BlockStart && text_at(e.data.json(), "content_block"@, "type"@) == Some("tool_use"@)
}

/// No event announces a tool call.
pub open spec fn announce_none(events: Seq<EventView>) -> bool {
    forall|k: int| 0 <= k < events.len() ==> !announces_call(#[trigger] events[k])
}

proof fn lemma_announce_concat(a: Seq<EventView>, b: Seq<EventView>)
    requires
        announce_none(a),
        announce_none(b),
    ensures
        announce_none(a + b),
{
    assert forall|k: int| 0 <= k < (a + b).len() implies !announces_call(#[trigger] (a + b)[k]) by {
        if k < a.len() {
            assert((a + b)[k] == a[k]);
        } else {
            assert((a + b)[k] == b[k - a.len()]);
        }
    }
}

proof fn lemma_closing_announces_none(blocks: Seq<BlockView>, only_text: bool, sign: bool)
    ensures
        announce_none(state_manager::closing_events(blocks, only_text, sign)),
    decreases blocks.len(),
{
    if blocks.len() > 0 {
        lemma_closing_announces_none(blocks.drop_last(), only_text, sign);
        lemma_announce_concat(
            state_manager::closing_events(blocks.drop_last(), only_text, sign),
            state_manager::closing_events_of(blocks.last(), only_text, sign),
        );
    }
}

proof fn lemma_open_announces_none(s: SseView, kind: Seq<char>, block: BlockHeaderView)
    requires
        !(block is ToolUse),
    ensures
        announce_none(stream_model::open_block(s, kind, block).1),
{
    lemma_keys();
    block_starts_say_what_starts(s.next_block_index, block);
    lemma_closing_announces_none(s.blocks, true, false);
}

proof fn lemma_text_announces_none(st: StreamView, s: Seq<char>)
    ensures
        announce_none(stream_model::text_delta(st, s).1),
{
    reveal(stream_model::text_delta);
    lemma_open_announces_none(st.sse, "text"@, BlockHeaderView::Text);
}

proof fn lemma_tagged_announces_none(st: StreamView, s: Seq<char>)
    ensures
        announce_none(stream_model::tagged_delta(st, s).1),
{
    reveal(stream_model::tagged_delta);
    lemma_open_announces_none(st.sse, "thinking"@, BlockHeaderView::Thinking);
}

proof fn lemma_ends_announce_none(st: StreamView)
    ensures
        announce_none(stream_model::close_tagged(st).1),
        announce_none(stream_model::close_reasoning(st).1),
        announce_none(stream_model::flush_as_text(st).1),
{
    reveal(stream_model::close_tagged);
    if st.buffer.len() > 0 {
        lemma_text_announces_none(
            StreamView { buffer: Seq::empty(), after_quote: false, ..st },
            st.buffer,
        );
    }
}

proof fn lemma_end_thinking_announces_none(st: StreamView)
    ensures
        announce_none(stream_model::end_thinking(st).1),
{
    reveal(stream_model::end_thinking);
    let content = match thinking::trailing_end_tag_after(st.after_quote, st.buffer) {
        Some(end) => text::text_before(st.buffer, end),
        None => st.buffer,
    };
    lemma_tagged_announces_none(st, content);
    let (s1, e1) = stream_model::tagged_delta(st, content);
    let s2 = StreamView { in_thinking_block: false, thinking_extracted: true, ..s1 };
    lemma_ends_announce_none(s2);
    lemma_announce_concat(e1, stream_model::close_tagged(s2).1);
}

proof fn lemma_pause_thinking_announces_none(st0: StreamView)
    ensures
        announce_none(stream_model::pause_thinking(st0).1),
{
    reveal(stream_model::pause_thinking);
    let st = stream_model::stripped(st0);
    let content = text::text_before(st.buffer, thinking::begun_tag_offset(st.buffer));
    lemma_tagged_announces_none(st, content);
    let (s1, e1) = stream_model::tagged_delta(st, content);
    lemma_ends_announce_none(s1);
    lemma_announce_concat(e1, stream_model::close_tagged(s1).1);
}

proof fn lemma_scan_thinking_announces_none(st0: StreamView)
    ensures
        announce_none(stream_model::scan_thinking(st0).1),
{
    reveal(stream_model::scan_thinking);
    let st = stream_model::stripped(st0);
    match thinking::end_tag_after(st.after_quote, st.buffer) {
        Some(end) => {
            let before = text::text_before(st.buffer, end);
            lemma_tagged_announces_none(st, before);
            let (s1, e1) = stream_model::tagged_delta(st, before);
            let s2 = StreamView { in_thinking_block: false, thinking_extracted: true, ..s1 };
            lemma_ends_announce_none(s2);
            let (s3, e3) = stream_model::close_tagged(s2);
            let s4 = StreamView { buffer: text::text_from(st.buffer, end + 13), ..s3 };
            lemma_ends_announce_none(s4);
            lemma_announce_concat(e1, e3);
            lemma_announce_concat(e1 + e3, stream_model::flush_as_text(s4).1);
        },
        None => {
            let n = stream_model::safe_length(st.buffer, 13);
            lemma_tagged_announces_none(st, text::text_before(st.buffer, n));
        },
    }
}

proof fn lemma_scan_text_announces_none(st: StreamView)
    ensures
        announce_none(stream_model::scan_text(st).1),
{
    reveal(stream_model::scan_text);
    match thinking::start_tag_after(st.after_quote, st.buffer) {
        Some(start) => {
            let before = text::text_before(st.buffer, start);
            lemma_text_announces_none(st, before);
            let (s1, e1) = if text::is_blank(before) {
                (st, Seq::empty())
            } else {
                stream_model::text_delta(st, before)
            };
            let index = s1.sse.next_block_index;
            lemma_open_announces_none(s1.sse, "thinking"@, BlockHeaderView::Thinking);
            let (sse, e2) = stream_model::open_block(
                s1.sse,
                "thinking"@,
                BlockHeaderView::Thinking,
            );
            let s2 = StreamView {
                sse,
                in_thinking_block: true,
                strip_newline: true,
                buffer: text::text_from(st.buffer, start + 10),
                after_quote: false,
                thinking_block_index: Some(index),
                ..s1
            };
            lemma_scan_thinking_announces_none(s2);
            lemma_announce_concat(e1, e2);
            lemma_announce_concat(e1 + e2, stream_model::scan_thinking(s2).1);
        },
        None => {
            let n = stream_model::safe_length(st.buffer, 10);
            lemma_text_announces_none(st, text::text_before(st.buffer, n));
        },
    }
}

proof fn lemma_response_announces_none(st: StreamView, content: Seq<char>)
    ensures
        announce_none(stream_model::assistant_response(st, content).1),
{
    if content.len() > 0 {
        let s0 = StreamView {
            output_tokens: st.output_tokens + stream_model::estimated_tokens(content),
            ..st
        };
        lemma_ends_announce_none(s0);
        let (s1, e1) = stream_model::close_reasoning(s0);
        let s = StreamView { buffer: s1.buffer + content, ..s1 };
        lemma_scan_text_announces_none(s);
        lemma_scan_thinking_announces_none(s);
        lemma_ends_announce_none(s);
        lemma_text_announces_none(s1, content);
        let e2 = if s1.thinking_enabled && !s1.native_reasoning_seen {
            stream_model::content_with_thinking(s1, content).1
        } else {
            stream_model::text_delta(s1, content).1
        };
        lemma_announce_concat(e1, e2);
    }
}

proof fn lemma_reasoning_announces_none(st0: StreamView, s: Seq<char>, signature: Option<Seq<char>>)
    ensures
        announce_none(stream_model::reasoning_content(st0, s, signature).1),
{
    reveal(stream_model::turn_to_native);
    reveal(stream_model::open_reasoning);
    let st = StreamView {
        reasoning_signature: stream_model::kept_signature(st0, signature),
        ..st0
    };
    let s1 = StreamView {
        output_tokens: st.output_tokens + stream_model::estimated_tokens(s),
        ..st
    };
    lemma_ends_announce_none(
        StreamView {
            in_thinking_block: false,
            thinking_extracted: false,
            reasoning_signature: None,
            ..s1
        },
    );
    let (s2, e2) = stream_model::turn_to_native(s1);
    lemma_open_announces_none(s2.sse, "thinking"@, BlockHeaderView::Thinking);
    let (s3, e3) = stream_model::open_reasoning(s2);
    let (s4, e4) = stream_model::thinking_delta(s3, s);
    lemma_announce_concat(e2, e3);
    lemma_announce_concat(e2 + e3, e4);
}

proof fn lemma_before_tool_announces_none(st: StreamView)
    ensures
        announce_none(stream_model::before_tool(st).1),
{
    lemma_ends_announce_none(st);
    let (s1, e1) = stream_model::close_reasoning(st);
    let s2 = StreamView { sse: SseView { has_tool_use: true, ..s1.sse }, ..s1 };
    lemma_end_thinking_announces_none(s2);
    lemma_pause_thinking_announces_none(s2);
    let (s3, e3) = if s2.thinking_enabled && s2.in_thinking_block {
        stream_model::yield_thinking(s2)
    } else {
        (s2, Seq::empty())
    };
    lemma_ends_announce_none(s3);
    let (s4, e4) = if s3.thinking_enabled && !s3.in_thinking_block && !s3.thinking_extracted {
        stream_model::flush_as_text(s3)
    } else {
        (s3, Seq::empty())
    };
    lemma_announce_concat(e1, e3);
    lemma_announce_concat(e1 + e3, e4);
}

/// What an event of the service sends: a tool call is announced by a piece of that call alone. The
/// announcement has the identifier of the call, the name under which its tool is shown, and
/// arguments without members.
pub proof fn calls_are_announced_by_their_own(st: StreamView, event: Event, k: int)
    requires
        0 <= k < stream::event_step(st, event).1.len(),
        announces_call(stream::event_step(st, event).1[k]),
    ensures
        event is ToolUse,
        event matches Event::ToolUse(t) ==> {
            let v = stream::event_step(st, event).1[k].data.json();
            &&& text_at(v, "content_block"@, "id"@) == Some(t.tool_use_id@)
            &&& text_at(v, "content_block"@, "name"@) == Some(
                if st.tool_names.dom().contains(t.name@) {
                    st.tool_names[t.name@]@
                } else {
                    t.name@
                },
            )
            &&& v.member("content_block"@)->0.member("input"@) == Some(
                JsonView::Object(Map::empty()),
            )
        },
{
    match event {
        Event::AssistantResponse { content } => {
            lemma_response_announces_none(st, content@);
        },
        Event::ReasoningContent(r) => {
            lemma_reasoning_announces_none(
                st,
                r.text@,
                state_manager::optional_text(r.signature),
            );
        },
        Event::ToolUse(t) => {
            lemma_before_tool_announces_none(st);
            stream_model::lemma_before_tool_bounds(st);
            let (s1, e1) = stream_model::before_tool(st);
            let (s2, e2, index) = stream_model::tool_block(s1, t.name@, t.tool_use_id@);
            let (s3, e3) = stream_model::tool_input(s2, index, t.input@);
            let (s4, e4) = stream_model::tool_stop(s3, index, t.stop);
            let stops = state_manager::closing_events(s1.sse.blocks, true, false);
            lemma_closing_announces_none(s1.sse.blocks, true, false);
            lemma_keys();
            let block = BlockHeaderView::ToolUse {
                id: t.tool_use_id@,
                name: stream_model::shown_name(s1, t.name@),
            };
            block_starts_say_what_starts(index, block);
            let start = state_manager::block_start_event(stream_model::start_data(index, block));
            let e = stream::event_step(st, event).1;
            assert(e == e1 + e2 + e3 + e4);
            if k < e1.len() {
                assert(e[k] == e1[k]);
            } else if k < e1.len() + e2.len() {
                assert(e[k] == e2[k - e1.len()]);
                if k - e1.len() < stops.len() {
                    assert(e2[k - e1.len()] == stops[k - e1.len()]);
                }
                assert(e[k] == start);
            } else if k < e1.len() + e2.len() + e3.len() {
                assert(e[k] == e3[k - e1.len() - e2.len()]);
            } else {
                assert(e[k] == e4[k - e1.len() - e2.len() - e3.len()]);
            }
        },
        _ => {},
    }
}

/// The first piece of a call announces it, once, on the block that the call gets.
pub proof fn new_calls_are_announced(p: Protocol, st: StreamView, t: ToolUseEvent) -> (k: int)
    requires
        protocol::good(p, st),
        stream::tool_use_fits(st, t),
        !st.tools.dom().contains(t.tool_use_id@),
    ensures
        ({
            let e = stream::event_step(st, Event::ToolUse(t)).1;
            &&& 0 <= k < e.len()
            &&& announces_call(e[k])
            &&& text_at(e[k].data.json(), "content_block"@, "id"@) == Some(t.tool_use_id@)
            &&& e[k].name == "content_block_start"@
        }),
{
    let e = stream::event_step(st, Event::ToolUse(t)).1;
    let index = stream_model::before_tool(st).0.sse.next_block_index;
    tool_calls::first_piece_opens_a_block(p, st, t);
    let start = tool_calls::opening_event(st, index, t);
    let mine = tool_calls::for_block(e, index);
    assert(mine[0] == start);
    lemma_keys();
    block_starts_say_what_starts(index, start.data->BlockStart_block);
    tool_calls::lemma_for_block_from(e, index, 0)
}

/// Calls with different identifiers are announced with different identifiers.
pub proof fn calls_keep_apart(
    a: StreamView,
    one: ToolUseEvent,
    j: int,
    b: StreamView,
    other: ToolUseEvent,
    k: int,
)
    requires
        0 <= j < stream::event_step(a, Event::ToolUse(one)).1.len(),
        0 <= k < stream::event_step(b, Event::ToolUse(other)).1.len(),
        announces_call(stream::event_step(a, Event::ToolUse(one)).1[j]),
        announces_call(stream::event_step(b, Event::ToolUse(other)).1[k]),
        one.tool_use_id@ != other.tool_use_id@,
    ensures
        text_at(
            stream::event_step(a, Event::ToolUse(one)).1[j].data.json(),
            "content_block"@,
            "id"@,
        ) != text_at(
            stream::event_step(b, Event::ToolUse(other)).1[k].data.json(),
            "content_block"@,
            "id"@,
        ),
{
    calls_are_announced_by_their_own(a, Event::ToolUse(one), j);
    calls_are_announced_by_their_own(b, Event::ToolUse(other), k);
}

/// Each event has the name that its data says, so that a client may go by either.
pub proof fn names_are_types(index: int, block: BlockHeaderView, delta: DeltaView, sign: Seq<char>)
    ensures
        ({
            let e = state_manager::block_start_event(DataView::BlockStart { index, block });
            e.name == "content_block_start"@ && e.data.json().member("type"@) == Some(
                JsonView::Text(e.name),
            )
        }),
        ({
            let e = state_manager::block_delta_event(DataView::BlockDelta { index, delta });
            e.name == "content_block_delta"@ && e.data.json().member("type"@) == Some(
                JsonView::Text(e.name),
            )
        }),
        ({
            let e = state_manager::block_stop_event(index);
            &&& e.name == "content_block_stop"@
            &&& e.data.json().member("type"@) == Some(JsonView::Text(e.name))
            &&& e.data.json().member("index"@) == Some(JsonView::Int(index))
        }),
        ({
            let e = state_manager::signature_event(index, sign);
            &&& e.name == "content_block_delta"@
            &&& text_at(e.data.json(), "delta"@, "type"@) == Some("signature_delta"@)
            &&& text_at(e.data.json(), "delta"@, "signature"@) == Some(sign)
            &&& e.data.json().member("index"@) == Some(JsonView::Int(index))
        }),
{
    block_starts_say_what_starts(index, block);
    deltas_hold_their_text(index, delta);
    deltas_hold_their_text(index, DeltaView::Signature(sign));
    ends_say_why(index, ""@, JsonView::Null, ""@, JsonView::Null);
}

proof fn lemma_more_keys()
    ensures
        "text"@ != "stop_reason"@,
        "text"@ != "stop_sequence"@,
        "thinking"@ != "stop_reason"@,
        "thinking"@ != "stop_sequence"@,
        "text"@ != "thinking"@,
        "text"@ != "signature"@,
        "text"@ != "partial_json"@,
        "thinking"@ != "signature"@,
        "thinking"@ != "partial_json"@,
        "delta"@ != "content_block"@,
        "delta"@ != "message"@,
        "delta"@ != "error"@,
{
    reveal_strlit("text");
    reveal_strlit("thinking");
    reveal_strlit("stop_reason");
    reveal_strlit("stop_sequence");
    reveal_strlit("signature");
    reveal_strlit("partial_json");
    reveal_strlit("delta");
    reveal_strlit("content_block");
    reveal_strlit("message");
    reveal_strlit("error");
    assert("text"@.len() == 4 && "thinking"@.len() == 8 && "signature"@.len() == 9);
    assert("partial_json"@.len() == 12 && "stop_reason"@.len() == 11);
    assert("delta"@[0] == 'd' && "error"@[0] == 'e');
}

/// The text and the thinking that an event sends are what a client reads in its JSON, and nothing
/// where there is none.
pub proof fn what_is_sent_is_what_is_read(e: EventView)
    requires
        !(e.data is Payload),
    ensures
        delivery::event_text(e) == (match text_at(e.data.json(), "delta"@, "text"@) {
            Some(s) => s,
            None => Seq::empty(),
        }),
        delivery::event_thinking(e) == (match text_at(e.data.json(), "delta"@, "thinking"@) {
            Some(s) => s,
            None => Seq::empty(),
        }),
{
    lemma_keys();
    lemma_more_keys();
}

} // verus!
