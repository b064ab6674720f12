//! The conversion of answers.

use kiro_gateway::anthropic::buffered::BufferedStreamContext;
use kiro_gateway::anthropic::sse::{Delta, SseData, SseEvent};
use kiro_gateway::anthropic::state_manager::SseStateManager;
use kiro_gateway::anthropic::stream::{estimate_tokens, StreamContext};
use kiro_gateway::anthropic::thinking::{
    find_real_thinking_end_tag, find_real_thinking_start_tag,
};
use kiro_gateway::float_bits::FloatBits;
use kiro_gateway::json::Json;
use kiro_gateway::kiro::model::events::{Event, ReasoningContentEvent, ToolUseEvent};
use kiro_gateway::text_map::TextMap;

fn payload(kind: &str) -> SseData {
    SseData::Payload(Json::Object(vec![("type".to_string(), Json::Text(kind.to_string()))]))
}

fn bits(x: f64) -> FloatBits {
    FloatBits { bits: x.to_bits() }
}

/// The data of an event, with the signature that it waits for.
fn data_of(e: &SseEvent) -> Json {
    match &e.data {
        SseData::BlockDelta { index, delta: Delta::PendingSignature { model, thinking } } => {
            let delta = Delta::Signature(format!("{model}: {thinking}"));
            SseData::BlockDelta { index: *index, delta }.to_json()
        }
        data => data.to_json(),
    }
}

/// The text at two levels into the data of an event, empty where there is none.
fn at(e: &SseEvent, outer: &str, inner: &str) -> String {
    let data = data_of(e);
    let found = match data.get(outer) {
        Some(v) => v.get(inner).and_then(|t| t.as_text()).cloned(),
        None => None,
    };
    found.unwrap_or_default()
}

/// The index of the block of an event.
fn index(e: &SseEvent) -> Option<i64> {
    data_of(e).get("index").and_then(|v| v.as_i64())
}

#[test]
fn test_sse_event_format() {
    let event = SseEvent::new("message_start", payload("message_start"));
    let sse_str = event.to_sse_string();

    assert!(sse_str.starts_with("event: message_start\n"));
    assert!(sse_str.contains("data: "));
    assert!(sse_str.ends_with("\n\n"));
}

#[test]
fn test_sse_state_manager_message_start() {
    let mut manager = SseStateManager::new();
    let event = manager.handle_message_start(payload("message_start"));
    assert!(event.is_some());
    let event = manager.handle_message_start(payload("message_start"));
    assert!(event.is_none());
}

#[test]
fn test_sse_state_manager_block_lifecycle() {
    let mut manager = SseStateManager::new();
    let events = manager.handle_content_block_start(0, "text", SseData::Payload(Json::Object(vec![])));
    assert_eq!(events.len(), 1);
    let event = manager.handle_content_block_delta(0, SseData::Payload(Json::Object(vec![])));
    assert!(event.is_some());
    let event = manager.handle_content_block_stop(0);
    assert!(event.is_some());
    let event = manager.handle_content_block_stop(0);
    assert!(event.is_none());
}

#[test]
fn test_tool_name_reverse_mapping_in_stream() {
    
    let mut map = TextMap::new();
    map.insert("short_abc12345".to_string(), "mcp__very_long_original_tool_name".to_string());

    let mut ctx = StreamContext::new_with_thinking("test-model", 1, false, map);
    let _ = ctx.generate_initial_events();
    let tool_event = Event::ToolUse(ToolUseEvent {
        name: "short_abc12345".to_string(),
        tool_use_id: "toolu_01".to_string(),
        input: r#"{"key":"value"}"#.to_string(),
        stop: true,
    });

    let events = ctx.process_kiro_event(&tool_event);
    let start_event = events.iter().find(|e| e.event == "content_block_start").unwrap();
    assert_eq!(
        at(start_event, "content_block", "name"),
        "mcp__very_long_original_tool_name",
        "应还原为原始工具名称"
    );
}

#[test]
fn test_text_delta_after_tool_use_restarts_text_block() {
    let mut ctx = StreamContext::new_with_thinking("test-model", 1, false, TextMap::new());

    let initial_events = ctx.generate_initial_events();
    assert!(
        initial_events
            .iter()
            .any(|e| e.event == "content_block_start"
                && at(e, "content_block", "type") == "text")
    );

    let initial_text_index = ctx
        .text_block_index
        .expect("initial text block index should exist");
    let tool_events = ctx.process_tool_use(&ToolUseEvent {
        name: "test_tool".to_string(),
        tool_use_id: "tool_1".to_string(),
        input: "{}".to_string(),
        stop: false,
    });
    assert!(
        tool_events.iter().any(|e| {
            e.event == "content_block_stop"
                && index(e) == Some(initial_text_index as i64)
        }),
        "tool_use should stop the previous text block"
    );
    let text_events = ctx.process_assistant_response("hello");
    let new_text_start_index = text_events.iter().find_map(|e| {
        if e.event == "content_block_start" && at(e, "content_block", "type") == "text" {
            index(e)
        } else {
            None
        }
    });
    assert!(
        new_text_start_index.is_some(),
        "should start a new text block"
    );
    assert_ne!(
        new_text_start_index.unwrap(),
        initial_text_index as i64,
        "new text block index should differ from the stopped one"
    );
    assert!(
        text_events.iter().any(|e| {
            e.event == "content_block_delta"
                && at(e, "delta", "type") == "text_delta"
                && at(e, "delta", "text") == "hello"
        }),
        "should emit text_delta after restarting text block"
    );
}

#[test]
fn test_tool_use_flushes_pending_thinking_buffer_text_before_tool_block() {
    let mut ctx = StreamContext::new_with_thinking("test-model", 1, true, TextMap::new());
    let _initial_events = ctx.generate_initial_events();
    let ev1 = ctx.process_assistant_response("有修");
    assert!(
        ev1.iter().all(|e| e.event != "content_block_delta"),
        "short prefix should be buffered under thinking mode"
    );
    let ev2 = ctx.process_assistant_response("改：");
    assert!(
        ev2.iter().all(|e| e.event != "content_block_delta"),
        "short prefix should still be buffered under thinking mode"
    );

    let events = ctx.process_tool_use(&ToolUseEvent {
        name: "Write".to_string(),
        tool_use_id: "tool_1".to_string(),
        input: "{}".to_string(),
        stop: false,
    });

    let text_start_index = events.iter().find_map(|e| {
        if e.event == "content_block_start" && at(e, "content_block", "type") == "text" {
            index(e)
        } else {
            None
        }
    });
    let pos_text_delta = events.iter().position(|e| {
        e.event == "content_block_delta" && at(e, "delta", "type") == "text_delta"
    });
    let pos_text_stop = text_start_index.and_then(|idx| {
        events.iter().position(|e| {
            e.event == "content_block_stop" && index(e) == Some(idx)
        })
    });
    let pos_tool_start = events.iter().position(|e| {
        e.event == "content_block_start" && at(e, "content_block", "type") == "tool_use"
    });

    assert!(
        text_start_index.is_some(),
        "should start a text block to flush buffered text"
    );
    assert!(
        pos_text_delta.is_some(),
        "should flush buffered text as text_delta"
    );
    assert!(
        pos_text_stop.is_some(),
        "should stop text block before tool_use block starts"
    );
    assert!(pos_tool_start.is_some(), "should start tool_use block");

    let pos_text_delta = pos_text_delta.unwrap();
    let pos_text_stop = pos_text_stop.unwrap();
    let pos_tool_start = pos_tool_start.unwrap();

    assert!(
        pos_text_delta < pos_text_stop && pos_text_stop < pos_tool_start,
        "ordering should be: text_delta -> text_stop -> tool_use_start"
    );

    assert!(
        events.iter().any(|e| {
            e.event == "content_block_delta"
                && at(e, "delta", "type") == "text_delta"
                && at(e, "delta", "text") == "有修改："
        }),
        "flushed text should equal the buffered prefix"
    );
}

#[test]
fn test_estimate_tokens() {
    assert!(estimate_tokens("Hello") > 0);
    assert!(estimate_tokens("你好") > 0);
    assert!(estimate_tokens("Hello 你好") > 0);
}

#[test]
fn test_find_real_thinking_start_tag_basic() {
    assert_eq!(find_real_thinking_start_tag("<thinking>"), Some(0));
    assert_eq!(find_real_thinking_start_tag("prefix<thinking>"), Some(6));
}

#[test]
fn test_find_real_thinking_start_tag_with_backticks() {
    assert_eq!(find_real_thinking_start_tag("`<thinking>`"), None);
    assert_eq!(find_real_thinking_start_tag("use `<thinking>` tag"), None);
    assert_eq!(
        find_real_thinking_start_tag("about `<thinking>` tag<thinking>content"),
        Some(22)
    );
}

#[test]
fn test_find_real_thinking_start_tag_with_quotes() {
    assert_eq!(find_real_thinking_start_tag("\"<thinking>\""), None);
    assert_eq!(find_real_thinking_start_tag("the \"<thinking>\" tag"), None);
    assert_eq!(find_real_thinking_start_tag("'<thinking>'"), None);
    assert_eq!(
        find_real_thinking_start_tag("about \"<thinking>\" and '<thinking>' then<thinking>"),
        Some(40)
    );
}

#[test]
fn test_find_real_thinking_end_tag_basic() {
    assert_eq!(find_real_thinking_end_tag("</thinking>\n\n"), Some(0));
    assert_eq!(
        find_real_thinking_end_tag("content</thinking>\n\n"),
        Some(7)
    );
    assert_eq!(
        find_real_thinking_end_tag("some text</thinking>\n\nmore text"),
        Some(9)
    );
    assert_eq!(find_real_thinking_end_tag("</thinking>"), None);
    assert_eq!(find_real_thinking_end_tag("</thinking>\n"), None);
    assert_eq!(find_real_thinking_end_tag("</thinking> more"), None);
}

#[test]
fn test_find_real_thinking_end_tag_with_backticks() {
    assert_eq!(find_real_thinking_end_tag("`</thinking>`\n\n"), None);
    assert_eq!(
        find_real_thinking_end_tag("mention `</thinking>` in code\n\n"),
        None
    );
    assert_eq!(find_real_thinking_end_tag("`</thinking>\n\n"), None);
    assert_eq!(find_real_thinking_end_tag("</thinking>`\n\n"), None);
}

#[test]
fn test_find_real_thinking_end_tag_with_quotes() {
    assert_eq!(find_real_thinking_end_tag("\"</thinking>\"\n\n"), None);
    assert_eq!(
        find_real_thinking_end_tag("the string \"</thinking>\" is a tag\n\n"),
        None
    );
    assert_eq!(find_real_thinking_end_tag("'</thinking>'\n\n"), None);
    assert_eq!(
        find_real_thinking_end_tag("use '</thinking>' as marker\n\n"),
        None
    );
    assert_eq!(
        find_real_thinking_end_tag("about \"</thinking>\" tag</thinking>\n\n"),
        Some(23)
    );
    assert_eq!(
        find_real_thinking_end_tag("about '</thinking>' tag</thinking>\n\n"),
        Some(23)
    );
}

#[test]
fn test_find_real_thinking_end_tag_mixed() {
    assert_eq!(
        find_real_thinking_end_tag("discussing `</thinking>` tag</thinking>\n\n"),
        Some(28)
    );
    assert_eq!(
        find_real_thinking_end_tag("`</thinking>` and `</thinking>` done</thinking>\n\n"),
        Some(36)
    );
    assert_eq!(
        find_real_thinking_end_tag(
            "`</thinking>` and \"</thinking>\" and '</thinking>' done</thinking>\n\n"
        ),
        Some(54)
    );
}

#[test]
fn test_tool_use_immediately_after_thinking_filters_end_tag_and_closes_thinking_block() {
    let mut ctx = StreamContext::new_with_thinking("test-model", 1, true, TextMap::new());
    let _initial_events = ctx.generate_initial_events();

    let mut all_events = Vec::new();
    all_events.extend(ctx.process_assistant_response("<thinking>abc</thinking>"));

    let tool_events = ctx.process_tool_use(&ToolUseEvent {
        name: "Write".to_string(),
        tool_use_id: "tool_1".to_string(),
        input: "{}".to_string(),
        stop: false,
    });
    all_events.extend(tool_events);

    all_events.extend(ctx.generate_final_events(0));
    assert!(
        all_events.iter().all(|e| {
            !(e.event == "content_block_delta"
                && at(e, "delta", "type") == "thinking_delta"
                && at(e, "delta", "thinking") == "</thinking>")
        }),
        "`</thinking>` should be filtered from output"
    );
    let thinking_index = ctx
        .thinking_block_index
        .expect("thinking block index should exist");
    let pos_thinking_stop = all_events.iter().position(|e| {
        e.event == "content_block_stop"
            && index(e) == Some(thinking_index as i64)
    });
    let pos_tool_start = all_events.iter().position(|e| {
        e.event == "content_block_start" && at(e, "content_block", "type") == "tool_use"
    });
    assert!(
        pos_thinking_stop.is_some(),
        "thinking block should be stopped"
    );
    assert!(pos_tool_start.is_some(), "tool_use block should be started");
    assert!(
        pos_thinking_stop.unwrap() < pos_tool_start.unwrap(),
        "thinking block should stop before tool_use block starts"
    );
}

#[test]
fn test_final_flush_filters_standalone_thinking_end_tag() {
    let mut ctx = StreamContext::new_with_thinking("test-model", 1, true, TextMap::new());
    let _initial_events = ctx.generate_initial_events();

    let mut all_events = Vec::new();
    all_events.extend(ctx.process_assistant_response("<thinking>abc</thinking>"));
    all_events.extend(ctx.generate_final_events(0));

    assert!(
        all_events.iter().all(|e| {
            !(e.event == "content_block_delta"
                && at(e, "delta", "type") == "thinking_delta"
                && at(e, "delta", "thinking") == "</thinking>")
        }),
        "`</thinking>` should be filtered during final flush"
    );
}

#[test]
fn test_thinking_strips_leading_newline_same_chunk() {
    let mut ctx = StreamContext::new_with_thinking("test-model", 1, true, TextMap::new());
    let _initial_events = ctx.generate_initial_events();

    let events = ctx.process_assistant_response("<thinking>\nHello world");
    let thinking_deltas: Vec<_> = events
        .iter()
        .filter(|e| {
            e.event == "content_block_delta" && at(e, "delta", "type") == "thinking_delta"
        })
        .collect();
    let full_thinking: String = thinking_deltas
        .iter()
        .map(|e| at(e, "delta", "thinking"))
        .collect();

    assert!(
        !full_thinking.starts_with('\n'),
        "thinking content should not start with \\n, got: {:?}",
        full_thinking
    );
}

#[test]
fn test_thinking_strips_leading_newline_cross_chunk() {
    let mut ctx = StreamContext::new_with_thinking("test-model", 1, true, TextMap::new());
    let _initial_events = ctx.generate_initial_events();

    let events1 = ctx.process_assistant_response("<thinking>");
    let events2 = ctx.process_assistant_response("\nHello world");

    let mut all_events = Vec::new();
    all_events.extend(events1);
    all_events.extend(events2);

    let thinking_deltas: Vec<_> = all_events
        .iter()
        .filter(|e| {
            e.event == "content_block_delta" && at(e, "delta", "type") == "thinking_delta"
        })
        .collect();

    let full_thinking: String = thinking_deltas
        .iter()
        .map(|e| at(e, "delta", "thinking"))
        .collect();

    assert!(
        !full_thinking.starts_with('\n'),
        "thinking content should not start with \\n across chunks, got: {:?}",
        full_thinking
    );
}

#[test]
fn test_thinking_no_strip_when_no_leading_newline() {
    let mut ctx = StreamContext::new_with_thinking("test-model", 1, true, TextMap::new());
    let _initial_events = ctx.generate_initial_events();

    let events = ctx.process_assistant_response("<thinking>abc</thinking>\n\ntext");

    let thinking_deltas: Vec<_> = events
        .iter()
        .filter(|e| {
            e.event == "content_block_delta" && at(e, "delta", "type") == "thinking_delta"
        })
        .collect();

    let full_thinking: String = thinking_deltas
        .iter()
        .filter(|e| !at(e, "delta", "thinking").is_empty())
        .map(|e| at(e, "delta", "thinking"))
        .collect();

    assert_eq!(full_thinking, "abc", "thinking content should be 'abc'");
}

#[test]
fn test_text_after_thinking_strips_leading_newlines() {
    let mut ctx = StreamContext::new_with_thinking("test-model", 1, true, TextMap::new());
    let _initial_events = ctx.generate_initial_events();

    let events =
        ctx.process_assistant_response("<thinking>\nabc</thinking>\n\n你好");

    let text_deltas: Vec<_> = events
        .iter()
        .filter(|e| {
            e.event == "content_block_delta" && at(e, "delta", "type") == "text_delta"
        })
        .collect();

    let full_text: String = text_deltas
        .iter()
        .map(|e| at(e, "delta", "text"))
        .collect();

    assert!(
        !full_text.starts_with('\n'),
        "text after thinking should not start with \\n, got: {:?}",
        full_text
    );
    assert_eq!(full_text, "你好");
}
fn collect_thinking_content(events: &[SseEvent]) -> String {
    events
        .iter()
        .filter(|e| {
            e.event == "content_block_delta" && at(e, "delta", "type") == "thinking_delta"
        })
        .map(|e| at(e, "delta", "thinking"))
        .filter(|s| !s.is_empty())
        .collect()
}
fn collect_text_content(events: &[SseEvent]) -> String {
    events
        .iter()
        .filter(|e| {
            e.event == "content_block_delta" && at(e, "delta", "type") == "text_delta"
        })
        .map(|e| at(e, "delta", "text"))
        .collect()
}

#[test]
fn test_end_tag_newlines_split_across_events() {
    let mut ctx = StreamContext::new_with_thinking("test-model", 1, true, TextMap::new());
    let _initial_events = ctx.generate_initial_events();

    let mut all = Vec::new();
    all.extend(ctx.process_assistant_response("<thinking>\nabc</thinking>\n"));
    all.extend(ctx.process_assistant_response("\n"));
    all.extend(ctx.process_assistant_response("你好"));
    all.extend(ctx.generate_final_events(0));

    let thinking = collect_thinking_content(&all);
    assert_eq!(thinking, "abc", "thinking should be 'abc', got: {:?}", thinking);

    let text = collect_text_content(&all);
    assert_eq!(text, "你好", "text should be '你好', got: {:?}", text);
}

#[test]
fn test_end_tag_alone_in_chunk_then_newlines_in_next() {
    let mut ctx = StreamContext::new_with_thinking("test-model", 1, true, TextMap::new());
    let _initial_events = ctx.generate_initial_events();

    let mut all = Vec::new();
    all.extend(ctx.process_assistant_response("<thinking>\nabc</thinking>"));
    all.extend(ctx.process_assistant_response("\n\n你好"));
    all.extend(ctx.generate_final_events(0));

    let thinking = collect_thinking_content(&all);
    assert_eq!(thinking, "abc", "thinking should be 'abc', got: {:?}", thinking);

    let text = collect_text_content(&all);
    assert_eq!(text, "你好", "text should be '你好', got: {:?}", text);
}

#[test]
fn test_start_tag_newline_split_across_events() {
    let mut ctx = StreamContext::new_with_thinking("test-model", 1, true, TextMap::new());
    let _initial_events = ctx.generate_initial_events();

    let mut all = Vec::new();
    all.extend(ctx.process_assistant_response("\n\n"));
    all.extend(ctx.process_assistant_response("<thinking>"));
    all.extend(ctx.process_assistant_response("\n"));
    all.extend(ctx.process_assistant_response("abc</thinking>\n\ntext"));
    all.extend(ctx.generate_final_events(0));

    let thinking = collect_thinking_content(&all);
    assert_eq!(thinking, "abc", "thinking should be 'abc', got: {:?}", thinking);

    let text = collect_text_content(&all);
    assert_eq!(text, "text", "text should be 'text', got: {:?}", text);
}

#[test]
fn test_full_flow_maximally_split() {
    let mut ctx = StreamContext::new_with_thinking("test-model", 1, true, TextMap::new());
    let _initial_events = ctx.generate_initial_events();

    let mut all = Vec::new();
    all.extend(ctx.process_assistant_response("\n"));
    all.extend(ctx.process_assistant_response("\n"));
    all.extend(ctx.process_assistant_response("<thin"));
    all.extend(ctx.process_assistant_response("king>"));
    all.extend(ctx.process_assistant_response("\n"));
    all.extend(ctx.process_assistant_response("hello"));
    all.extend(ctx.process_assistant_response("</thi"));
    all.extend(ctx.process_assistant_response("nking>"));
    all.extend(ctx.process_assistant_response("\n"));
    all.extend(ctx.process_assistant_response("\n"));
    all.extend(ctx.process_assistant_response("world"));
    all.extend(ctx.generate_final_events(0));

    let thinking = collect_thinking_content(&all);
    assert_eq!(thinking, "hello", "thinking should be 'hello', got: {:?}", thinking);

    let text = collect_text_content(&all);
    assert_eq!(text, "world", "text should be 'world', got: {:?}", text);
}

#[test]
fn test_thinking_only_sets_max_tokens_stop_reason() {
    let mut ctx = StreamContext::new_with_thinking("test-model", 1, true, TextMap::new());
    let _initial_events = ctx.generate_initial_events();

    let mut all_events = Vec::new();
    all_events.extend(ctx.process_assistant_response("<thinking>\nabc</thinking>"));
    all_events.extend(ctx.generate_final_events(0));

    let message_delta = all_events
        .iter()
        .find(|e| e.event == "message_delta")
        .expect("should have message_delta event");

    assert_eq!(
        at(message_delta, "delta", "stop_reason"), "max_tokens",
        "stop_reason should be max_tokens when only thinking is produced"
    );
    assert!(
        all_events.iter().any(|e| {
            e.event == "content_block_start" && at(e, "content_block", "type") == "text"
        }),
        "should emit text content_block_start"
    );
    assert!(
        all_events.iter().any(|e| {
            e.event == "content_block_delta"
                && at(e, "delta", "type") == "text_delta"
                && at(e, "delta", "text") == " "
        }),
        "should emit text_delta with a single space"
    );
    let text_block_index = all_events
        .iter()
        .find_map(|e| {
            if e.event == "content_block_start" && at(e, "content_block", "type") == "text" {
                index(e)
            } else {
                None
            }
        })
        .expect("text block should exist");
    assert!(
        all_events.iter().any(|e| {
            e.event == "content_block_stop"
                && index(e) == Some(text_block_index)
        }),
        "text block should be stopped"
    );
}

#[test]
fn test_zero_output_does_not_bill_cache_read() {
    let mut ctx = StreamContext::new_with_thinking("opus-4-8", 1000, false, TextMap::new());
    ctx.set_cache_read_multiplier(bits(1.8));
    ctx.set_cache_cap_ratio(bits(0.9));
    ctx.set_sim_cache(Some((5000, 10000))); // 模拟器命中 5000/总 10000
    ctx.input_tokens = 10000;
    ctx.context_input_tokens = Some(10000);
    ctx.output_tokens = 0;
    ctx.tool_block_indices.insert("tu-x".to_string(), 99);
    let _ = ctx.generate_initial_events();
    let events = ctx.generate_final_events(9000);
    let msg_delta = events.iter().find(|e| e.event == "message_delta");
    if let Some(md) = msg_delta {
        let data = md.data.to_json();
        let usage = data.get("usage").unwrap();
        assert_eq!(
            usage.get("cache_read_input_tokens").and_then(|v| v.as_i64()),
            None,
            "零输出时不应上报 cache_read"
        );
    }
    assert_eq!(ctx.emitted_cache_read, Some(0), "零输出上报缓存应为 0");
    assert_eq!(ctx.emitted_raw_cache_read, Some(5000), "命中真值仍记录供缓存分析");
}

#[test]
fn test_nonzero_output_bills_cache_read_normally() {
    let mut ctx = StreamContext::new_with_thinking("opus-4-8", 1000, false, TextMap::new());
    ctx.set_cache_read_multiplier(bits(1.8));
    ctx.set_cache_cap_ratio(bits(0.9));
    ctx.set_sim_cache(Some((4000, 10000)));
    ctx.input_tokens = 10000;
    ctx.context_input_tokens = Some(10000);
    let _ = ctx.generate_initial_events();
    let _ = ctx.process_assistant_response("Hello world");
    let _ = ctx.generate_final_events(7200);
    assert_eq!(ctx.emitted_cache_read, Some(7200), "有输出应正常计费 cache_read");
}

#[test]
fn test_thinking_with_text_keeps_end_turn_stop_reason() {
    let mut ctx = StreamContext::new_with_thinking("test-model", 1, true, TextMap::new());
    let _initial_events = ctx.generate_initial_events();

    let mut all_events = Vec::new();
    all_events.extend(ctx.process_assistant_response("<thinking>\nabc</thinking>\n\nHello"));
    all_events.extend(ctx.generate_final_events(0));

    let message_delta = all_events
        .iter()
        .find(|e| e.event == "message_delta")
        .expect("should have message_delta event");

    assert_eq!(
        at(message_delta, "delta", "stop_reason"), "end_turn",
        "stop_reason should be end_turn when text is also produced"
    );
}

#[test]
fn test_thinking_with_tool_use_keeps_tool_use_stop_reason() {
    let mut ctx = StreamContext::new_with_thinking("test-model", 1, true, TextMap::new());
    let _initial_events = ctx.generate_initial_events();

    let mut all_events = Vec::new();
    all_events.extend(ctx.process_assistant_response("<thinking>\nabc</thinking>"));
    all_events.extend(ctx.process_tool_use(&ToolUseEvent {
        name: "test_tool".to_string(),
        tool_use_id: "tool_1".to_string(),
        input: "{}".to_string(),
        stop: true,
    }));
    all_events.extend(ctx.generate_final_events(0));

    let message_delta = all_events
        .iter()
        .find(|e| e.event == "message_delta")
        .expect("should have message_delta event");

    assert_eq!(
        at(message_delta, "delta", "stop_reason"), "tool_use",
        "stop_reason should be tool_use when tool_use is present"
    );
}

fn reasoning_event(text: &str) -> Event {
    Event::ReasoningContent(ReasoningContentEvent { text: text.to_string(), signature: None })
}

fn reasoning_signature_event(sig: &str) -> Event {
    Event::ReasoningContent(ReasoningContentEvent {
        text: String::new(),
        signature: Some(sig.to_string()),
    })
}

#[test]
fn native_reasoning_signature_passthrough() {
    let mut ctx = StreamContext::new_with_thinking("test-model", 1, true, TextMap::new());
    let _ = ctx.generate_initial_events();

    let mut events = Vec::new();
    events.extend(ctx.process_kiro_event(&reasoning_event("thinking...")));
    events.extend(ctx.process_kiro_event(&reasoning_signature_event("EtMBCmMIDhABGAIqQBhQ")));
    events.extend(ctx.process_assistant_response("answer"));

    let sig_event = events.iter().find(|e| {
        e.event == "content_block_delta" && at(e, "delta", "type") == "signature_delta"
    });
    assert!(sig_event.is_some(), "应发 signature_delta");
    assert_eq!(
        at(sig_event.unwrap(), "delta", "signature"), "EtMBCmMIDhABGAIqQBhQ",
        "signature_delta 应透传上游真实签名，而非空占位"
    );
}

#[test]
fn native_reasoning_no_signature_falls_back_empty() {
    let mut ctx = StreamContext::new_with_thinking("test-model", 1, true, TextMap::new());
    let _ = ctx.generate_initial_events();

    let mut events = Vec::new();
    events.extend(ctx.process_kiro_event(&reasoning_event("thinking...")));
    events.extend(ctx.process_assistant_response("answer"));

    let sig_event = events.iter().find(|e| {
        e.event == "content_block_delta" && at(e, "delta", "type") == "signature_delta"
    });
    assert!(sig_event.is_some(), "无签名时仍应发 signature_delta 占位");
    assert_eq!(at(sig_event.unwrap(), "delta", "signature"), "");
}

#[test]
fn native_reasoning_emits_thinking_block() {
    let mut ctx = StreamContext::new_with_thinking("test-model", 1, true, TextMap::new());
    let _ = ctx.generate_initial_events();

    let mut events = Vec::new();
    events.extend(ctx.process_kiro_event(&reasoning_event("Let me ")));
    events.extend(ctx.process_kiro_event(&reasoning_event("think.")));
    let start = events.iter().find(|e| {
        e.event == "content_block_start"
            && at(e, "content_block", "type") == "thinking"
    });
    assert!(start.is_some(), "应发出 thinking content_block_start");
    let deltas: Vec<String> = events
        .iter()
        .filter(|e| e.event == "content_block_delta"
            && at(e, "delta", "type") == "thinking_delta")
        .map(|e| at(e, "delta", "thinking"))
        .collect();
    assert_eq!(deltas, vec!["Let me ", "think."]);
}

#[test]
fn native_reasoning_closes_before_text() {
    let mut ctx = StreamContext::new_with_thinking("test-model", 1, true, TextMap::new());
    let _ = ctx.generate_initial_events();

    let mut events = Vec::new();
    events.extend(ctx.process_kiro_event(&reasoning_event("thinking...")));
    events.extend(ctx.process_assistant_response("answer"));

    let sig = events.iter().position(|e| {
        e.event == "content_block_delta" && at(e, "delta", "type") == "signature_delta"
    });
    let stop = events
        .iter()
        .position(|e| e.event == "content_block_stop");
    let text_start = events.iter().position(|e| {
        e.event == "content_block_start" && at(e, "content_block", "type") == "text"
    });

    assert!(sig.is_some(), "应发 signature_delta 收尾 thinking 块");
    assert!(stop.is_some(), "应发 content_block_stop 关闭 thinking 块");
    assert!(text_start.is_some(), "应为正文开 text 块");
    assert!(sig.unwrap() < stop.unwrap());
    assert!(stop.unwrap() < text_start.unwrap());
}

#[test]
fn native_reasoning_late_after_text_is_dropped() {
    let mut ctx = StreamContext::new_with_thinking("test-model", 1, true, TextMap::new());
    let _ = ctx.generate_initial_events();

    let mut events = Vec::new();
    events.extend(ctx.process_assistant_response("answer first"));
    events.extend(ctx.process_kiro_event(&reasoning_event("late thinking")));

    let thinking_blocks = events.iter().filter(|e| {
        e.event == "content_block_start" && at(e, "content_block", "type") == "thinking"
    }).count();
    assert_eq!(thinking_blocks, 0, "迟到 reasoning 不应产生 thinking 块");
}

#[test]
fn native_reasoning_reentry_each_block_signed() {
    let mut ctx = StreamContext::new_with_thinking("test-model", 1, true, TextMap::new());
    let _ = ctx.generate_initial_events();
    let mut events = Vec::new();
    events.extend(ctx.process_kiro_event(&reasoning_event("step one")));
    events.extend(ctx.process_assistant_response("answer"));
    events.extend(ctx.generate_final_events(0));

    let sig_count = events.iter().filter(|e| {
        e.event == "content_block_delta" && at(e, "delta", "type") == "signature_delta"
    }).count();
    assert_eq!(sig_count, 1, "每个 thinking 块恰好一个 signature_delta");
}

#[test]
fn native_reasoning_dropped_when_thinking_disabled() {
    let mut ctx = StreamContext::new_with_thinking("test-model", 1, false, TextMap::new());
    let _ = ctx.generate_initial_events();

    let events = ctx.process_kiro_event(&reasoning_event("secret reasoning"));
    let has_thinking = events.iter().any(|e| {
        (e.event == "content_block_start" && at(e, "content_block", "type") == "thinking")
            || (e.event == "content_block_delta" && at(e, "delta", "type") == "thinking_delta")
    });
    assert!(!has_thinking, "thinking 关闭时不应发出任何 thinking 内容");
}

#[test]
fn produced_any_content_detects_empty() {
    let ctx = StreamContext::new_with_thinking("test-model", 1, false, TextMap::new());
    assert!(!ctx.produced_any_content(), "零产出应判定为空响应");
}

#[test]
fn produced_any_content_true_after_text() {
    let mut ctx = StreamContext::new_with_thinking("test-model", 1, false, TextMap::new());
    let _ = ctx.generate_initial_events();
    let _ = ctx.process_assistant_response("hello");
    assert!(ctx.produced_any_content(), "产出正文后不应判定为空");
}

#[test]
fn empty_response_emits_terminal_error_event() {
    let mut ctx = StreamContext::new_with_thinking("test-model", 1, false, TextMap::new());
    let _ = ctx.generate_initial_events();

    let events = ctx.generate_final_events(0);
    let has_error = events.iter().any(|e| e.event == "error"
        && at(e, "error", "type") == "api_error");
    let has_message_stop = events.iter().any(|e| e.event == "message_stop");
    assert!(has_error, "空响应应发出 error 事件");
    assert!(!has_message_stop, "error 是终止事件，不应再发 message_stop");
    assert_eq!(ctx.failure_kind(), Some("empty_response"));
}

#[test]
fn non_empty_response_no_error_event() {
    let mut ctx = StreamContext::new_with_thinking("test-model", 1, false, TextMap::new());
    let _ = ctx.generate_initial_events();
    let _ = ctx.process_assistant_response("hello world");

    let events = ctx.generate_final_events(0);
    let has_error = events.iter().any(|e| e.event == "error");
    let has_message_stop = events.iter().any(|e| e.event == "message_stop");
    assert!(!has_error, "正常响应不应有 error 事件");
    assert!(has_message_stop, "正常响应应有 message_stop");
    assert_eq!(ctx.failure_kind(), None);
}

#[test]
fn upstream_error_event_sets_failure() {
    let mut ctx = StreamContext::new_with_thinking("test-model", 1, false, TextMap::new());
    let _ = ctx.process_kiro_event(&Event::Error {
        error_code: "InternalError".to_string(),
        error_message: "boom".to_string(),
    });
    assert_eq!(ctx.failure_kind(), Some("upstream_error"));
    assert!(ctx.failure_message().unwrap().contains("boom"));
}

#[test]
fn content_length_exceeded_is_not_failure() {
    let mut ctx = StreamContext::new_with_thinking("test-model", 1, false, TextMap::new());
    let _ = ctx.generate_initial_events();
    let _ = ctx.process_assistant_response("partial answer");
    let _ = ctx.process_kiro_event(&Event::Exception {
        exception_type: "ContentLengthExceededException".to_string(),
        message: "too long".to_string(),
    });
    assert_eq!(ctx.failure_kind(), None, "ContentLength 异常不算失败");
}

#[test]
fn failure_path_signs_open_fake_thinking_block() {
    let mut ctx = StreamContext::new_with_thinking("test-model", 1, true, TextMap::new());
    let _ = ctx.generate_initial_events();
    let _ = ctx.process_assistant_response("<thinking>reasoning in progress");
    let _ = ctx.process_kiro_event(&Event::Error {
        error_code: "InternalError".to_string(),
        error_message: "boom".to_string(),
    });

    let events = ctx.generate_final_events(0);
    let sig_pos = events.iter().position(|e| {
        e.event == "content_block_delta" && at(e, "delta", "type") == "signature_delta"
    });
    let has_error = events.iter().any(|e| e.event == "error");
    assert!(sig_pos.is_some(), "开着的 fake thinking 块应补发 signature_delta");
    assert!(has_error, "应发终止性 error 事件");
    let sig_count = events.iter().filter(|e| {
        e.event == "content_block_delta" && at(e, "delta", "type") == "signature_delta"
    }).count();
    assert_eq!(sig_count, 1, "signature_delta 应恰好一次");
}

#[test]
fn events_are_taken_while_counts_fit() {
    let mut ctx = StreamContext::new_with_thinking("test-model", 1, false, TextMap::new());
    let event = Event::AssistantResponse { content: "hello".to_string() };
    assert!(ctx.can_take(&event));
    assert_eq!(ctx.free_block_index(), 0);
    ctx.generate_initial_events();
    assert_eq!(ctx.free_block_index(), 1);
    ctx.output_tokens = i32::MAX - estimate_tokens("hello");
    assert!(ctx.can_take(&event));
    ctx.output_tokens += 1;
    assert!(!ctx.can_take(&event));
}

#[test]
fn held_back_answers_are_taken_and_ended_while_indices_are_left() {
    let ctx = BufferedStreamContext::new("test-model", 1, false, TextMap::new());
    assert!(ctx.can_take(&Event::AssistantResponse { content: "hello".to_string() }));
    assert!(ctx.can_finish());
}

#[test]
fn no_block_starts_after_the_end() {
    let mut m = SseStateManager::new();
    assert_eq!(m.generate_final_events(1, 1, 0, 0).last().unwrap().event, "message_stop");
    assert!(m.handle_content_block_start(0, "text", payload("content_block_start")).is_empty());
    assert!(m.handle_content_block_start(1, "tool_use", payload("content_block_start")).is_empty());
}

/// The kind of each event, with the kind of its delta and its block.
fn outline(events: &[SseEvent]) -> Vec<String> {
    events
        .iter()
        .map(|e| match e.event.as_str() {
            "content_block_start" => {
                format!("start {} {}", index(e).unwrap(), at(e, "content_block", "type"))
            }
            "content_block_delta" => format!("{} {}", at(e, "delta", "type"), index(e).unwrap()),
            "content_block_stop" => format!("stop {}", index(e).unwrap()),
            name => name.to_string(),
        })
        .collect()
}

#[test]
fn empty_thinking_is_signed_before_its_stop() {
    let mut ctx = StreamContext::new_with_thinking("test-model", 1, true, TextMap::new());
    ctx.generate_initial_events();
    let started = ctx.process_assistant_response("<thinking>");
    assert_eq!(outline(&started), vec!["start 0 thinking"]);
    let ended = outline(&ctx.generate_final_events(0));
    assert_eq!(ended[..2], ["signature_delta 0", "stop 0"]);
    assert_eq!(ended.iter().filter(|k| k.starts_with("signature_delta")).count(), 1);
    assert_eq!(ended.last().unwrap(), "message_stop");
}

#[test]
fn native_reasoning_ends_thinking_between_tags() {
    let mut ctx = StreamContext::new_with_thinking("test-model", 1, true, TextMap::new());
    ctx.generate_initial_events();
    let mut events = ctx.process_assistant_response("<thinking>draft");
    events.extend(ctx.process_kiro_event(&reasoning_event("native")));
    events.extend(ctx.process_assistant_response("answer"));
    let kinds = outline(&events);
    let place = |k: &str| kinds.iter().position(|x| x == k).unwrap();
    assert!(place("signature_delta 0") < place("stop 0"));
    assert!(place("stop 0") < place("start 1 thinking"));
    assert!(place("signature_delta 1") < place("stop 1"));
    assert!(!ctx.in_thinking_block);
}

#[test]
fn thinking_without_a_closing_tag_ends_before_a_call() {
    let mut ctx = StreamContext::new_with_thinking("test-model", 1, true, TextMap::new());
    ctx.generate_initial_events();
    let mut events = ctx.process_assistant_response("<thinking>abc");
    events.extend(ctx.process_kiro_event(&Event::ToolUse(ToolUseEvent {
        name: "Write".to_string(),
        tool_use_id: "tool_1".to_string(),
        input: "{}".to_string(),
        stop: true,
    })));
    assert_eq!(
        outline(&events),
        vec![
            "start 0 thinking",
            "thinking_delta 0",
            "signature_delta 0",
            "stop 0",
            "start 1 tool_use",
            "input_json_delta 1",
            "stop 1",
        ]
    );
    assert!(ctx.in_thinking_block);
}

/// A call, all at once.
fn call_event(id: &str) -> Event {
    Event::ToolUse(ToolUseEvent {
        name: "Write".to_string(),
        tool_use_id: id.to_string(),
        input: "{}".to_string(),
        stop: true,
    })
}

/// What the deltas of one kind hold.
fn deltas(events: &[SseEvent], kind: &str) -> String {
    events.iter().map(|e| at(e, "delta", kind)).collect()
}

#[test]
fn thinking_goes_on_after_a_call() {
    let mut ctx = StreamContext::new_with_thinking("test-model", 1, true, TextMap::new());
    ctx.generate_initial_events();
    let mut events = ctx.process_assistant_response("<thinking>abc");
    events.extend(ctx.process_kiro_event(&call_event("tool_1")));
    let after = ctx.process_assistant_response("more</thinking>\n\nthe answer");
    let kinds = outline(&after);
    let place = |k: &str| kinds.iter().position(|x| x == k).unwrap();
    assert_eq!(kinds[0], "start 2 thinking");
    assert!(place("thinking_delta 2") < place("signature_delta 2"));
    assert!(place("signature_delta 2") < place("stop 2"));
    assert!(place("stop 2") < place("start 3 text"));
    assert!(!ctx.in_thinking_block);
    events.extend(after);
    events.extend(ctx.generate_final_events(0));
    assert_eq!(deltas(&events, "thinking"), "abcmore");
    assert_eq!(deltas(&events, "text"), "the answer");
    assert_eq!(outline(&events).iter().filter(|k| k.starts_with("signature_delta")).count(), 2);
}

#[test]
fn a_closing_tag_around_a_call_is_not_shown() {
    let mut ctx = StreamContext::new_with_thinking("test-model", 1, true, TextMap::new());
    ctx.generate_initial_events();
    let mut events = ctx.process_assistant_response("<thinking>abc</thin");
    events.extend(ctx.process_kiro_event(&call_event("tool_1")));
    assert!(ctx.in_thinking_block);
    events.extend(ctx.process_assistant_response("king>\n\nhi"));
    assert!(!ctx.in_thinking_block);
    events.extend(ctx.generate_final_events(0));
    assert_eq!(deltas(&events, "thinking"), "abc");
    assert_eq!(deltas(&events, "text"), "hi");
}

#[test]
fn indices_run_through_whatever_comes_between() {
    let mut m = SseStateManager::new();
    assert_eq!(m.next_block_index(), 0);
    m.set_stop_reason("max_tokens");
    m.handle_content_block_start(0, "text", payload("content_block_start"));
    assert_eq!(m.next_block_index(), 1);
    m.handle_content_block_stop(0);
    m.generate_final_events(1, 1, 0, 0);
    assert_eq!(m.next_block_index(), 2);
}

#[test]
fn the_reason_that_was_set_last_counts() {
    let mut m = SseStateManager::new();
    assert_eq!(m.get_stop_reason(), "end_turn");
    m.set_has_tool_use(true);
    assert_eq!(m.get_stop_reason(), "tool_use");
    m.set_stop_reason("max_tokens");
    m.set_stop_reason("refusal");
    m.set_has_tool_use(false);
    assert_eq!(m.get_stop_reason(), "refusal");
    let mut n = SseStateManager::new();
    n.set_has_tool_use(true);
    n.set_has_tool_use(false);
    assert_eq!(n.get_stop_reason(), "end_turn");
    n.handle_content_block_start(0, "tool_use", payload("content_block_start"));
    assert_eq!(n.get_stop_reason(), "tool_use");
}

#[test]
fn deltas_pass_from_the_start_to_the_stop_of_their_block() {
    let delta = || payload("content_block_delta");
    let start = || payload("content_block_start");
    let mut m = SseStateManager::new();
    assert!(m.handle_content_block_delta(4, delta()).is_none());
    assert_eq!(m.handle_content_block_start(4, "text", start()).len(), 1);
    assert!(m.handle_content_block_delta(4, delta()).is_some());
    assert!(m.handle_content_block_delta(5, delta()).is_none());
    // A call stops the open text block.
    assert_eq!(m.handle_content_block_start(5, "tool_use", start()).len(), 2);
    assert!(m.handle_content_block_delta(4, delta()).is_none());
    assert!(m.handle_content_block_delta(5, delta()).is_some());
    // A block that has stopped does not start again.
    assert!(m.handle_content_block_start(4, "text", start()).is_empty());
    assert!(m.handle_content_block_delta(4, delta()).is_none());
    assert!(m.handle_content_block_stop(4).is_none());
}

#[test]
fn the_end_stops_what_is_open_and_comes_once() {
    let start = || payload("content_block_start");
    let mut m = SseStateManager::new();
    assert!(m.handle_message_start(payload("message_start")).is_some());
    m.handle_content_block_start(0, "thinking", start());
    m.handle_content_block_start(1, "tool_use", start());
    m.handle_content_block_start(2, "tool_use", start());
    m.handle_content_block_stop(1);
    let names = |events: Vec<SseEvent>| -> Vec<String> {
        events.into_iter().map(|e| e.event).collect()
    };
    assert_eq!(
        names(m.generate_final_events(3, 4, 0, 0)),
        ["content_block_stop", "content_block_stop", "message_delta", "message_stop"]
    );
    assert!(m.generate_final_events(3, 4, 0, 0).is_empty());
    assert!(m.handle_message_start(payload("message_start")).is_none());
    assert!(m.generate_final_events(3, 4, 0, 0).is_empty());
}

#[test]
fn native_signatures_sign_native_reasoning() {
    let mut ctx = StreamContext::new_with_thinking("test-model", 1, true, TextMap::new());
    ctx.generate_initial_events();
    let mut events = ctx.process_assistant_response("<thinking>draft that goes on for a while");
    events.extend(ctx.process_kiro_event(&Event::ReasoningContent(ReasoningContentEvent {
        text: "native".to_string(),
        signature: Some("AAAA".to_string()),
    })));
    events.extend(ctx.process_assistant_response("answer"));
    let signatures: Vec<(i64, String)> = events
        .iter()
        .filter(|e| at(e, "delta", "type") == "signature_delta")
        .map(|e| (index(e).unwrap(), at(e, "delta", "signature")))
        .collect();
    assert_eq!(signatures.len(), 2);
    assert_eq!(signatures[0].0, 0);
    assert!(signatures[0].1.starts_with("test-model: draft"));
    assert_eq!(signatures[1], (1, "AAAA".to_string()));
}

#[test]
fn quoted_closing_tags_are_skipped_across_pieces() {
    let mut ctx = StreamContext::new_with_thinking("test-model", 1, true, TextMap::new());
    let mut events = ctx.process_content_with_thinking("<thinking>a`</thinking>\n\n");
    events.extend(ctx.process_content_with_thinking("b"));
    let kinds = outline(&events);
    assert!(!kinds.iter().any(|k| k.starts_with("stop") || k.starts_with("text_delta")));
    assert!(ctx.in_thinking_block);
    let more = ctx.process_content_with_thinking("c</thinking>\n\ntext that is long enough");
    assert!(outline(&more).contains(&"stop 0".to_string()));
    assert!(!ctx.in_thinking_block);
    let thinking: String = events
        .iter()
        .chain(more.iter())
        .map(|e| at(e, "delta", "thinking"))
        .collect();
    assert_eq!(thinking, "a`</thinking>\n\nbc");
}

#[test]
fn quoted_opening_tags_are_skipped_across_pieces() {
    let mut ctx = StreamContext::new_with_thinking("test-model", 1, true, TextMap::new());
    let mut events = ctx.process_content_with_thinking("the tag `<thinking>");
    events.extend(ctx.process_content_with_thinking("` is a tag, and this text goes on"));
    assert!(!outline(&events).iter().any(|k| k.ends_with("thinking")));
    assert!(!ctx.in_thinking_block);
}

#[test]
fn pieces_of_a_call_stay_in_one_block() {
    let mut names = TextMap::new();
    names.insert("short".to_string(), "mcp__the_original".to_string());
    let mut ctx = StreamContext::new_with_thinking("test-model", 1, true, names);
    ctx.generate_initial_events();
    let piece = |name: &str, id: &str, input: &str, stop: bool| {
        Event::ToolUse(ToolUseEvent {
            name: name.to_string(),
            tool_use_id: id.to_string(),
            input: input.to_string(),
            stop,
        })
    };
    let mut events = Vec::new();
    for e in [
        piece("short", "a", "{\"x\":", false),
        Event::AssistantResponse { content: "some text in between, long enough".to_string() },
        piece("other", "b", "{}", true),
        piece("short", "a", "", false),
        piece("short", "a", "1}", true),
        piece("short", "a", "late", true),
    ] {
        events.extend(ctx.process_kiro_event(&e));
    }
    let of_first: Vec<SseEvent> = events.into_iter().filter(|e| index(e) == Some(0)).collect();
    assert_eq!(
        outline(&of_first),
        vec!["start 0 tool_use", "input_json_delta 0", "input_json_delta 0", "stop 0"]
    );
    assert_eq!(at(&of_first[0], "content_block", "name"), "mcp__the_original");
    assert_eq!(at(&of_first[1], "delta", "partial_json"), "{\"x\":");
    assert_eq!(at(&of_first[2], "delta", "partial_json"), "1}");
}
