//! Thinking in complete answers and in pieces, texts and documents.

use kiro_gateway::anthropic::buffered::BufferedStreamContext;
use kiro_gateway::anthropic::sse::{Delta, SseData, SseEvent};
use kiro_gateway::anthropic::stream::{StreamContext, StreamFailure};
use kiro_gateway::anthropic::thinking::{
    extract_thinking_from_complete_text, find_char_boundary,
    find_real_thinking_end_tag_at_buffer_end,
};
use kiro_gateway::float_bits::FloatBits;
use kiro_gateway::ids::message_id;
use kiro_gateway::json::Json;
use kiro_gateway::kiro::model::events::{ContextUsage, Event};
use kiro_gateway::text::{decimal_text, signed_decimal_text, trim};
use kiro_gateway::text_map::TextMap;

fn sent(events: &[SseEvent]) -> (String, String) {
    let mut thinking = String::new();
    let mut text = String::new();
    for e in events {
        if let SseData::BlockDelta { delta, .. } = &e.data {
            match delta {
                Delta::Text(s) => text.push_str(s),
                Delta::Thinking(s) => thinking.push_str(s),
                _ => {}
            }
        }
    }
    (thinking, text)
}

/// What the client gets of an answer that comes in pieces of `n` characters.
fn in_pieces(answer: &str, n: usize) -> (String, String) {
    let mut ctx = StreamContext::new_with_thinking("m", 1, true, TextMap::new());
    let mut events = ctx.generate_initial_events();
    let chars: Vec<char> = answer.chars().collect();
    for piece in chars.chunks(n) {
        let piece: String = piece.iter().collect();
        events.extend(ctx.process_assistant_response(&piece));
    }
    events.extend(ctx.generate_final_events(0));
    sent(&events)
}

#[test]
fn pieces_do_not_matter() {
    let answer = " \n<thinking>\n先想一想, then\nact</thinking>\n\n答案 is 42";
    for n in 1..60 {
        let (thinking, text) = in_pieces(answer, n);
        assert_eq!(thinking, "先想一想, then\nact");
        assert_eq!(text, "答案 is 42");
    }
    let (thought, visible) = extract_thinking_from_complete_text(answer);
    assert_eq!(thought.as_deref(), Some("先想一想, then\nact"));
    assert_eq!(visible, "答案 is 42");
}

#[test]
fn answers_without_tags_pass_through() {
    let answer = "a `<thinkin>` tag, 中文 and </thinking>\n\n more";
    for n in 1..50 {
        assert_eq!(in_pieces(answer, n), (String::new(), answer.to_string()));
    }
}

#[test]
fn extraction_without_a_closing_tag_keeps_the_text() {
    let (thought, visible) = extract_thinking_from_complete_text("<thinking>abc");
    assert_eq!((thought, visible.as_str()), (None, "<thinking>abc"));
    let (thought, visible) = extract_thinking_from_complete_text("<thinking>abc</thinking>  ");
    assert_eq!(thought.as_deref(), Some("abc"));
    assert_eq!(visible, "");
    let (thought, visible) = extract_thinking_from_complete_text("x<thinking>a</thinking>\n\ny");
    assert_eq!((thought.as_deref(), visible.as_str()), (Some("a"), "xy"));
}

#[test]
fn trailing_end_tags() {
    assert_eq!(find_real_thinking_end_tag_at_buffer_end("abc</thinking>"), Some(3));
    assert_eq!(find_real_thinking_end_tag_at_buffer_end("abc</thinking> \n"), Some(3));
    assert_eq!(find_real_thinking_end_tag_at_buffer_end("abc</thinking>x"), None);
}

#[test]
fn boundaries_of_characters() {
    assert_eq!(find_char_boundary("你好", 4), 3);
    assert_eq!(find_char_boundary("你好", 6), 6);
    assert_eq!(find_char_boundary("你好", 9), 6);
    assert_eq!(find_char_boundary("abc", 2), 2);
}

#[test]
fn first_failure_counts() {
    let mut ctx = StreamContext::new_with_thinking("m", 1, false, TextMap::new());
    ctx.mark_failure(StreamFailure::StreamIo("cut".to_string()));
    ctx.mark_failure(StreamFailure::EmptyResponse);
    assert_eq!(ctx.failure_kind(), Some("stream_io"));
    assert_eq!(
        ctx.failure_message().as_deref(),
        Some("reading upstream stream failed: cut")
    );
    ctx.process_kiro_event(&Event::Exception {
        exception_type: "Throttling".to_string(),
        message: "slow".to_string(),
    });
    assert_eq!(ctx.failure_kind(), Some("stream_io"));
}

#[test]
fn failure_messages() {
    assert_eq!(StreamFailure::UpstreamError("e".to_string()).error_kind(), "upstream_error");
    assert_eq!(
        StreamFailure::UpstreamError("e".to_string()).client_message(),
        "upstream error event: e"
    );
    let exception = StreamFailure::UpstreamException("x".to_string());
    assert_eq!(exception.error_kind(), "upstream_exception");
    assert_eq!(exception.client_message(), "upstream exception: x");
}

#[test]
fn held_back_answers_state_the_final_context() {
    let mut b = BufferedStreamContext::new("m", 10, false, TextMap::new());
    b.process_and_buffer(&Event::AssistantResponse { content: "hi".to_string() });
    b.process_and_buffer(&Event::ContextUsage(ContextUsage {
        percentage: FloatBits { bits: 1.0f64.to_bits() },
        input_tokens: 2000,
        is_full: false,
    }));
    let events = b.finish_and_get_all_events(0);
    match &events[0].data {
        SseData::MessageStart { input_tokens, model, .. } => {
            assert_eq!(*input_tokens, 2000);
            assert_eq!(model, "m");
        }
        other => panic!("unexpected: {other:?}"),
    }
    assert_eq!(sent(&events), (String::new(), "hi".to_string()));
    assert_eq!(events.last().unwrap().event, "message_stop");
}

#[test]
fn missing_signatures_can_be_supplied() {
    let mut ctx = StreamContext::new_with_thinking("m", 1, true, TextMap::new());
    ctx.generate_initial_events();
    let mut events = ctx.process_assistant_response("<thinking>abc</thinking>\n\nx");
    let e = events.iter_mut().find(|e| e.pending_signature().is_some()).unwrap();
    assert_eq!(e.pending_signature(), Some(("m".to_string(), "abc".to_string())));
    e.supply_signature("sig");
    assert_eq!(
        e.to_sse_string(),
        "event: content_block_delta\ndata: {\"delta\":{\"signature\":\"sig\",\"type\":\"signature_delta\"},\"index\":0,\"type\":\"content_block_delta\"}\n\n"
    );
}

#[test]
fn message_ids_have_no_hyphens() {
    assert_eq!(
        message_id("6ba7b810-9dad-41d1-80b4-00c04fd430c8"),
        "msg_6ba7b8109dad41d180b400c04fd430c8"
    );
    let a = StreamContext::new_with_thinking("m", 1, false, TextMap::new());
    let b = StreamContext::new_with_thinking("m", 1, false, TextMap::new());
    assert_eq!(a.message_id.len(), 36);
    assert_ne!(a.message_id, b.message_id);
}

#[test]
fn documents_read_back() {
    let text = r#"{"a":[1,-2,1.5,null,true,"x\n"],"b":{"c":18446744073709551615}}"#;
    let v = Json::parse(text).unwrap();
    assert_eq!(v.to_text(), text);
    let a = v.get("a").unwrap().as_array().unwrap();
    assert_eq!(a[0].as_u64(), Some(1));
    assert_eq!(a[1].as_i64(), Some(-2));
    assert_eq!(a[1].as_u64(), None);
    assert_eq!(a[2].as_i64(), None);
    assert_eq!(a[5].as_text().map(|s| s.as_str()), Some("x\n"));
    assert_eq!(v.get("b").unwrap().get("c").unwrap().as_u64(), Some(u64::MAX));
    assert!(Json::parse("{").is_none());
}

#[test]
fn numbers_and_spaces() {
    assert_eq!(decimal_text(u64::MAX), "18446744073709551615");
    assert_eq!(signed_decimal_text(i64::MIN), "-9223372036854775808");
    assert_eq!(signed_decimal_text(0), "0");
    assert_eq!(trim("\u{3000} a b\t\n"), "a b");
    assert_eq!(trim(" \u{a0}"), "");
}

#[test]
fn text_without_thinking_comes_back_as_it_was() {
    let text = "<thinking>\n</thinking>\n\nhi";
    assert_eq!(extract_thinking_from_complete_text(text), (None, text.to_string()));
    let (thinking, rest) = extract_thinking_from_complete_text("<thinking>\nx</thinking>\n\nhi");
    assert_eq!((thinking.as_deref(), rest.as_str()), (Some("x"), "hi"));
}
