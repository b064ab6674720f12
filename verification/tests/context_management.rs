//! Edits of the context.

use kiro_gateway::anthropic::context_management::{apply, clear_thinking, clear_tool_uses};
use kiro_gateway::anthropic::types::{Message, MessagesRequest};
use kiro_gateway::json::Json;

fn json(s: &str) -> Json {
    Json::parse(s).expect("a JSON document")
}

fn mk_request(messages: Vec<Message>, cm: Option<Json>) -> MessagesRequest {
    MessagesRequest {
        model: "opus-4-7".to_string(),
        max_tokens: 100,
        messages,
        stream: false,
        system: None,
        tools: None,
        tool_choice: None,
        thinking: None,
        output_config: None,
        metadata: None,
        context_management: cm,
    }
}

fn message(role: &str, content: &str) -> Message {
    Message { role: role.to_string(), content: json(content) }
}

fn assistant_with_tool(id: &str, name: &str) -> Message {
    message(
        "assistant",
        &format!(
            r#"[{{"type": "text", "text": "ok"}},
                {{"type": "tool_use", "id": "{id}", "name": "{name}", "input": {{}}}}]"#
        ),
    )
}

fn user_with_result(tuid: &str, text: &str) -> Message {
    message(
        "user",
        &format!(r#"[{{"type": "tool_result", "tool_use_id": "{tuid}", "content": "{text}"}}]"#),
    )
}

fn assistant_with_thinking(label: &str) -> Message {
    message(
        "assistant",
        &format!(
            r#"[{{"type": "thinking", "thinking": "internal reasoning {label}"}},
                {{"type": "text", "text": "response {label}"}}]"#
        ),
    )
}

/// The member `key` of each block of the type `kind`, in order.
fn blocks_of(messages: &[Message], kind: &str, key: &str) -> Vec<String> {
    let mut out = Vec::new();
    for m in messages {
        if let Some(blocks) = m.content.as_array() {
            for b in blocks {
                if b.get_text("type").map(|t| t.as_str()) == Some(kind) {
                    if let Some(t) = b.get_text(key) {
                        out.push(t.clone());
                    }
                }
            }
        }
    }
    out
}

#[test]
fn no_cm_no_op() {
    let mut req = mk_request(vec![], None);
    let r = apply(&mut req, 100_000);
    assert!(!r.applied);
}

#[test]
fn keeps_last_n_tool_uses() {
    let messages = vec![
        assistant_with_tool("t1", "Bash"),
        user_with_result("t1", "r1"),
        assistant_with_tool("t2", "Bash"),
        user_with_result("t2", "r2"),
        assistant_with_tool("t3", "Bash"),
        user_with_result("t3", "r3"),
        assistant_with_tool("t4", "Bash"),
        user_with_result("t4", "r4"),
    ];
    let cm = json(r#"{"edits": [{"type": "clear_tool_uses_20250605", "keep": {"value": 2}}]}"#);
    let mut req = mk_request(messages, Some(cm));
    let r = apply(&mut req, 200_000);
    assert!(r.applied);
    assert_eq!(r.cleared_tool_uses, 2);
    assert_eq!(r.cleared_tool_results, 2);
    assert_eq!(blocks_of(&req.messages, "tool_use", "id"), vec!["t3", "t4"]);
    assert_eq!(blocks_of(&req.messages, "tool_result", "tool_use_id"), vec!["t3", "t4"]);
}

#[test]
fn trigger_threshold_blocks() {
    let messages = vec![
        assistant_with_tool("t1", "Bash"),
        assistant_with_tool("t2", "Bash"),
        assistant_with_tool("t3", "Bash"),
    ];
    let cm = json(
        r#"{"edits": [{"type": "clear_tool_uses_20250605", "trigger": {"value": 100000},
            "keep": {"value": 1}}]}"#,
    );
    let mut req = mk_request(messages, Some(cm));
    let r = apply(&mut req, 50_000);
    assert!(!r.applied, "current < trigger, nothing applied");
    assert_eq!(blocks_of(&req.messages, "tool_use", "id"), vec!["t1", "t2", "t3"]);
}

#[test]
fn exclude_tools_protected() {
    let messages = vec![
        assistant_with_tool("t1", "str_replace_editor"),
        assistant_with_tool("t2", "Bash"),
        assistant_with_tool("t3", "Bash"),
    ];
    let cm = json(
        r#"{"edits": [{"type": "clear_tool_uses_20250605", "keep": {"value": 1},
            "exclude_tools": ["str_replace_editor"]}]}"#,
    );
    let mut req = mk_request(messages, Some(cm));
    let r = apply(&mut req, 100_000);
    assert!(r.applied);
    assert_eq!(blocks_of(&req.messages, "tool_use", "id"), vec!["t1", "t3"]);
}

#[test]
fn empty_message_removed_after_clear() {
    let messages = vec![
        assistant_with_tool("t1", "Bash"),
        user_with_result("t1", "r1"),
        assistant_with_tool("t2", "Bash"),
    ];
    let cm = json(r#"{"edits": [{"type": "clear_tool_uses_20250605", "keep": {"value": 1}}]}"#);
    let mut req = mk_request(messages, Some(cm));
    let r = apply(&mut req, 200_000);
    assert!(r.applied);
    assert_eq!(req.messages.len(), 2);
}

#[test]
fn unknown_edit_type_logged_but_safe() {
    let messages = vec![assistant_with_tool("t1", "Bash")];
    let cm = json(r#"{"edits": [{"type": "unknown_edit_99", "value": 1}]}"#);
    let mut req = mk_request(messages, Some(cm));
    let r = apply(&mut req, 100_000);
    assert!(!r.applied);
}

#[test]
fn clear_thinking_keeps_last_n() {
    let messages = vec![
        assistant_with_thinking("a"),
        message("user", r#""more please""#),
        assistant_with_thinking("b"),
        message("user", r#""again""#),
        assistant_with_thinking("c"),
        message("user", r#""once more""#),
        assistant_with_thinking("d"),
    ];
    let cm = json(r#"{"edits": [{"type": "clear_thinking_20251015", "keep": {"value": 2}}]}"#);
    let mut req = mk_request(messages, Some(cm));
    let r = apply(&mut req, 200_000);
    assert!(r.applied);
    assert_eq!(r.cleared_thinking, 2);
    assert_eq!(
        blocks_of(&req.messages, "thinking", "thinking"),
        vec!["internal reasoning c", "internal reasoning d"]
    );
    assert_eq!(blocks_of(&req.messages, "text", "text").len(), 4);
}

#[test]
fn clear_thinking_trigger_blocks() {
    let messages = vec![
        assistant_with_thinking("a"),
        assistant_with_thinking("b"),
        assistant_with_thinking("c"),
    ];
    let cm = json(
        r#"{"edits": [{"type": "clear_thinking_20251015", "trigger": {"value": 100000},
            "keep": {"value": 1}}]}"#,
    );
    let mut req = mk_request(messages, Some(cm));
    let r = apply(&mut req, 50_000);
    assert!(!r.applied);
}

#[test]
fn clear_thinking_and_tool_uses_combined() {
    let messages = vec![
        assistant_with_tool("t1", "Bash"),
        user_with_result("t1", "r1"),
        assistant_with_thinking("a"),
        assistant_with_thinking("b"),
        assistant_with_tool("t2", "Bash"),
        user_with_result("t2", "r2"),
    ];
    let cm = json(
        r#"{"edits": [
            {"type": "clear_tool_uses_20250605", "keep": {"value": 1}},
            {"type": "clear_thinking_20251015", "keep": {"value": 1}}
        ]}"#,
    );
    let mut req = mk_request(messages, Some(cm));
    let r = apply(&mut req, 200_000);
    assert!(r.applied);
    assert_eq!(r.cleared_tool_uses, 1);
    assert_eq!(r.cleared_thinking, 1);
}

#[test]
fn removed_calls_take_their_results_along() {
    let mut messages = vec![
        assistant_with_tool("t1", "Bash"),
        user_with_result("t1", "r1"),
        user_with_result("other", "r"),
        assistant_with_tool("t2", "Bash"),
    ];
    let r = clear_tool_uses(&mut messages, 1, &vec![]);
    assert_eq!(r.cleared_tool_uses, 1);
    assert_eq!(r.cleared_tool_results, 1);
    assert_eq!(blocks_of(&messages, "tool_result", "tool_use_id"), vec!["other"]);
}

#[test]
fn nothing_is_removed_while_all_may_stay() {
    let mut messages = vec![assistant_with_thinking("a"), assistant_with_tool("t1", "Bash")];
    assert_eq!(clear_thinking(&mut messages, 1), 0);
    let r = clear_tool_uses(&mut messages, 5, &vec![]);
    assert!(!r.applied);
    assert_eq!(messages.len(), 2);
}

fn tool_names(messages: &[Message]) -> Vec<String> {
    blocks_of(messages, "tool_use", "name")
}

#[test]
fn huge_triggers_are_waited_for() {
    let edit = |value: &str| {
        json(&format!(
            r#"{{"edits": [{{"type": "clear_tool_uses_20250605",
                "trigger": {{"type": "input_tokens", "value": {value}}},
                "keep": {{"type": "tool_uses", "value": 0}}}}]}}"#
        ))
    };
    for value in ["3000000000", "18446744073709551615"] {
        let mut req = mk_request(vec![assistant_with_tool("t1", "Bash")], Some(edit(value)));
        let r = apply(&mut req, 0);
        assert!(!r.applied);
        assert_eq!(tool_names(&req.messages), vec!["Bash"]);
    }
    let mut req = mk_request(vec![assistant_with_tool("t1", "Bash")], Some(edit("5")));
    assert!(apply(&mut req, 5).applied);
}

#[test]
fn excluded_tools_stay_beside_a_call_of_the_same_id() {
    let mut messages = vec![message(
        "assistant",
        r#"[{"type": "tool_use", "id": "t1", "name": "Bash"},
            {"type": "tool_use", "id": "t1", "name": "Edit"}]"#,
    )];
    let r = clear_tool_uses(&mut messages, 0, &vec!["Edit".to_string()]);
    assert_eq!(r.cleared_tool_uses, 1);
    assert_eq!(tool_names(&messages), vec!["Edit"]);
}

#[test]
fn the_last_calls_stay_with_repeated_ids() {
    let mut messages = vec![
        assistant_with_tool("a", "A"),
        assistant_with_tool("b", "B"),
        assistant_with_tool("a", "C"),
    ];
    let r = clear_tool_uses(&mut messages, 1, &vec![]);
    assert_eq!(r.cleared_tool_uses, 2);
    assert_eq!(tool_names(&messages), vec!["C"]);
}

#[test]
fn the_last_thinking_stays_in_order() {
    let mut messages: Vec<Message> = ["1", "2", "3"].map(assistant_with_thinking).into();
    assert_eq!(clear_thinking(&mut messages, 2), 1);
    assert_eq!(
        blocks_of(&messages, "thinking", "thinking"),
        vec!["internal reasoning 2", "internal reasoning 3"]
    );
}
