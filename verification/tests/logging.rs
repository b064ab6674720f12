//! What is recorded of a request.

use kiro_gateway::anthropic::logging::{
    begin, cache_control_in, finish, finish_with_error, observe_dispatch, observe_event,
};
use kiro_gateway::anthropic::types::{Message, MessagesRequest};
use kiro_gateway::db::recorder::{millis_or_zero, RequestRecordBuilder, RequestStatus};
use kiro_gateway::float_bits::FloatBits;
use kiro_gateway::json::Json;
use kiro_gateway::kiro::model::events::{ContextUsage, Event, MeteringEvent, TokenUsageEvent};
use kiro_gateway::kiro::provider::CallSuccess;

fn bits(x: f64) -> FloatBits {
    FloatBits { bits: x.to_bits() }
}

fn value(x: Option<FloatBits>) -> Option<f64> {
    x.map(|b| f64::from_bits(b.bits))
}

fn mk_request(with_cc: bool) -> MessagesRequest {
    let content = if with_cc {
        r#"[{"type": "text", "text": "hi", "cache_control": {"type": "ephemeral"}}]"#
    } else {
        r#""hi""#
    };
    MessagesRequest {
        model: "sonnet-4-6".to_string(),
        max_tokens: 100,
        messages: vec![Message { role: "user".to_string(), content: Json::parse(content).unwrap() }],
        stream: true,
        system: None,
        tools: None,
        tool_choice: None,
        thinking: None,
        output_config: None,
        metadata: None,
        context_management: None,
    }
}

fn started() -> RequestRecordBuilder {
    RequestRecordBuilder::begin("/v1/messages", "m", false, 1, 0, false, 0)
}

#[test]
fn begin_detects_cache_control() {
    let req = mk_request(true);
    let b = begin("/v1/messages", &req);
    let rec = b.build(RequestStatus::Success);
    assert!(rec.has_cache_control);
    assert_eq!(rec.endpoint, "/v1/messages");
    assert!(rec.is_stream);
    assert_eq!(rec.messages_count, 1);
}

#[test]
fn begin_no_cache_control_when_absent() {
    let req = mk_request(false);
    let b = begin("/v1/messages", &req);
    let rec = b.build(RequestStatus::Success);
    assert!(!rec.has_cache_control);
}

#[test]
fn begin_counts_tools_and_the_system_prompt() {
    let mut req = mk_request(false);
    req.system = Some(Json::parse(r#"[{"text":"你好","type":"text"}]"#).unwrap());
    req.tools = Some(Json::parse(r#"[{"name":"a"},{"name":"b"}]"#).unwrap());
    let rec = begin("/v1/messages", &req).build(RequestStatus::Success);
    assert_eq!(rec.tools_count, 2);
    assert_eq!(rec.system_prompt_len, r#"[{"text":"你好","type":"text"}]"#.len() as i32);
}

#[test]
fn cache_control_of_the_system_prompt_counts() {
    let mut req = mk_request(false);
    req.system = Some(Json::parse(r#"[{"cache_control":{"type":"ephemeral"}}]"#).unwrap());
    assert!(begin("/v1/messages", &req).build(RequestStatus::Success).has_cache_control);
    assert!(cache_control_in(&vec!["x".to_string(), "a cache_control b".to_string()]));
    assert!(!cache_control_in(&vec!["cache-control".to_string()]));
}

#[test]
fn observe_event_metering() {
    let mut b = started();
    let ev = Event::Metering(MeteringEvent {
        unit: Some("credit".into()),
        unit_plural: Some("credits".into()),
        usage: bits(0.5),
    });
    observe_event(&mut b, &ev);
    let rec = b.build(RequestStatus::Success);
    assert_eq!(value(rec.metering_usage), Some(0.5));
    assert_eq!(rec.metering_unit.as_deref(), Some("credit"));
}

#[test]
fn observe_event_context_usage() {
    let mut b = started();
    let ev = Event::ContextUsage(ContextUsage {
        percentage: bits(42.5),
        input_tokens: 85_000,
        is_full: false,
    });
    observe_event(&mut b, &ev);
    let rec = b.build(RequestStatus::Success);
    assert_eq!(value(rec.context_usage_pct), Some(42.5));
}

#[test]
fn observe_event_token_usage() {
    let mut b = started();
    b.set_prompt_tokens(1);
    b.set_completion_tokens(2);
    observe_event(&mut b, &Event::TokenUsage(TokenUsageEvent::default()));
    assert_eq!(b.prompt_tokens(), Some(1));
    assert_eq!(b.completion_tokens(), Some(2));
    assert_eq!(b.cached_tokens(), None);
    observe_event(
        &mut b,
        &Event::TokenUsage(TokenUsageEvent {
            uncached_input_tokens: 100,
            output_tokens: 30,
            total_tokens: 1030,
            cache_read_input_tokens: Some(900),
            cache_write_input_tokens: Some(7),
        }),
    );
    let rec = b.build(RequestStatus::Success);
    assert_eq!(rec.prompt_tokens, Some(1000));
    assert_eq!(rec.completion_tokens, Some(30));
    assert_eq!(rec.cached_tokens, Some(900));
    assert_eq!(rec.cache_creation_tokens, Some(7));
}

#[test]
fn observe_dispatch_records_the_account() {
    let mut b = started();
    observe_dispatch(
        &mut b,
        &CallSuccess {
            credential_id: 3,
            account_id: "a@b.com".to_string(),
            account_label: Some("PRO".to_string()),
            attempts: 2,
            http_status: 200,
        },
    );
    let rec = b.build(RequestStatus::Success);
    assert_eq!(rec.account_id.as_deref(), Some("a@b.com"));
    assert_eq!(rec.account_label.as_deref(), Some("PRO"));
    assert_eq!(rec.attempts, 2);
    assert_eq!(rec.http_status, Some(200));
}

#[test]
fn requests_that_are_not_logged_leave_no_record() {
    assert!(finish(false, started(), RequestStatus::Success).is_none());
    let rec = finish(true, started(), RequestStatus::Cancelled).unwrap();
    assert_eq!(rec.status, RequestStatus::Cancelled);
}

#[test]
fn failed_requests_say_why() {
    let rec = finish_with_error(
        true,
        started(),
        "quota_exhausted".to_string(),
        "upstream".to_string(),
        "402".to_string(),
        "limit".to_string(),
    )
    .unwrap();
    assert_eq!(rec.status, RequestStatus::Error);
    assert_eq!(rec.error_kind.as_deref(), Some("quota_exhausted"));
    assert_eq!(rec.error_message.as_deref(), Some("limit"));
    let detail = rec.error_detail.unwrap();
    assert_eq!((detail.stage.as_str(), detail.code.as_str()), ("upstream", "402"));
    assert_eq!(detail.message, "limit");
}

#[test]
fn builder_default_minimal_fields() {
    let b = RequestRecordBuilder::begin("/v1/messages", "sonnet-4-6", false, 1, 0, false, 0);
    let rec = b.build(RequestStatus::Success);
    assert_eq!(rec.endpoint, "/v1/messages");
    assert_eq!(rec.model, "sonnet-4-6");
    assert_eq!(rec.status, RequestStatus::Success);
    assert_eq!(rec.pool_id, "kiro");
    assert_eq!(rec.attempts, 1);
    assert!(rec.metering_usage.is_none());
    assert!(uuid::Uuid::parse_str(&rec.request_id).is_ok());
    assert!(rec.latency_ms >= 0);
}

#[test]
fn builder_full_path() {
    let mut b =
        RequestRecordBuilder::begin("/cc/v1/messages", "opus-4-7", true, 5, 2, true, 42);
    b.set_client_identity(Some("pk-abc".into()), Some("client-x".into()), Some("sess-1".into()));
    b.set_account("a@b.com".into(), Some("KIRO PRO+".into()));
    b.set_upstream_model("opus-4.7".into());
    b.set_prompt_tokens(1100);
    b.set_completion_tokens(800);
    b.set_cached_tokens(900);
    b.set_cache_creation_tokens(50);
    b.set_context_usage_pct(bits(13.4));
    b.set_metering(Some("credit".into()), bits(0.025));
    b.set_http_status(200);
    b.set_reason("end_turn".into());
    b.mark_ttfb();
    let rec = b.build(RequestStatus::Success);
    assert_eq!(rec.account_id.as_deref(), Some("a@b.com"));
    assert_eq!(rec.account_label.as_deref(), Some("KIRO PRO+"));
    assert_eq!(rec.upstream_model.as_deref(), Some("opus-4.7"));
    assert_eq!(rec.prompt_tokens, Some(1100));
    assert_eq!(rec.cached_tokens, Some(900));
    assert_eq!(value(rec.metering_usage), Some(0.025));
    assert_eq!(rec.http_status, Some(200));
    assert_eq!(rec.reason.as_deref(), Some("end_turn"));
    assert!(rec.ttfb_ms.is_some());
}

#[test]
fn builder_error_path() {
    let mut b =
        RequestRecordBuilder::begin("/v1/messages", "sonnet-4-6", false, 1, 0, false, 0);
    b.set_http_status(402);
    b.set_error(
        "quota_exhausted".into(),
        "upstream".into(),
        "402".into(),
        "monthly limit reached".into(),
    );
    b.set_response_body("{\"reason\":\"MONTHLY_REQUEST_COUNT\"}".into());
    let rec = b.build(RequestStatus::Error);
    assert_eq!(rec.status, RequestStatus::Error);
    assert_eq!(rec.error_kind.as_deref(), Some("quota_exhausted"));
    assert_eq!(rec.error_message.as_deref(), Some("monthly limit reached"));
    let detail = rec.error_detail.unwrap();
    assert_eq!(detail.code, "402");
}

#[test]
fn first_byte_is_recorded_once() {
    let mut b = started();
    b.mark_ttfb();
    let first = b.ttfb_ms;
    assert!(first.is_some());
    b.mark_ttfb_at(99_999);
    b.mark_ttfb();
    assert_eq!(b.ttfb_ms, first);
}

#[test]
fn clock_readings_are_plausible() {
    let earliest: i64 = 1_700_000_000_000;
    assert!(started().ts_ms > earliest);
    assert_eq!(millis_or_zero(None), 0);
    assert_eq!(millis_or_zero(Some(1_234)), 1_234);
    assert_eq!(millis_or_zero(Some(1 << 64)), 0);
}

#[test]
fn status_as_str() {
    assert_eq!(RequestStatus::Success.as_str(), "success");
    assert_eq!(RequestStatus::Error.as_str(), "error");
    assert_eq!(RequestStatus::Cancelled.as_str(), "cancelled");
}
