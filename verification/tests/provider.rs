//! The decisions of calls to the service.

use kiro_gateway::json::Json;
use kiro_gateway::kiro::cache_estimate::{baseline_for, Baseline};
use kiro_gateway::kiro::provider::{
    account_id, backoff_ms, conversation_of_document, delay_with_jitter,
    extract_conversation_id_from_request, extract_model_from_request, model_of_document,
    retry_delay, Account, CallFailure, CallKind, Reply, RetryAction, RetryEvent, RetryState,
};
use kiro_gateway::model::tuning::RetryConfig;

const API: CallKind = CallKind::Api { stream: true };

fn account(id: u64) -> Account {
    Account { id, email: None, subscription_title: Some("PRO".to_string()), endpoint: None }
}

fn reply(status: u16) -> Reply {
    Reply {
        status,
        status_text: format!("{status} X"),
        body: "body".to_string(),
        monthly_limit: false,
        token_invalid: false,
    }
}

fn start(kind: CallKind, credentials: usize) -> (RetryState, RetryAction) {
    RetryState::start(
        kind,
        credentials,
        &RetryConfig::default(),
        vec!["ide".to_string()],
        "ide".to_string(),
    )
}

/// A call whose first request was answered with `reply`.
fn answered(kind: CallKind, reply: Reply) -> (RetryState, RetryAction) {
    let (mut state, first) = start(kind, 2);
    assert!(matches!(first, RetryAction::Acquire));
    let send = state.step(RetryEvent::Acquired(account(7)));
    assert!(matches!(send, RetryAction::Send { endpoint } if endpoint == "ide"));
    let action = state.step(RetryEvent::Replied(reply));
    (state, action)
}

fn message(failure: CallFailure) -> String {
    match failure {
        CallFailure::Upstream(e) => e.message,
        CallFailure::Plain(m) => m,
    }
}

#[test]
fn success_ends_the_call() {
    let (_, action) = answered(API, reply(200));
    match action {
        RetryAction::Succeed(s) => {
            assert_eq!(s.credential_id, 7);
            assert_eq!(s.account_id, "kiro-7");
            assert_eq!(s.account_label.as_deref(), Some("PRO"));
            assert_eq!((s.attempts, s.http_status), (1, 200));
        }
        other => panic!("unexpected: {other:?}"),
    }
}

#[test]
fn bad_requests_are_not_repeated() {
    for status in [400, 404, 422] {
        let (_, action) = answered(API, reply(status));
        match action {
            RetryAction::Fail(CallFailure::Upstream(e)) => {
                assert_eq!(e.http_status, Some(status));
                assert_eq!(e.attempts, 1);
                assert_eq!(e.message, format!("流式 API 请求失败: {status} X body"));
            }
            other => panic!("unexpected: {other:?}"),
        }
    }
}

#[test]
fn transient_trouble_is_waited_out() {
    for status in [408, 500, 503] {
        let (mut state, action) = answered(API, reply(status));
        assert!(matches!(action, RetryAction::Wait { attempt: 0 }));
        assert!(matches!(state.step(RetryEvent::Waited), RetryAction::Acquire));
    }
    let (_, action) = answered(CallKind::Mcp, reply(429));
    assert!(matches!(action, RetryAction::Wait { attempt: 0 }));
}

#[test]
fn limits_are_reported() {
    let (mut state, action) = answered(API, reply(429));
    assert!(matches!(action, RetryAction::ReportRateLimited { id: 7 }));
    match state.step(RetryEvent::Reported { has_available: false }) {
        RetryAction::Fail(f) => {
            assert_eq!(message(f), "流式 API 请求失败（所有凭据已限流/禁用）: 429 X body");
        }
        other => panic!("unexpected: {other:?}"),
    }
    let mut quota = reply(402);
    quota.monthly_limit = true;
    let (mut state, action) = answered(API, quota);
    assert!(matches!(action, RetryAction::ReportQuotaExhausted { id: 7 }));
    assert!(matches!(
        state.step(RetryEvent::Reported { has_available: true }),
        RetryAction::Acquire
    ));
}

#[test]
fn tokens_are_renewed_once() {
    let mut refused = reply(401);
    refused.token_invalid = true;
    let (mut state, action) = answered(API, refused.clone());
    assert!(matches!(action, RetryAction::ForceRefresh { id: 7 }));
    assert!(matches!(state.step(RetryEvent::Refreshed { ok: true }), RetryAction::Acquire));
    state.step(RetryEvent::Acquired(account(7)));
    let action = state.step(RetryEvent::Replied(refused));
    assert!(matches!(action, RetryAction::ReportFailure { id: 7 }));
    match state.step(RetryEvent::Reported { has_available: false }) {
        RetryAction::Fail(f) => {
            assert_eq!(message(f), "流式 API 请求失败（所有凭据已用尽）: 401 X body");
        }
        other => panic!("unexpected: {other:?}"),
    }
}

#[test]
fn attempts_run_out() {
    let (mut state, mut action) = start(CallKind::Api { stream: false }, 1);
    let mut attempts = 0;
    loop {
        action = match action {
            RetryAction::Acquire => {
                attempts += 1;
                state.step(RetryEvent::Acquired(account(1)))
            }
            RetryAction::Send { .. } => state.step(RetryEvent::SendFailed("no route".to_string())),
            RetryAction::Wait { .. } => state.step(RetryEvent::Waited),
            RetryAction::Fail(f) => {
                assert_eq!(message(f), "API 请求发送失败: no route");
                break;
            }
            other => panic!("unexpected: {other:?}"),
        };
    }
    assert_eq!(attempts, 3);
}

#[test]
fn calls_without_credentials_fail_at_once() {
    let (_, action) = start(CallKind::Mcp, 0);
    match action {
        RetryAction::Fail(CallFailure::Plain(m)) => {
            assert_eq!(m, "MCP 请求失败：已达到最大重试次数（0次）");
        }
        other => panic!("unexpected: {other:?}"),
    }
}

#[test]
fn unknown_endpoints_count_against_the_credential() {
    let (mut state, _) = start(API, 1);
    let mut odd = account(3);
    odd.endpoint = Some("nowhere".to_string());
    let action = state.step(RetryEvent::Acquired(odd));
    assert!(matches!(action, RetryAction::ReportFailure { id: 3 }));
    assert!(matches!(
        state.step(RetryEvent::Reported { has_available: true }),
        RetryAction::Acquire
    ));
}

#[test]
fn accounts_are_named_by_mail_or_number() {
    let mut a = account(12);
    assert_eq!(account_id(&a), "kiro-12");
    a.email = Some("a@b.com".to_string());
    assert_eq!(account_id(&a), "a@b.com");
}

#[test]
fn requests_name_model_and_conversation() {
    let body = r#"{"conversationState": {"conversationId": "c-1",
        "currentMessage": {"userInputMessage": {"modelId": "opus"}}}}"#;
    assert_eq!(extract_model_from_request(body).as_deref(), Some("opus"));
    assert_eq!(extract_conversation_id_from_request(body).as_deref(), Some("c-1"));
    assert_eq!(extract_model_from_request("{}"), None);
    assert_eq!(extract_conversation_id_from_request("no json"), None);
    let document = Json::parse(body).unwrap();
    assert_eq!(model_of_document(&document).as_deref(), Some("opus"));
    assert_eq!(conversation_of_document(&document).as_deref(), Some("c-1"));
}

#[test]
fn delays_double_up_to_the_limit() {
    let config = RetryConfig::default();
    let delays: Vec<u64> = (0..8).map(|n| backoff_ms(&config, n)).collect();
    assert_eq!(delays, vec![200, 400, 800, 1600, 2000, 2000, 2000, 2000]);
    assert_eq!(delay_with_jitter(&config, 1, 33), 433);
    for n in 0..8 {
        for _ in 0..20 {
            let d = retry_delay(&config, n);
            assert!(delays[n] <= d && d <= delays[n] + delays[n] / 4);
        }
    }
}

#[test]
fn delays_vary() {
    let config = RetryConfig::default();
    let seen: Vec<u64> = (0..200).map(|_| retry_delay(&config, 4)).collect();
    assert!(seen.iter().any(|d| *d != seen[0]));
}

#[test]
fn baselines_of_known_models() {
    let base = |i, o| Some(Baseline { per_input_token: i, per_output_token: o });
    assert_eq!(baseline_for("opus-4-7"), base(837, 29600));
    assert_eq!(baseline_for("Opus-4.8-Thinking"), base(722, 40600));
    assert_eq!(baseline_for("opus-4-6"), base(553, 24500));
    assert_eq!(baseline_for("opus-4-6-thinking"), base(690, 21000));
    assert_eq!(baseline_for("sonnet-4-6-thinking"), base(253, 39300));
    assert_eq!(baseline_for("sonnet-4-6"), None);
    assert_eq!(baseline_for("sonnet-4-5"), base(284, 13700));
    assert_eq!(baseline_for("haiku-4.5"), base(142, 3900));
    assert_eq!(baseline_for("gpt-5"), None);
}

#[test]
fn each_credential_has_its_own_limit() {
    let (mut state, _) = start(API, 2);
    let mut action = RetryAction::Acquire;
    let mut sent = Vec::new();
    for id in [1, 1, 1, 1, 2] {
        assert!(matches!(action, RetryAction::Acquire));
        action = state.step(RetryEvent::Acquired(account(id)));
        if let RetryAction::Send { .. } = action {
            sent.push(id);
            state.step(RetryEvent::Replied(reply(503)));
            action = state.step(RetryEvent::Waited);
        }
    }
    assert_eq!(sent, vec![1, 1, 1, 2]);
}

#[test]
fn ended_calls_stay_over() {
    let (mut state, action) = answered(API, reply(400));
    assert!(matches!(action, RetryAction::Fail(_)));
    assert!(matches!(state.step(RetryEvent::Waited), RetryAction::Fail(_)));
    assert!(matches!(state.step(RetryEvent::Acquired(account(7))), RetryAction::Fail(_)));
}
