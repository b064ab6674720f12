//! The administration interface and access keys.

use kiro_gateway::admin::handlers;
use kiro_gateway::admin::handlers::{
    CredentialAction, ListRequestsQuery, SetConcurrencyRequest,
};
use kiro_gateway::admin::replies::{AdminReply, TaskOutcome};
use kiro_gateway::anthropic::middleware::{resolve, AllowedCredentials, KeyLookup};
use kiro_gateway::common::auth::{constant_time_eq, is_key, match_key};
use kiro_gateway::db::api_keys::ApiKeyRow;
use kiro_gateway::db::groups::GroupRow;
use std::collections::HashSet;

fn row(id: i64, key: &str, disabled: bool) -> ApiKeyRow {
    ApiKeyRow {
        id,
        key: key.to_string(),
        label: None,
        created_at: 5,
        disabled,
        group_id: Some(9),
    }
}

fn failure(r: &AdminReply) -> (u16, String) {
    match r {
        AdminReply::Failure { status, error } => (*status, error.clone()),
        AdminReply::Success { message } => panic!("success: {message}"),
    }
}

fn success(r: &AdminReply) -> String {
    assert!(r.is_success());
    match r {
        AdminReply::Success { message } => message.clone(),
        AdminReply::Failure { error, .. } => panic!("failure: {error}"),
    }
}

fn failed<T>(m: &str) -> TaskOutcome<T> {
    TaskOutcome::Failed(m.to_string())
}

fn panicked<T>(m: &str) -> TaskOutcome<T> {
    TaskOutcome::Panicked(m.to_string())
}

#[test]
fn keys_are_masked() {
    assert_eq!(handlers::mask_api_key("sk-1234567890"), "sk-1***90");
    assert_eq!(handlers::mask_api_key("12345678"), "***");
    assert_eq!(handlers::mask_api_key("123456789"), "1234***89");
    assert_eq!(handlers::mask_api_key("密钥密钥密钥密钥密钥"), "密钥密钥***密钥");
    let items = handlers::api_key_items(&vec![row(1, "sk-1234567890", true)]);
    assert_eq!(items[0].masked, "sk-1***90");
    assert!(items[0].disabled);
    assert_eq!((items[0].id, items[0].created_at, items[0].group_id), (1, 5, Some(9)));
}

#[test]
fn credential_messages() {
    let m = |a| handlers::credential_message(3, a);
    assert_eq!(m(CredentialAction::SetDisabled(true)), "凭据 #3 已禁用");
    assert_eq!(m(CredentialAction::SetDisabled(false)), "凭据 #3 已启用");
    assert_eq!(m(CredentialAction::SetPriority(10)), "凭据 #3 优先级已设置为 10");
    assert_eq!(m(CredentialAction::Reset), "凭据 #3 失败计数已重置并重新启用");
    assert_eq!(m(CredentialAction::Delete), "凭据 #3 已删除");
    assert_eq!(m(CredentialAction::RefreshToken), "凭据 #3 Token 已强制刷新");
    assert_eq!(m(CredentialAction::SetConcurrency(4)), "凭据 #3 并发上限已设为 4");
}

#[test]
fn new_keys_are_checked() {
    assert_eq!(handlers::checked_key("  sk \n").unwrap(), "sk");
    let refused = handlers::checked_key(" \t").unwrap_err();
    assert_eq!(failure(&refused), (400, "key 不能为空".to_string()));
    assert_eq!(handlers::checked_label(&Some(" a ".to_string())).as_deref(), Some("a"));
    assert_eq!(handlers::checked_label(&Some("  ".to_string())), None);
    assert_eq!(handlers::checked_label(&None), None);
    let done = handlers::add_api_key_reply(&TaskOutcome::Done(4));
    assert_eq!(success(&done), "API Key 已添加");
    let twice = handlers::add_api_key_reply(&failed("UNIQUE constraint failed: api_keys.key"));
    assert_eq!(failure(&twice), (409, "该 API Key 已存在".to_string()));
    let broken = handlers::add_api_key_reply(&failed("disk full"));
    assert_eq!(failure(&broken), (500, "持久化失败: disk full".to_string()));
    let died = handlers::add_api_key_reply(&panicked("boom"));
    assert_eq!(failure(&died), (500, "task panic: boom".to_string()));
}

#[test]
fn the_last_key_stays() {
    let two = vec![row(1, "a", false), row(2, "b", false)];
    assert!(handlers::delete_guard(&two, 1).is_ok());
    let one = vec![row(1, "a", false)];
    let refused = handlers::delete_guard(&one, 1).unwrap_err();
    let reply = handlers::delete_api_key_reply(1, &failed(&refused));
    assert_eq!(failure(&reply), (400, "至少保留一个 API Key".to_string()));
    let gone = handlers::delete_api_key_reply(-2, &TaskOutcome::Done(0));
    assert_eq!(failure(&gone), (404, "API Key #-2 不存在".to_string()));
    let done = handlers::delete_api_key_reply(8, &TaskOutcome::Done(1));
    assert_eq!(success(&done), "API Key #8 已删除");
    assert_eq!(failure(&handlers::delete_api_key_reply(8, &failed("x"))).0, 500);
}

#[test]
fn the_last_enabled_key_is_not_deleted() {
    let rows = vec![row(1, "a", false), row(2, "b", true)];
    assert_eq!(handlers::delete_guard(&rows, 1).unwrap_err(), "至少保留一个 API Key");
    assert!(handlers::delete_guard(&rows, 2).is_ok());
    assert!(handlers::delete_guard(&rows, 9).is_ok());
}

#[test]
fn one_key_alone_is_kept_whatever_the_identifier() {
    let one = vec![row(1, "a", false)];
    assert!(handlers::delete_guard(&one, 9).is_err());
    assert!(handlers::delete_guard(&vec![row(1, "a", true)], 1).is_err());
    assert!(handlers::delete_guard(&vec![], 1).is_err());
    let disabled = vec![row(1, "a", true), row(2, "b", true)];
    assert!(handlers::delete_guard(&disabled, 1).is_ok());
}

#[test]
fn the_last_enabled_key_stays_enabled() {
    let rows = vec![row(1, "a", false), row(2, "b", true), row(3, "c", false)];
    assert!(handlers::disable_guard(&rows, 1, true).is_ok());
    let one = vec![row(1, "a", false), row(2, "b", true)];
    let refused = handlers::disable_guard(&one, 1, true).unwrap_err();
    let reply = handlers::set_api_key_disabled_reply(1, true, &failed(&refused));
    assert_eq!(failure(&reply), (400, "至少保留一个启用的 API Key".to_string()));
    assert!(handlers::disable_guard(&one, 1, false).is_ok());
    let done = |d| success(&handlers::set_api_key_disabled_reply(1, d, &TaskOutcome::Done(1)));
    assert_eq!(done(true), "API Key #1 已禁用");
    assert_eq!(done(false), "API Key #1 已启用");
}

#[test]
fn groups_are_listed_with_their_credentials() {
    let groups = vec![
        GroupRow { id: 1, name: "a".to_string(), created_at: 2 },
        GroupRow { id: 2, name: "b".to_string(), created_at: 3 },
    ];
    let items = handlers::group_items(&groups, &vec![(10, 1), (11, 2), (12, 1)]);
    assert_eq!(items[0].credential_ids, vec![10, 12]);
    assert_eq!(items[1].credential_ids, vec![11]);
    assert_eq!((items[1].id, items[1].name.as_str(), items[1].created_at), (2, "b", 3));
}

#[test]
fn group_replies() {
    assert_eq!(handlers::checked_group_name(" x ").unwrap(), "x");
    let refused = handlers::checked_group_name("").unwrap_err();
    assert_eq!(failure(&refused), (400, "分组名不能为空".to_string()));
    assert_eq!(success(&handlers::add_group_reply(&TaskOutcome::Done(1))), "分组已创建");
    assert_eq!(
        failure(&handlers::add_group_reply(&failed("UNIQUE"))),
        (409, "同名分组已存在".to_string())
    );
    assert_eq!(failure(&handlers::add_group_reply(&failed("x"))), (500, "x".to_string()));
    assert_eq!(
        success(&handlers::rename_group_reply(1, &TaskOutcome::Done(1))),
        "分组已重命名"
    );
    assert_eq!(
        failure(&handlers::rename_group_reply(1, &TaskOutcome::Done(0))),
        (404, "分组 #1 不存在".to_string())
    );
    assert_eq!(failure(&handlers::rename_group_reply(1, &failed("UNIQUE"))).0, 409);
    assert_eq!(success(&handlers::delete_group_reply(1, &TaskOutcome::Done(1))), "分组已删除");
    assert_eq!(failure(&handlers::delete_group_reply(1, &TaskOutcome::Done(0))).0, 404);
    assert_eq!(failure(&handlers::delete_group_reply(1, &failed("x"))).0, 500);
    assert_eq!(
        success(&handlers::set_credential_group_reply(&TaskOutcome::Done(()))),
        "凭据分组已更新"
    );
    assert_eq!(
        failure(&handlers::set_credential_group_reply(&failed("FOREIGN KEY constraint failed"))).0,
        400
    );
    assert_eq!(failure(&handlers::set_credential_group_reply(&failed("x"))).0, 500);
    assert_eq!(
        success(&handlers::set_api_key_group_reply(1, &TaskOutcome::Done(1))),
        "API Key 分组绑定已更新"
    );
    assert_eq!(failure(&handlers::set_api_key_group_reply(1, &TaskOutcome::Done(0))).0, 404);
    assert_eq!(failure(&handlers::set_api_key_group_reply(1, &failed("constraint"))).0, 400);
}

#[test]
fn log_queries_are_bounded() {
    let query = |limit, offset| {
        handlers::list_query(ListRequestsQuery {
            limit,
            offset,
            status: Some("error".to_string()),
            account_id: None,
        })
    };
    let q = query(None, None);
    assert_eq!((q.limit, q.offset), (50, 0));
    assert_eq!(q.status.as_deref(), Some("error"));
    let q = query(Some(10_000), Some(7));
    assert_eq!((q.limit, q.offset), (500, 7));
    assert_eq!(query(Some(0), None).limit, 0);
}

#[test]
fn log_replies() {
    assert_eq!(failure(&handlers::log_disabled_reply()), (503, "请求日志未启用".to_string()));
    assert_eq!(failure(&handlers::no_request_reply("r")), (404, "请求 r 不存在".to_string()));
    assert!(handlers::query_failure(&TaskOutcome::Done(1)).is_none());
    let r = handlers::query_failure(&failed::<()>("x")).unwrap();
    assert_eq!(failure(&r), (500, "x".to_string()));
    let r = handlers::query_failure(&panicked::<()>("x")).unwrap();
    assert_eq!(failure(&r), (500, "task panic: x".to_string()));
}

#[test]
fn concurrency_is_from_one_to_a_hundred() {
    let refusal =
        |n| handlers::concurrency_refusal(&SetConcurrencyRequest { max_concurrency: n });
    assert!(refusal(1).is_none());
    assert!(refusal(100).is_none());
    for n in [0, 101] {
        assert_eq!(
            failure(&refusal(n).unwrap()),
            (400, "max_concurrency 必须在 1..=100 之间".to_string())
        );
    }
}

#[test]
fn keys_are_compared_whole() {
    assert!(constant_time_eq("密钥", "密钥"));
    assert!(!constant_time_eq("key", "kez"));
    assert!(!constant_time_eq("key", "keys"));
    let keys = vec!["a".to_string(), "b".to_string()];
    assert_eq!(match_key(Some("b".to_string()), &keys).as_deref(), Some("b"));
    assert_eq!(match_key(Some("c".to_string()), &keys), None);
    assert_eq!(match_key(None, &keys), None);
    assert!(is_key(&Some("x".to_string()), "x"));
    assert!(!is_key(&None, "x"));
}

#[test]
fn groups_restrict_only_where_they_are_known() {
    let set: HashSet<u64> = [4].into_iter().collect();
    let bound = resolve(KeyLookup::Found(Some(set)));
    assert!(bound.admits(4));
    assert!(!bound.admits(5));
    assert!(resolve(KeyLookup::Found(None)).admits(5));
    assert!(resolve(KeyLookup::Failed).admits(5));
    assert!(resolve(KeyLookup::NoDatabase).admits(5));
    assert!(!AllowedCredentials(Some(HashSet::new())).admits(1));
}
