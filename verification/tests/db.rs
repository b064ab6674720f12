//! The statements for the database, run on a database in memory.

use kiro_gateway::db::api_keys;
use kiro_gateway::db::api_keys::ApiKeyRow;
use kiro_gateway::db::config::{LogMode, RequestLogConfig};
use kiro_gateway::db::groups;
use kiro_gateway::db::query;
use kiro_gateway::db::query::{ListQuery, RequestLogDetail, RequestLogSummary};
use kiro_gateway::db::recorder::{RequestRecord, RequestRecordBuilder, RequestStatus};
use kiro_gateway::db::schema;
use kiro_gateway::db::sql::{SqlValue, Statement};
use kiro_gateway::db::writer;
use kiro_gateway::db::writer::{AfterWrite, WriterState};
use rusqlite::types::Value;
use rusqlite::{Connection, OptionalExtension};

fn value(v: &SqlValue) -> Value {
    match v {
        SqlValue::Null => Value::Null,
        SqlValue::Integer(n) => Value::Integer(*n),
        SqlValue::Real(b) => Value::Real(f64::from_bits(b.bits)),
        SqlValue::Text(s) => Value::Text(s.clone()),
    }
}

fn execute(conn: &Connection, s: &Statement) -> rusqlite::Result<usize> {
    conn.execute(&s.sql, rusqlite::params_from_iter(s.params.iter().map(value)))
}

fn number(conn: &Connection, sql: &str) -> i64 {
    conn.query_row(sql, [], |r| r.get(0)).unwrap()
}

fn init(conn: &Connection) {
    conn.pragma_update(None, "foreign_keys", "ON").unwrap();
    conn.execute_batch(schema::CREATE_TABLES).unwrap();
    let missing = schema::migrations(
        number(conn, schema::COUNT_REPORTED_COLUMN),
        number(conn, schema::COUNT_DISABLED_COLUMN),
        number(conn, schema::COUNT_GROUP_COLUMN),
    );
    for sql in missing {
        conn.execute(sql, []).unwrap();
    }
}

fn open_memory() -> Connection {
    let conn = Connection::open_in_memory().unwrap();
    init(&conn);
    conn
}

fn trim_to(conn: &Connection, max_records: usize) -> usize {
    let excess = schema::excess(number(conn, schema::COUNT_RECORDS), max_records);
    if excess <= 0 {
        return 0;
    }
    conn.execute(schema::DELETE_OLDEST, [excess]).unwrap()
}

fn insert_dummy(conn: &Connection, id: &str, ts: i64) {
    conn.execute(
        "INSERT INTO requests (request_id, ts_ms, model, endpoint, status, is_stream,
         latency_ms) VALUES (?1, ?2, 'm', '/v1/messages', 'success', 0, 0)",
        (id, ts),
    )
    .unwrap();
}

fn mk_record(id_suffix: &str, status: RequestStatus) -> RequestRecord {
    let mut b =
        RequestRecordBuilder::begin("/v1/messages", "sonnet-4-6", false, 1, 0, false, 0);
    b.set_request_body(format!("{{\"id\":\"{}\"}}", id_suffix));
    if status != RequestStatus::Success {
        b.set_error("test".into(), "test".into(), "TEST".into(), "test error".into());
        b.set_response_body(format!("{{\"err\":\"{}\"}}", id_suffix));
    }
    b.build(status)
}

fn config(mode: LogMode) -> RequestLogConfig {
    RequestLogConfig { mode, ..Default::default() }
}

fn write(conn: &Connection, cfg: &RequestLogConfig, rec: &RequestRecord) {
    if let Some(statements) = writer::plan(cfg, rec) {
        for s in &statements {
            execute(conn, s).unwrap();
        }
    }
}

#[test]
fn default_mode_is_errors_only() {
    assert_eq!(LogMode::default(), LogMode::ErrorsOnly);
}

#[test]
fn should_record_when_disabled_returns_false() {
    let cfg = RequestLogConfig { enabled: false, ..Default::default() };
    assert!(!cfg.should_record(true));
    assert!(!cfg.should_record(false));
}

#[test]
fn errors_only_mode_records_only_failures() {
    let cfg = RequestLogConfig { mode: LogMode::ErrorsOnly, ..Default::default() };
    assert!(!cfg.should_record(true));
    assert!(cfg.should_record(false));
}

#[test]
fn all_mode_records_everything() {
    let cfg = RequestLogConfig { mode: LogMode::All, ..Default::default() };
    assert!(cfg.should_record(true));
    assert!(cfg.should_record(false));
}

#[test]
fn default_configuration() {
    let cfg = RequestLogConfig::default();
    assert!(cfg.enabled);
    assert_eq!(cfg.db_path, "kiro_requests.db");
    assert_eq!(cfg.max_records, 2000);
    assert!(cfg.save_request_body);
    assert!(cfg.save_response_body_on_error);
}

#[test]
fn init_is_idempotent() {
    let conn = open_memory();
    init(&conn);
    assert!(schema::migrations(1, 1, 1).is_empty());
}

#[test]
fn trim_removes_oldest_records() {
    let conn = open_memory();
    for i in 0..5 {
        insert_dummy(&conn, &format!("u{}", i), i * 1000);
    }
    let deleted = trim_to(&conn, 3);
    assert_eq!(deleted, 2);
    assert_eq!(number(&conn, schema::COUNT_RECORDS), 3);
    let ids: Vec<String> = conn
        .prepare("SELECT request_id FROM requests ORDER BY ts_ms ASC")
        .unwrap()
        .query_map([], |r| r.get(0))
        .unwrap()
        .map(|r| r.unwrap())
        .collect();
    assert_eq!(ids, vec!["u2", "u3", "u4"]);
}

#[test]
fn trim_cascades_to_errors_and_bodies() {
    let conn = open_memory();
    insert_dummy(&conn, "x", 0);
    conn.execute(
        "INSERT INTO errors (request_id, code, message) VALUES ('x', 'TestErr', 'msg')",
        [],
    )
    .unwrap();
    conn.execute(
        "INSERT INTO request_bodies (request_id, request_body) VALUES ('x', '{}')",
        [],
    )
    .unwrap();
    trim_to(&conn, 0);
    assert_eq!(number(&conn, "SELECT COUNT(*) FROM errors"), 0);
    assert_eq!(number(&conn, "SELECT COUNT(*) FROM request_bodies"), 0);
}

#[test]
fn trim_noop_when_under_limit() {
    let conn = open_memory();
    insert_dummy(&conn, "only", 0);
    assert_eq!(trim_to(&conn, 100), 0);
    assert_eq!(schema::excess(5, usize::MAX), 0);
    assert_eq!(schema::excess(0, 0), 0);
    assert_eq!(schema::excess(7, 5), 2);
}

#[test]
fn schema_has_all_allinone_aligned_columns() {
    let conn = open_memory();
    let cols: Vec<String> = conn
        .prepare("PRAGMA table_info(requests)")
        .unwrap()
        .query_map([], |r| r.get::<_, String>(1))
        .unwrap()
        .map(|r| r.unwrap())
        .collect();
    for must in &[
        "request_id", "ts_ms", "public_key_id", "client_id", "session_id",
        "model", "upstream_model", "pool_id", "account_id", "status",
        "reason", "latency_ms", "ttfb_ms", "prompt_tokens", "completion_tokens",
        "cached_tokens", "cache_creation_tokens", "cost", "error_message",
        "params_json",
    ] {
        assert!(cols.contains(&must.to_string()), "缺少列: {}", must);
    }
}

#[test]
fn writes_success_record_in_all_mode() {
    let conn = open_memory();
    write(&conn, &config(LogMode::All), &mk_record("ok", RequestStatus::Success));
    assert_eq!(number(&conn, schema::COUNT_RECORDS), 1);
}

#[test]
fn skips_success_record_in_errors_only_mode() {
    let conn = open_memory();
    let cfg = config(LogMode::ErrorsOnly);
    write(&conn, &cfg, &mk_record("ok", RequestStatus::Success));
    write(&conn, &cfg, &mk_record("bad", RequestStatus::Error));
    assert_eq!(number(&conn, schema::COUNT_RECORDS), 1);
    let status: String =
        conn.query_row("SELECT status FROM requests", [], |r| r.get(0)).unwrap();
    assert_eq!(status, "error");
}

#[test]
fn saves_error_body_when_configured() {
    let conn = open_memory();
    write(&conn, &config(LogMode::All), &mk_record("bad", RequestStatus::Error));
    let row: Option<(Option<String>, Option<String>)> = conn
        .query_row("SELECT request_body, response_body FROM request_bodies", [], |r| {
            Ok((r.get(0)?, r.get(1)?))
        })
        .optional()
        .unwrap();
    let (req, resp) = row.expect("应有 body");
    assert!(req.unwrap().contains("bad"));
    assert!(resp.unwrap().contains("bad"));
}

#[test]
fn bodies_are_kept_as_configured() {
    let ok = mk_record("ok", RequestStatus::Success);
    let bad = mk_record("bad", RequestStatus::Error);
    let mut cfg = config(LogMode::All);
    assert_eq!(writer::plan(&cfg, &ok).unwrap().len(), 2);
    assert_eq!(writer::plan(&cfg, &bad).unwrap().len(), 3);
    cfg.save_request_body = false;
    assert_eq!(writer::plan(&cfg, &ok).unwrap().len(), 1);
    let last = writer::plan(&cfg, &bad).unwrap().pop().unwrap();
    assert!(matches!(last.params[1], SqlValue::Null));
    assert!(matches!(last.params[2], SqlValue::Text(_)));
    cfg.save_response_body_on_error = false;
    assert_eq!(writer::plan(&cfg, &bad).unwrap().len(), 2);
    assert_eq!(writer::insert_record(&bad, true, &cfg).len(), 2);
    cfg.enabled = false;
    assert!(writer::plan(&cfg, &bad).is_none());
}

#[test]
fn values_stand_in_the_columns_of_their_names() {
    let conn = open_memory();
    let mut b = RequestRecordBuilder::begin("/e", "m", true, 5, 2, true, 42);
    b.set_client_identity(Some("pk".into()), Some("cl".into()), Some("se".into()));
    b.set_account("acc".into(), Some("lab".into()));
    b.set_upstream_model("up".into());
    b.set_http_status(201);
    b.set_reason("why".into());
    b.set_error("kind".into(), "stage".into(), "code".into(), "message".into());
    b.set_attempts(3);
    b.mark_ttfb_at(12);
    b.set_prompt_tokens(1);
    b.set_completion_tokens(2);
    b.set_cached_tokens(3);
    b.set_cache_creation_tokens(4);
    b.set_cache_read_reported(6);
    b.set_params_json("{}".into());
    let rec = b.build_after(RequestStatus::Cancelled, 77);
    write(&conn, &config(LogMode::All), &rec);
    let texts: Vec<String> = [
        "public_key_id", "client_id", "session_id", "model", "upstream_model", "endpoint",
        "pool_id", "account_id", "account_label", "status", "reason", "error_kind",
        "error_message", "params_json",
    ]
    .iter()
    .map(|c| {
        conn.query_row(&format!("SELECT {c} FROM requests"), [], |r| r.get(0)).unwrap()
    })
    .collect();
    assert_eq!(
        texts,
        vec![
            "pk", "cl", "se", "m", "up", "/e", "kiro", "acc", "lab", "cancelled", "why", "kind",
            "message", "{}"
        ]
    );
    let numbers: Vec<i64> = [
        "http_status", "attempts", "is_stream", "latency_ms", "ttfb_ms", "prompt_tokens",
        "completion_tokens", "cached_tokens", "cache_creation_tokens", "has_cache_control",
        "messages_count", "tools_count", "system_prompt_len", "cache_read_reported",
    ]
    .iter()
    .map(|c| number(&conn, &format!("SELECT {c} FROM requests")))
    .collect();
    assert_eq!(numbers, vec![201, 3, 1, 77, 12, 1, 2, 3, 4, 1, 5, 2, 42, 6]);
}

#[test]
fn trims_after_every_fiftieth_write() {
    let mut state = WriterState::new();
    let mut trims = 0;
    for i in 1..=120 {
        match state.finished(true) {
            AfterWrite::Trim => {
                trims += 1;
                assert_eq!(i % 50, 0);
            }
            other => assert_eq!(other, AfterWrite::Continue),
        }
        assert_eq!(state.finished(false), AfterWrite::Pause);
    }
    assert_eq!(trims, 2);
}

fn listed(conn: &Connection, q: &ListQuery) -> Vec<String> {
    let s = query::list(q);
    let mut stmt = conn.prepare(&s.sql).unwrap();
    let rows = stmt
        .query_map(rusqlite::params_from_iter(s.params.iter().map(value)), |r| r.get(0))
        .unwrap();
    rows.map(|r| r.unwrap()).collect()
}

fn counted(conn: &Connection, q: &ListQuery) -> i64 {
    let s = query::count(q);
    conn.query_row(&s.sql, rusqlite::params_from_iter(s.params.iter().map(value)), |r| r.get(0))
        .unwrap()
}

#[test]
fn lists_the_newest_first() {
    let conn = open_memory();
    for i in 0..4 {
        insert_dummy(&conn, &format!("u{}", i), i * 1000);
    }
    conn.execute("UPDATE requests SET account_id = 'a' WHERE request_id IN ('u1', 'u2')", [])
        .unwrap();
    conn.execute("UPDATE requests SET status = 'error' WHERE request_id = 'u2'", []).unwrap();
    let mut q = ListQuery { limit: 2, offset: 1, ..Default::default() };
    assert_eq!(listed(&conn, &q), vec!["u2", "u1"]);
    assert_eq!(counted(&conn, &q), 4);
    q.account_id = Some("a".to_string());
    assert_eq!(listed(&conn, &q), vec!["u1"]);
    assert_eq!(counted(&conn, &q), 2);
    q.status = Some("error".to_string());
    q.offset = 0;
    assert_eq!(listed(&conn, &q), vec!["u2"]);
    assert_eq!(counted(&conn, &q), 1);
    q.account_id = None;
    assert_eq!(counted(&conn, &q), 1);
}

#[test]
fn query_text() {
    let q = ListQuery {
        limit: 7,
        offset: 3,
        status: Some("error".to_string()),
        account_id: Some("a".to_string()),
    };
    let s = query::count(&q);
    assert_eq!(s.sql, "SELECT COUNT(*) FROM requests WHERE status = ? AND account_id = ?");
    assert_eq!(s.params.len(), 2);
    let s = query::list(&q);
    assert!(s.sql.ends_with(
        "FROM requests WHERE status = ? AND account_id = ? ORDER BY ts_ms DESC LIMIT ? OFFSET ?"
    ));
    assert!(matches!(s.params[2], SqlValue::Integer(7)));
    assert!(matches!(s.params[3], SqlValue::Integer(3)));
}

fn detail() -> RequestLogDetail {
    RequestLogDetail {
        summary: RequestLogSummary {
            request_id: "r".to_string(),
            ts_ms: 0,
            model: "m".to_string(),
            upstream_model: None,
            endpoint: "/e".to_string(),
            account_id: None,
            account_label: None,
            status: "error".to_string(),
            http_status: None,
            error_kind: None,
            reason: None,
            attempts: 1,
            is_stream: query::is_set(0),
            latency_ms: 0,
            ttfb_ms: None,
            prompt_tokens: None,
            completion_tokens: None,
            cached_tokens: None,
            metering_unit: None,
            metering_usage: None,
            context_usage_pct: None,
        },
        messages_count: None,
        tools_count: None,
        system_prompt_len: None,
        has_cache_control: query::optional_is_set(Some(2)),
        error_message: None,
        error_stage: None,
        request_body: None,
        response_body: None,
    }
}

#[test]
fn details_are_put_together() {
    assert!(query::assemble(None, Some(Some("s".to_string())), None).is_none());
    let d = query::assemble(
        Some(detail()),
        Some(Some("upstream".to_string())),
        Some((Some("q".to_string()), None)),
    )
    .unwrap();
    assert_eq!(d.error_stage.as_deref(), Some("upstream"));
    assert_eq!(d.request_body.as_deref(), Some("q"));
    assert_eq!(d.response_body, None);
    assert_eq!(d.has_cache_control, Some(true));
    assert!(!d.summary.is_stream);
    let d = query::assemble(Some(detail()), Some(None), None).unwrap();
    assert_eq!(d.error_stage, None);
    assert_eq!(query::optional_is_set(None), None);
}

#[test]
fn detail_statements_run() {
    let conn = open_memory();
    write(&conn, &config(LogMode::All), &mk_record("bad", RequestStatus::Error));
    let id: String =
        conn.query_row("SELECT request_id FROM requests", [], |r| r.get(0)).unwrap();
    let message: String =
        conn.query_row(query::SELECT_DETAIL, [&id], |r| r.get(24)).unwrap();
    assert_eq!(message, "test error");
    let stage: Option<String> =
        conn.query_row(query::SELECT_STAGE, [&id], |r| r.get(0)).unwrap();
    assert_eq!(stage.as_deref(), Some("test"));
    let body: Option<String> =
        conn.query_row(query::SELECT_BODIES, [&id], |r| r.get(1)).unwrap();
    assert!(body.unwrap().contains("bad"));
}

fn add_key(conn: &Connection, key: &str, label: Option<&str>) -> rusqlite::Result<i64> {
    execute(conn, &api_keys::insert(key, &label.map(|l| l.to_string()), 1))?;
    Ok(conn.last_insert_rowid())
}

fn key_rows(conn: &Connection) -> Vec<ApiKeyRow> {
    let mut stmt = conn.prepare(api_keys::SELECT_KEYS).unwrap();
    let rows = stmt
        .query_map([], |r| {
            Ok(ApiKeyRow {
                id: r.get(0)?,
                key: r.get(1)?,
                label: r.get(2)?,
                created_at: r.get(3)?,
                disabled: query::is_set(r.get(4)?),
                group_id: r.get(5)?,
            })
        })
        .unwrap();
    rows.map(|r| r.unwrap()).collect()
}

#[test]
fn empty_list_when_fresh() {
    let conn = open_memory();
    assert!(key_rows(&conn).is_empty());
    assert_eq!(number(&conn, api_keys::COUNT_KEYS), 0);
}

#[test]
fn add_then_list() {
    let conn = open_memory();
    add_key(&conn, "sk-a", Some("first")).unwrap();
    add_key(&conn, "sk-b", None).unwrap();
    let rows = key_rows(&conn);
    assert_eq!(rows.len(), 2);
    assert_eq!(rows[0].key, "sk-a");
    assert_eq!(rows[0].label.as_deref(), Some("first"));
    assert_eq!(rows[1].key, "sk-b");
    assert_eq!(api_keys::list_keys(&rows), vec!["sk-a", "sk-b"]);
}

#[test]
fn duplicate_key_errors() {
    let conn = open_memory();
    add_key(&conn, "dup", None).unwrap();
    assert!(add_key(&conn, "dup", None).is_err());
}

#[test]
fn delete_removes_row() {
    let conn = open_memory();
    let id = add_key(&conn, "sk-x", None).unwrap();
    assert_eq!(execute(&conn, &api_keys::delete(id)).unwrap(), 1);
    assert!(key_rows(&conn).is_empty());
}

#[test]
fn set_disabled_filters_from_list_keys() {
    let conn = open_memory();
    let id_a = add_key(&conn, "sk-a", None).unwrap();
    add_key(&conn, "sk-b", None).unwrap();
    assert_eq!(api_keys::list_keys(&key_rows(&conn)), vec!["sk-a", "sk-b"]);
    assert_eq!(execute(&conn, &api_keys::set_disabled(id_a, true)).unwrap(), 1);
    assert_eq!(api_keys::list_keys(&key_rows(&conn)), vec!["sk-b"]);
    let rows = key_rows(&conn);
    assert_eq!(rows.len(), 2);
    assert!(rows.iter().find(|r| r.id == id_a).unwrap().disabled);
    assert_eq!(execute(&conn, &api_keys::set_disabled(id_a, false)).unwrap(), 1);
    assert_eq!(api_keys::list_keys(&key_rows(&conn)), vec!["sk-a", "sk-b"]);
}

#[test]
fn keys_survive_request_trim() {
    let conn = open_memory();
    add_key(&conn, "keep", None).unwrap();
    trim_to(&conn, 0);
    assert_eq!(api_keys::list_keys(&key_rows(&conn)), vec!["keep"]);
}

fn add_group(conn: &Connection, name: &str) -> rusqlite::Result<i64> {
    execute(conn, &groups::insert(name, 1))?;
    Ok(conn.last_insert_rowid())
}

fn group_names(conn: &Connection) -> Vec<String> {
    let mut stmt = conn.prepare(groups::SELECT_GROUPS).unwrap();
    let rows = stmt.query_map([], |r| r.get(1)).unwrap();
    rows.map(|r| r.unwrap()).collect()
}

fn delete_group(conn: &Connection, id: i64) -> usize {
    let mut removed = 0;
    for s in &groups::delete(id) {
        removed = execute(conn, s).unwrap();
    }
    removed
}

fn assign(conn: &Connection, credential: i64, group: Option<i64>) {
    execute(conn, &groups::set_credential_group(credential, group, 1)).unwrap();
}

fn members(conn: &Connection, group: i64) -> Vec<i64> {
    let mut stmt = conn.prepare(groups::SELECT_MEMBERS).unwrap();
    let rows = stmt.query_map([group], |r| r.get(0)).unwrap();
    rows.map(|r| r.unwrap()).collect()
}

fn group_of_key(conn: &Connection, key: &str) -> Option<i64> {
    let row: Option<Option<i64>> =
        conn.query_row(groups::SELECT_KEY_GROUP, [key], |r| r.get(0)).optional().unwrap();
    groups::group_id_for_key(row)
}

#[test]
fn add_list_rename_delete() {
    let conn = open_memory();
    let g1 = add_group(&conn, "team-a").unwrap();
    let g2 = add_group(&conn, "team-b").unwrap();
    assert_eq!(group_names(&conn), vec!["team-a", "team-b"]);
    assert_eq!(execute(&conn, &groups::rename(g1, "team-a2")).unwrap(), 1);
    assert_eq!(group_names(&conn)[0], "team-a2");
    assert_eq!(delete_group(&conn, g2), 1);
    assert_eq!(group_names(&conn).len(), 1);
}

#[test]
fn duplicate_group_name_errors() {
    let conn = open_memory();
    add_group(&conn, "dup").unwrap();
    assert!(add_group(&conn, "dup").is_err());
}

#[test]
fn credential_group_assignment_is_upsert() {
    let conn = open_memory();
    let g1 = add_group(&conn, "g1").unwrap();
    let g2 = add_group(&conn, "g2").unwrap();
    assign(&conn, 5, Some(g1));
    assert_eq!(members(&conn, g1), vec![5]);
    assign(&conn, 5, Some(g2));
    assert!(members(&conn, g1).is_empty());
    assert_eq!(members(&conn, g2), vec![5]);
    assign(&conn, 5, None);
    assert!(members(&conn, g2).is_empty());
}

#[test]
fn delete_group_cascades_credentials_and_unbinds_keys() {
    let conn = open_memory();
    let g = add_group(&conn, "g").unwrap();
    assign(&conn, 1, Some(g));
    assign(&conn, 2, Some(g));
    let kid = add_key(&conn, "sk-x", None).unwrap();
    execute(&conn, &groups::set_key_group(kid, Some(g))).unwrap();
    assert_eq!(group_of_key(&conn, "sk-x"), Some(g));
    assert_eq!(key_rows(&conn)[0].group_id, Some(g));
    assert_eq!(delete_group(&conn, g), 1);
    assert!(members(&conn, g).is_empty());
    assert_eq!(group_of_key(&conn, "sk-x"), None);
}

#[test]
fn group_id_for_key_respects_disabled_and_missing() {
    let conn = open_memory();
    let g = add_group(&conn, "g").unwrap();
    let kid = add_key(&conn, "sk-a", None).unwrap();
    execute(&conn, &groups::set_key_group(kid, Some(g))).unwrap();
    assert_eq!(group_of_key(&conn, "sk-a"), Some(g));
    add_key(&conn, "sk-b", None).unwrap();
    assert_eq!(group_of_key(&conn, "sk-b"), None);
    assert_eq!(group_of_key(&conn, "nope"), None);
    execute(&conn, &api_keys::set_disabled(kid, true)).unwrap();
    assert_eq!(group_of_key(&conn, "sk-a"), None);
}

#[test]
fn credential_group_map_returns_all() {
    let conn = open_memory();
    let g1 = add_group(&conn, "g1").unwrap();
    let g2 = add_group(&conn, "g2").unwrap();
    assign(&conn, 1, Some(g1));
    assign(&conn, 2, Some(g1));
    assign(&conn, 3, Some(g2));
    let mut stmt = conn.prepare(groups::SELECT_ASSIGNMENTS).unwrap();
    let mut map: Vec<(i64, i64)> = stmt
        .query_map([], |r| Ok((r.get(0)?, r.get(1)?)))
        .unwrap()
        .map(|r| r.unwrap())
        .collect();
    map.sort();
    assert_eq!(map, vec![(1, g1), (2, g1), (3, g2)]);
}

#[test]
fn keys_may_use_the_credentials_of_their_group() {
    assert!(groups::allowed_credential_ids(None, &vec![1]).is_none());
    let none = groups::allowed_credential_ids(Some(4), &vec![]).unwrap();
    assert!(none.is_empty());
    let set = groups::allowed_credential_ids(Some(4), &vec![1, 2, 2]).unwrap();
    assert_eq!(set.len(), 2);
    assert!(set.contains(&1) && set.contains(&2));
}
