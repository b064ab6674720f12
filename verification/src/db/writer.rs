//! Decisions of the task that writes the request log: which records are written, as which
//! statements, and when old records are removed.

use vstd::prelude::*;
use vstd::string::*;

use crate::db::config::RequestLogConfig;
use crate::db::recorder::{RequestRecord, RequestStatus};
use crate::db::sql;
use crate::db::sql::{SqlView, Statement, StatementView};

verus! {

/// Old records are removed each time that so many have been written.
pub const TRIM_EVERY: usize = 50;

/// How long the task rests after a record that could not be written, in milliseconds.
pub const PAUSE_MS: u64 = 50;

/// Writes a record.
pub const INSERT_REQUEST: &'static str = "INSERT OR REPLACE INTO requests (
            request_id, ts_ms,
            public_key_id, client_id, session_id,
            model, upstream_model,
            endpoint, pool_id, account_id, account_label,
            status, http_status, reason, error_kind, error_message,
            attempts, is_stream,
            latency_ms, ttfb_ms,
            prompt_tokens, completion_tokens, cached_tokens, cache_creation_tokens, cost,
            metering_unit, metering_usage, context_usage_pct,
            has_cache_control, messages_count, tools_count, system_prompt_len,
            params_json,
            cache_read_reported
        ) VALUES (
            ?1, ?2,
            ?3, ?4, ?5,
            ?6, ?7,
            ?8, ?9, ?10, ?11,
            ?12, ?13, ?14, ?15, ?16,
            ?17, ?18,
            ?19, ?20,
            ?21, ?22, ?23, ?24, ?25,
            ?26, ?27, ?28,
            ?29, ?30, ?31, ?32,
            ?33,
            ?34
        )";

/// Writes the error of a record.
pub const INSERT_ERROR: &'static str =
    "INSERT OR REPLACE INTO errors (request_id, stage, code, message)
             VALUES (?1, ?2, ?3, ?4)";

/// Writes the bodies of a record.
pub const INSERT_BODIES: &'static str =
    "INSERT OR REPLACE INTO request_bodies (request_id, request_body, response_body)
                 VALUES (?1, ?2, ?3)";

/// The columns that say which request it was.
pub open spec fn identity_columns(rec: RequestRecord) -> Seq<SqlView> {
    seq![
        SqlView::Text(rec.request_id@),
        SqlView::Integer(rec.ts_ms as int),
        sql::optional_text(rec.public_key_id),
        sql::optional_text(rec.client_id),
        sql::optional_text(rec.session_id),
        SqlView::Text(rec.model@),
        sql::optional_text(rec.upstream_model),
        SqlView::Text(rec.endpoint@),
        SqlView::Text(rec.pool_id@),
        sql::optional_text(rec.account_id),
        sql::optional_text(rec.account_label),
    ]
}

/// The columns that say how it ended.
pub open spec fn outcome_columns(rec: RequestRecord) -> Seq<SqlView> {
    seq![
        SqlView::Text(rec.status.name()),
        match rec.http_status {
            Some(status) => SqlView::Integer(status as int),
            None => SqlView::Null,
        },
        sql::optional_text(rec.reason),
        sql::optional_text(rec.error_kind),
        sql::optional_text(rec.error_message),
        SqlView::Integer(rec.attempts as int),
        sql::truth(rec.is_stream),
        SqlView::Integer(rec.latency_ms as int),
        sql::optional_i64(rec.ttfb_ms),
    ]
}

/// The columns that say what it used.
pub open spec fn usage_columns(rec: RequestRecord) -> Seq<SqlView> {
    seq![
        sql::optional_i32(rec.prompt_tokens),
        sql::optional_i32(rec.completion_tokens),
        sql::optional_i32(rec.cached_tokens),
        sql::optional_i32(rec.cache_creation_tokens),
        sql::optional_real(rec.cost),
        sql::optional_text(rec.metering_unit),
        sql::optional_real(rec.metering_usage),
        sql::optional_real(rec.context_usage_pct),
        sql::truth(rec.has_cache_control),
        SqlView::Integer(rec.messages_count as int),
        SqlView::Integer(rec.tools_count as int),
        SqlView::Integer(rec.system_prompt_len as int),
        sql::optional_text(rec.params_json),
        sql::optional_i32(rec.cache_read_reported),
    ]
}

/// The statement that writes a record.
pub open spec fn request_statement(rec: RequestRecord) -> StatementView {
    StatementView {
        sql: INSERT_REQUEST@,
        params: identity_columns(rec) + outcome_columns(rec) + usage_columns(rec),
    }
}

/// The statements that write the error of a record: one where there is an error.
pub open spec fn error_statements(rec: RequestRecord) -> Seq<StatementView> {
    match rec.error_detail {
        Some(e) => seq![
            StatementView {
                sql: INSERT_ERROR@,
                params: seq![
                    SqlView::Text(rec.request_id@),
                    SqlView::Text(e.stage@),
                    SqlView::Text(e.code@),
                    SqlView::Text(e.message@),
                ],
            },
        ],
        None => Seq::empty(),
    }
}

/// The body of the request, as far as it is kept.
pub open spec fn kept_request_body(rec: RequestRecord, cfg: RequestLogConfig) -> Option<String> {
    if cfg.save_request_body {
        rec.request_body
    } else {
        None
    }
}

/// The body of the response, as far as it is kept: only where the request did not succeed.
pub open spec fn kept_response_body(rec: RequestRecord, cfg: RequestLogConfig) -> Option<String> {
    if cfg.save_response_body_on_error && rec.status != RequestStatus::Success {
        rec.response_body
    } else {
        None
    }
}

/// The statements that write the bodies of a record: one where a body is kept.
pub open spec fn body_statements(
    rec: RequestRecord,
    save_body: bool,
    cfg: RequestLogConfig,
) -> Seq<StatementView> {
    let request = kept_request_body(rec, cfg);
    let response = kept_response_body(rec, cfg);
    if save_body && (request is Some || response is Some) {
        seq![
            StatementView {
                sql: INSERT_BODIES@,
                params: seq![
                    SqlView::Text(rec.request_id@),
                    sql::optional_text(request),
                    sql::optional_text(response),
                ],
            },
        ]
    } else {
        Seq::empty()
    }
}

/// The statements that write a record with its error and its bodies.
pub open spec fn insert_statements(
    rec: RequestRecord,
    save_body: bool,
    cfg: RequestLogConfig,
) -> Seq<StatementView> {
    seq![request_statement(rec)] + error_statements(rec) + body_statements(rec, save_body, cfg)
}

/// Appends the columns that say which request it was.
fn push_identity(s: &mut Statement, rec: &RequestRecord)
    ensures
        final(s)@ == (StatementView {
            sql: old(s)@.sql,
            params: old(s)@.params + identity_columns(*rec),
        }),
{
    s.push_text(rec.request_id.as_str());
    s.push_integer(rec.ts_ms);
    s.push_optional_text(&rec.public_key_id);
    s.push_optional_text(&rec.client_id);
    s.push_optional_text(&rec.session_id);
    s.push_text(rec.model.as_str());
    s.push_optional_text(&rec.upstream_model);
    s.push_text(rec.endpoint.as_str());
    s.push_text(rec.pool_id.as_str());
    s.push_optional_text(&rec.account_id);
    s.push_optional_text(&rec.account_label);
    proof {
        assert(s@.params =~= old(s)@.params + identity_columns(*rec));
    }
}

/// Appends the columns that say how it ended.
fn push_outcome(s: &mut Statement, rec: &RequestRecord)
    ensures
        final(s)@ == (StatementView {
            sql: old(s)@.sql,
            params: old(s)@.params + outcome_columns(*rec),
        }),
{
    s.push_text(rec.status.as_str());
    let http_status: Option<i64> = match rec.http_status {
        Some(status) => Some(status as i64),
        None => None,
    };
    s.push_optional_i64(http_status);
    s.push_optional_text(&rec.reason);
    s.push_optional_text(&rec.error_kind);
    s.push_optional_text(&rec.error_message);
    s.push_integer(rec.attempts as i64);
    s.push_truth(rec.is_stream);
    s.push_integer(rec.latency_ms);
    s.push_optional_i64(rec.ttfb_ms);
    proof {
        assert(s@.params =~= old(s)@.params + outcome_columns(*rec));
    }
}

/// Appends the columns that say what it used.
fn push_usage(s: &mut Statement, rec: &RequestRecord)
    ensures
        final(s)@ == (StatementView {
            sql: old(s)@.sql,
            params: old(s)@.params + usage_columns(*rec),
        }),
{
    s.push_optional_i32(rec.prompt_tokens);
    s.push_optional_i32(rec.completion_tokens);
    s.push_optional_i32(rec.cached_tokens);
    s.push_optional_i32(rec.cache_creation_tokens);
    s.push_optional_real(rec.cost);
    s.push_optional_text(&rec.metering_unit);
    s.push_optional_real(rec.metering_usage);
    s.push_optional_real(rec.context_usage_pct);
    s.push_truth(rec.has_cache_control);
    s.push_integer(rec.messages_count as i64);
    s.push_integer(rec.tools_count as i64);
    s.push_integer(rec.system_prompt_len as i64);
    s.push_optional_text(&rec.params_json);
    s.push_optional_i32(rec.cache_read_reported);
    proof {
        assert(s@.params =~= old(s)@.params + usage_columns(*rec));
    }
}

/// The statement that writes a record.
fn insert_request(rec: &RequestRecord) -> (r: Statement)
    ensures
        r@ == request_statement(*rec),
{
    let mut s = sql::statement(INSERT_REQUEST);
    push_identity(&mut s, rec);
    push_outcome(&mut s, rec);
    push_usage(&mut s, rec);
    proof {
        assert(s@.params =~= request_statement(*rec).params);
    }
    s
}

/// A body, where it is kept.
fn keep_if(kept: bool, body: &Option<String>) -> (r: Option<String>)
    ensures
        r == (if kept {
            *body
        } else {
            None
        }),
{
    if kept {
        match body {
            Some(s) => Some(s.clone()),
            None => None,
        }
    } else {
        None
    }
}

/// The statements that write a record, all to be executed or none: the record itself, its error
/// and its bodies.
pub fn insert_record(rec: &RequestRecord, save_body: bool, cfg: &RequestLogConfig) -> (r: Vec<
    Statement,
>)
    ensures
        sql::statement_views(r@) == insert_statements(*rec, save_body, *cfg),
{
    let mut out: Vec<Statement> = Vec::new();
    out.push(insert_request(rec));
    if let Some(e) = &rec.error_detail {
        let mut s = sql::statement(INSERT_ERROR);
        s.push_text(rec.request_id.as_str());
        s.push_text(e.stage.as_str());
        s.push_text(e.code.as_str());
        s.push_text(e.message.as_str());
        proof {
            assert(s@.params =~= error_statements(*rec)[0].params);
        }
        out.push(s);
    }
    proof {
        assert(sql::statement_views(out@) =~= seq![request_statement(*rec)] + error_statements(
            *rec,
        ));
    }
    if save_body {
        let request = keep_if(cfg.save_request_body, &rec.request_body);
        let response = keep_if(
            cfg.save_response_body_on_error && rec.status != RequestStatus::Success,
            &rec.response_body,
        );
        if request.is_some() || response.is_some() {
            let mut s = sql::statement(INSERT_BODIES);
            s.push_text(rec.request_id.as_str());
            s.push_optional_text(&request);
            s.push_optional_text(&response);
            proof {
                assert(s@.params =~= body_statements(*rec, save_body, *cfg)[0].params);
            }
            out.push(s);
        }
    }
    proof {
        assert(sql::statement_views(out@) =~= insert_statements(*rec, save_body, *cfg));
    }
    out
}

/// Bodies are kept for a record that succeeded, or failed.
pub open spec fn saves_bodies(cfg: RequestLogConfig, success: bool) -> bool {
    cfg.save_request_body || (cfg.save_response_body_on_error && !success)
}

/// The statements that write a record, `None` where it is not to be written.
pub open spec fn plan_model(cfg: RequestLogConfig, rec: RequestRecord) -> Option<
    Seq<StatementView>,
> {
    let success = rec.status == RequestStatus::Success;
    if cfg.records(success) {
        Some(insert_statements(rec, saves_bodies(cfg, success), cfg))
    } else {
        None
    }
}

/// What is to be done about a record: the statements that write it, or `None` where it is not to
/// be written.
pub fn plan(cfg: &RequestLogConfig, rec: &RequestRecord) -> (r: Option<Vec<Statement>>)
    ensures
        match r {
            Some(statements) => plan_model(*cfg, *rec) == Some(
                sql::statement_views(statements@),
            ),
            None => plan_model(*cfg, *rec) is None,
        },
{
    let success: bool = rec.status == RequestStatus::Success;
    if !cfg.should_record(success) {
        return None;
    }
    let save_body: bool = cfg.save_request_body || (cfg.save_response_body_on_error && !success);
    Some(insert_record(rec, save_body, cfg))
}

/// What follows an attempt to write a record.
#[derive(Debug, Clone, Copy, PartialEq, Eq, Structural)]
pub enum AfterWrite {
    /// The next record.
    Continue,
    /// Old records are to be removed.
    Trim,
    /// A rest before the next record.
    Pause,
}

/// How many records have been written since old ones were last removed.
#[derive(Debug, Clone, Copy)]
pub struct WriterState {
    pub written_since_trim: usize,
}

impl WriterState {
    /// The count is below the one at which old records are removed.
    pub open spec fn wf(self) -> bool {
        self.written_since_trim < TRIM_EVERY
    }

    /// Nothing has been written.
    pub fn new() -> (r: Self)
        ensures
            r.wf(),
            r.written_since_trim == 0,
    {
        WriterState { written_since_trim: 0 }
    }

    /// The state and what follows, after a record was written, or could not be.
    pub open spec fn after(self, written: bool) -> (WriterState, AfterWrite) {
        if !written {
            (self, AfterWrite::Pause)
        } else if self.written_since_trim + 1 >= TRIM_EVERY {
            (WriterState { written_since_trim: 0 }, AfterWrite::Trim)
        } else {
            (
                WriterState { written_since_trim: (self.written_since_trim + 1) as usize },
                AfterWrite::Continue,
            )
        }
    }

    /// Takes note that a record was written, or could not be, and says what follows.
    pub fn finished(&mut self, written: bool) -> (r: AfterWrite)
        requires
            old(self).wf(),
        ensures
            final(self).wf(),
            (*final(self), r) == old(self).after(written),
    {
        if written {
            self.written_since_trim = self.written_since_trim + 1;
            if self.written_since_trim >= TRIM_EVERY {
                self.written_since_trim = 0;
                AfterWrite::Trim
            } else {
                AfterWrite::Continue
            }
        } else {
            AfterWrite::Pause
        }
    }
}

/// How many of the attempts wrote their record.
pub open spec fn written_count(attempts: Seq<bool>) -> nat
    decreases attempts.len(),
{
    if attempts.len() == 0 {
        0
    } else {
        written_count(attempts.drop_last()) + if attempts.last() {
            1nat
        } else {
            0
        }
    }
}

/// The state after a run of attempts that starts with nothing written, and how many times old
/// records were removed in it.
pub open spec fn run(attempts: Seq<bool>) -> (WriterState, nat)
    decreases attempts.len(),
{
    if attempts.len() == 0 {
        (WriterState { written_since_trim: 0 }, 0)
    } else {
        let (state, trims) = run(attempts.drop_last());
        let (next, action) = state.after(attempts.last());
        (
            next,
            trims + if action == AfterWrite::Trim {
                1nat
            } else {
                0
            },
        )
    }
}

/// Old records are removed exactly once for each fifty records that were written, whatever
/// attempts failed in between.
pub proof fn trims_once_in_fifty(attempts: Seq<bool>)
    ensures
        run(attempts).0.wf(),
        written_count(attempts) == TRIM_EVERY * run(attempts).1 + run(attempts).0.written_since_trim,
        run(attempts).1 == written_count(attempts) / 50,
    decreases attempts.len(),
{
    if attempts.len() > 0 {
        trims_once_in_fifty(attempts.drop_last());
    }
}

/// The row of a record has its values in the order of the columns: which request it was.
pub proof fn rows_say_which_request_it_was(rec: RequestRecord)
    ensures
        ({
            let row = request_statement(rec).params;
            &&& row.len() == 34
            &&& row[0] == SqlView::Text(rec.request_id@)
            &&& row[1] == SqlView::Integer(rec.ts_ms as int)
            &&& row[5] == SqlView::Text(rec.model@)
            &&& row[7] == SqlView::Text(rec.endpoint@)
            &&& row[8] == SqlView::Text(rec.pool_id@)
            &&& rec.public_key_id matches Some(s) ==> row[2] == SqlView::Text(s@)
            &&& rec.public_key_id is None ==> row[2] is Null
            &&& rec.client_id matches Some(s) ==> row[3] == SqlView::Text(s@)
            &&& rec.client_id is None ==> row[3] is Null
            &&& rec.session_id matches Some(s) ==> row[4] == SqlView::Text(s@)
            &&& rec.session_id is None ==> row[4] is Null
            &&& rec.upstream_model matches Some(s) ==> row[6] == SqlView::Text(s@)
            &&& rec.upstream_model is None ==> row[6] is Null
            &&& rec.account_id matches Some(s) ==> row[9] == SqlView::Text(s@)
            &&& rec.account_id is None ==> row[9] is Null
            &&& rec.account_label matches Some(s) ==> row[10] == SqlView::Text(s@)
            &&& rec.account_label is None ==> row[10] is Null
        }),
{
}

/// The row of a record says how the request ended.
pub proof fn rows_say_how_it_ended(rec: RequestRecord)
    ensures
        ({
            let row = request_statement(rec).params;
            &&& rec.status is Success ==> row[11] == SqlView::Text("success"@)
            &&& rec.status is Error ==> row[11] == SqlView::Text("error"@)
            &&& rec.status is Cancelled ==> row[11] == SqlView::Text("cancelled"@)
            &&& rec.http_status matches Some(n) ==> row[12] == SqlView::Integer(n as int)
            &&& rec.http_status is None ==> row[12] is Null
            &&& rec.reason matches Some(s) ==> row[13] == SqlView::Text(s@)
            &&& rec.reason is None ==> row[13] is Null
            &&& rec.error_kind matches Some(s) ==> row[14] == SqlView::Text(s@)
            &&& rec.error_kind is None ==> row[14] is Null
            &&& rec.error_message matches Some(s) ==> row[15] == SqlView::Text(s@)
            &&& rec.error_message is None ==> row[15] is Null
            &&& row[16] == SqlView::Integer(rec.attempts as int)
            &&& rec.is_stream ==> row[17] == SqlView::Integer(1)
            &&& !rec.is_stream ==> row[17] == SqlView::Integer(0)
            &&& row[18] == SqlView::Integer(rec.latency_ms as int)
            &&& rec.ttfb_ms matches Some(n) ==> row[19] == SqlView::Integer(n as int)
            &&& rec.ttfb_ms is None ==> row[19] is Null
        }),
{
}

/// The row of a record says what the request used: a count that is not known is not 0 but missing.
pub proof fn rows_say_what_was_used(rec: RequestRecord)
    ensures
        ({
            let row = request_statement(rec).params;
            &&& rec.prompt_tokens matches Some(n) ==> row[20] == SqlView::Integer(n as int)
            &&& rec.prompt_tokens is None ==> row[20] is Null
            &&& rec.completion_tokens matches Some(n) ==> row[21] == SqlView::Integer(n as int)
            &&& rec.completion_tokens is None ==> row[21] is Null
            &&& rec.cached_tokens matches Some(n) ==> row[22] == SqlView::Integer(n as int)
            &&& rec.cached_tokens is None ==> row[22] is Null
            &&& rec.cache_creation_tokens matches Some(n) ==> row[23] == SqlView::Integer(n as int)
            &&& rec.cache_creation_tokens is None ==> row[23] is Null
            &&& rec.cost matches Some(b) ==> row[24] == SqlView::Real(b)
            &&& rec.cost is None ==> row[24] is Null
            &&& rec.metering_unit matches Some(s) ==> row[25] == SqlView::Text(s@)
            &&& rec.metering_unit is None ==> row[25] is Null
            &&& rec.metering_usage matches Some(b) ==> row[26] == SqlView::Real(b)
            &&& rec.metering_usage is None ==> row[26] is Null
            &&& rec.context_usage_pct matches Some(b) ==> row[27] == SqlView::Real(b)
            &&& rec.context_usage_pct is None ==> row[27] is Null
            &&& rec.has_cache_control ==> row[28] == SqlView::Integer(1)
            &&& !rec.has_cache_control ==> row[28] == SqlView::Integer(0)
            &&& row[29] == SqlView::Integer(rec.messages_count as int)
            &&& row[30] == SqlView::Integer(rec.tools_count as int)
            &&& row[31] == SqlView::Integer(rec.system_prompt_len as int)
            &&& rec.params_json matches Some(s) ==> row[32] == SqlView::Text(s@)
            &&& rec.params_json is None ==> row[32] is Null
            &&& rec.cache_read_reported matches Some(n) ==> row[33] == SqlView::Integer(n as int)
            &&& rec.cache_read_reported is None ==> row[33] is Null
        }),
{
}

/// Which requests are written, and what of them: all where the log keeps all, and else those that
/// did not succeed; none where there is no log. The row comes first, then the error where there is
/// one.
pub proof fn failures_are_always_written(cfg: RequestLogConfig, rec: RequestRecord)
    ensures
        !cfg.enabled ==> plan_model(cfg, rec) is None,
        cfg.enabled && !(rec.status is Success) ==> plan_model(cfg, rec) is Some,
        cfg.enabled && rec.status is Success ==> (plan_model(cfg, rec) is Some <==> cfg.mode is All),
        plan_model(cfg, rec) matches Some(statements) ==> {
            &&& statements.len() > 0
            &&& statements[0] == request_statement(rec)
            &&& rec.error_detail matches Some(e) ==> {
                &&& statements.len() > 1
                &&& statements[1].sql == INSERT_ERROR@
                &&& statements[1].params == seq![
                    SqlView::Text(rec.request_id@),
                    SqlView::Text(e.stage@),
                    SqlView::Text(e.code@),
                    SqlView::Text(e.message@),
                ]
            }
        },
{
}

/// Which bodies are written: that of the request where requests are kept, and that of the response
/// where those of failures are kept and the request did not succeed. Where there is neither, no
/// statement writes bodies.
pub proof fn bodies_are_written_as_configured(cfg: RequestLogConfig, rec: RequestRecord)
    requires
        plan_model(cfg, rec) is Some,
    ensures
        ({
            let statements = plan_model(cfg, rec)->0;
            let rows = if rec.error_detail is Some {
                2int
            } else {
                1
            };
            let request = if cfg.save_request_body {
                rec.request_body
            } else {
                None
            };
            let response = if cfg.save_response_body_on_error && !(rec.status is Success) {
                rec.response_body
            } else {
                None
            };
            &&& request is None && response is None ==> statements.len() == rows
            &&& request is Some || response is Some ==> {
                &&& statements.len() == rows + 1
                &&& statements[rows].sql == INSERT_BODIES@
                &&& statements[rows].params.len() == 3
                &&& statements[rows].params[0] == SqlView::Text(rec.request_id@)
                &&& request matches Some(s) ==> statements[rows].params[1] == SqlView::Text(s@)
                &&& request is None ==> statements[rows].params[1] is Null
                &&& response matches Some(s) ==> statements[rows].params[2] == SqlView::Text(s@)
                &&& response is None ==> statements[rows].params[2] is Null
            }
        }),
{
}

/// A record that could not be written is followed by a rest and counts for nothing.
pub proof fn failed_writes_rest(state: WriterState, written: bool)
    requires
        state.wf(),
    ensures
        !written ==> state.after(written).0 == state && state.after(written).1 is Pause,
        written && state.written_since_trim < 49 ==> state.after(written).1 is Continue
            && state.after(written).0.written_since_trim == state.written_since_trim + 1,
        written && state.written_since_trim == 49 ==> state.after(written).1 is Trim
            && state.after(written).0.written_since_trim == 0,
{
}

} // verus!
