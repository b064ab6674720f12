//! Queries of the request log.

use vstd::prelude::*;
use vstd::string::*;

use crate::db::sql;
use crate::db::sql::{SqlView, Statement, StatementView};
use crate::float_bits::FloatBits;

verus! {

/// A request as it is listed.
#[derive(Debug, Clone)]
pub struct RequestLogSummary {
    pub request_id: String,
    pub ts_ms: i64,
    pub model: String,
    pub upstream_model: Option<String>,
    pub endpoint: String,
    pub account_id: Option<String>,
    pub account_label: Option<String>,
    pub status: String,
    pub http_status: Option<i64>,
    pub error_kind: Option<String>,
    pub reason: Option<String>,
    pub attempts: i32,
    pub is_stream: bool,
    pub latency_ms: i64,
    pub ttfb_ms: Option<i64>,
    pub prompt_tokens: Option<i32>,
    pub completion_tokens: Option<i32>,
    /// The input tokens that a cache served: `None` where that is not known.
    pub cached_tokens: Option<i32>,
    pub metering_unit: Option<String>,
    pub metering_usage: Option<FloatBits>,
    pub context_usage_pct: Option<FloatBits>,
}

/// A request with all that is known of it.
#[derive(Debug, Clone)]
pub struct RequestLogDetail {
    pub summary: RequestLogSummary,
    pub messages_count: Option<i32>,
    pub tools_count: Option<i32>,
    pub system_prompt_len: Option<i32>,
    pub has_cache_control: Option<bool>,
    pub error_message: Option<String>,
    pub error_stage: Option<String>,
    pub request_body: Option<String>,
    pub response_body: Option<String>,
}

/// Which requests are listed.
#[derive(Debug, Clone)]
pub struct ListQuery {
    /// At most so many.
    pub limit: usize,
    /// So many are passed over.
    pub offset: usize,
    /// Only those with this status.
    pub status: Option<String>,
    /// Only those that this account served.
    pub account_id: Option<String>,
}

impl Default for ListQuery {
    fn default() -> (r: Self)
        ensures
            r.limit == 0,
            r.offset == 0,
            r.status is None,
            r.account_id is None,
    {
        ListQuery { limit: 0, offset: 0, status: None, account_id: None }
    }
}

/// Lists requests.
pub const SELECT_REQUESTS: &'static str =
    "SELECT request_id, ts_ms, model, upstream_model, endpoint,
                account_id, account_label, status, http_status, error_kind, reason,
                attempts, is_stream, latency_ms, ttfb_ms,
                prompt_tokens, completion_tokens,
                metering_unit, metering_usage, context_usage_pct,
                cached_tokens
         FROM requests";

/// Counts requests.
pub const COUNT_REQUESTS: &'static str = "SELECT COUNT(*) FROM requests";

/// The newest come first, and a part of them only.
pub const NEWEST_FIRST: &'static str = " ORDER BY ts_ms DESC LIMIT ? OFFSET ?";

/// Selects a request.
pub const SELECT_DETAIL: &'static str =
    "SELECT request_id, ts_ms, model, upstream_model, endpoint,
                account_id, account_label, status, http_status, error_kind, reason,
                attempts, is_stream, latency_ms, ttfb_ms,
                prompt_tokens, completion_tokens,
                metering_unit, metering_usage, context_usage_pct,
                messages_count, tools_count, system_prompt_len, has_cache_control,
                error_message, cached_tokens
         FROM requests WHERE request_id = ?";

/// Selects the stage at which a request failed.
pub const SELECT_STAGE: &'static str = "SELECT stage FROM errors WHERE request_id = ?";

/// Selects the bodies of a request.
pub const SELECT_BODIES: &'static str =
    "SELECT request_body, response_body FROM request_bodies WHERE request_id = ?";

/// The conditions of a query, in order.
pub open spec fn conditions(q: ListQuery) -> Seq<Seq<char>> {
    (if q.status is Some {
        seq!["status = ?"@]
    } else {
        Seq::empty()
    }) + (if q.account_id is Some {
        seq!["account_id = ?"@]
    } else {
        Seq::empty()
    })
}

/// Conditions that hold together.
pub open spec fn conjunction(conditions: Seq<Seq<char>>) -> Seq<char>
    decreases conditions.len(),
{
    if conditions.len() == 0 {
        Seq::empty()
    } else if conditions.len() == 1 {
        conditions[0]
    } else {
        conjunction(conditions.drop_last()) + " AND "@ + conditions.last()
    }
}

/// The restriction of a query to its conditions, nothing where it has none.
pub open spec fn where_clause(q: ListQuery) -> Seq<char> {
    if conditions(q).len() == 0 {
        Seq::empty()
    } else {
        " WHERE "@ + conjunction(conditions(q))
    }
}

/// The values that the conditions of a query ask for, in order.
pub open spec fn condition_values(q: ListQuery) -> Seq<SqlView> {
    (match q.status {
        Some(s) => seq![SqlView::Text(s@)],
        None => Seq::empty(),
    }) + (match q.account_id {
        Some(s) => seq![SqlView::Text(s@)],
        None => Seq::empty(),
    })
}

/// The statement that counts the requests of a query.
pub open spec fn count_model(q: ListQuery) -> StatementView {
    StatementView { sql: COUNT_REQUESTS@ + where_clause(q), params: condition_values(q) }
}

/// The statement that lists the requests of a query. A bound is taken by its low 64 bits.
pub open spec fn list_model(q: ListQuery) -> StatementView {
    StatementView {
        sql: SELECT_REQUESTS@ + where_clause(q) + NEWEST_FIRST@,
        params: condition_values(q) + seq![
            SqlView::Integer((q.limit as i64) as int),
            SqlView::Integer((q.offset as i64) as int),
        ],
    }
}

/// A statement that starts with `head` and is restricted to the conditions of a query.
fn restricted(head: &str, q: &ListQuery) -> (r: Statement)
    ensures
        r@ == (StatementView { sql: head@ + where_clause(*q), params: condition_values(*q) }),
{
    let mut s = sql::statement(head);
    let both: bool = q.status.is_some() && q.account_id.is_some();
    if q.status.is_some() || q.account_id.is_some() {
        s.sql.append(" WHERE ");
    }
    if let Some(status) = &q.status {
        s.sql.append("status = ?");
        s.push_text(status.as_str());
    }
    if both {
        s.sql.append(" AND ");
    }
    if let Some(account) = &q.account_id {
        s.sql.append("account_id = ?");
        s.push_text(account.as_str());
    }
    proof {
        reveal_with_fuel(conjunction, 3);
        let c = conditions(*q);
        if both {
            assert(c.drop_last() =~= seq!["status = ?"@]);
        }
        assert(s@.sql =~= head@ + where_clause(*q));
        assert(s@.params =~= condition_values(*q));
    }
    s
}

/// The statement that counts the requests of a query.
pub fn count(q: &ListQuery) -> (r: Statement)
    ensures
        r@ == count_model(*q),
{
    restricted(COUNT_REQUESTS, q)
}

/// The statement that lists the requests of a query, the newest first.
pub fn list(q: &ListQuery) -> (r: Statement)
    ensures
        r@ == list_model(*q),
{
    let mut s = restricted(SELECT_REQUESTS, q);
    s.sql.append(NEWEST_FIRST);
    s.push_integer(
        #[verifier::truncate]
        (q.limit as i64),
    );
    s.push_integer(
        #[verifier::truncate]
        (q.offset as i64),
    );
    proof {
        assert(s@.params =~= list_model(*q).params);
    }
    s
}

/// A column that holds a truth value: anything but 0 is true.
pub fn is_set(column: i64) -> (r: bool)
    ensures
        r == (column != 0),
{
    column != 0
}

/// A column that holds a truth value or nothing.
pub fn optional_is_set(column: Option<i64>) -> (r: Option<bool>)
    ensures
        r == (match column {
            Some(n) => Some(n != 0),
            None => None,
        }),
{
    match column {
        Some(n) => Some(n != 0),
        None => None,
    }
}

/// A request with the stage of its error and its bodies. `stage` is what the row of the error
/// holds, and `bodies` what the row of the bodies holds, where there is such a row.
pub open spec fn detail_model(
    detail: RequestLogDetail,
    stage: Option<Option<String>>,
    bodies: Option<(Option<String>, Option<String>)>,
) -> RequestLogDetail {
    RequestLogDetail {
        error_stage: match stage {
            Some(Some(s)) => Some(s),
            _ => detail.error_stage,
        },
        request_body: match bodies {
            Some(b) => b.0,
            None => detail.request_body,
        },
        response_body: match bodies {
            Some(b) => b.1,
            None => detail.response_body,
        },
        ..detail
    }
}

/// What is known of a request, from the rows that were found of it: `None` where the request
/// itself has none.
pub fn assemble(
    detail: Option<RequestLogDetail>,
    stage: Option<Option<String>>,
    bodies: Option<(Option<String>, Option<String>)>,
) -> (r: Option<RequestLogDetail>)
    ensures
        r == (match detail {
            Some(d) => Some(detail_model(d, stage, bodies)),
            None => None,
        }),
{
    match detail {
        None => None,
        Some(found) => {
            let mut d = found;
            if let Some(Some(s)) = stage {
                d.error_stage = Some(s);
            }
            if let Some((request, response)) = bodies {
                d.request_body = request;
                d.response_body = response;
            }
            Some(d)
        },
    }
}

/// A list and its count look at the same requests: they have the same restriction, with the same
/// values.
pub proof fn count_matches_list(q: ListQuery)
    ensures
        count_model(q).sql == COUNT_REQUESTS@ + where_clause(q),
        list_model(q).sql == SELECT_REQUESTS@ + where_clause(q) + NEWEST_FIRST@,
        list_model(q).params.take(count_model(q).params.len() as int) == count_model(q).params,
        list_model(q).params.len() == count_model(q).params.len() + 2,
{
    assert(list_model(q).params.take(count_model(q).params.len() as int)
        =~= count_model(q).params);
}

/// A query is restricted to what it asks for: to a status, to an account, to both together, or not
/// at all; and the values stand in the order of the conditions.
pub proof fn queries_ask_for_what_is_wanted(q: ListQuery)
    ensures
        q.status is None && q.account_id is None ==> where_clause(q) == ""@
            && count_model(q).params.len() == 0,
        q.status matches Some(s) ==> (q.account_id is None ==> where_clause(q)
            == " WHERE status = ?"@ && count_model(q).params == seq![SqlView::Text(s@)]),
        q.account_id matches Some(a) ==> (q.status is None ==> where_clause(q)
            == " WHERE account_id = ?"@ && count_model(q).params == seq![SqlView::Text(a@)]),
        q.status matches Some(s) ==> (q.account_id matches Some(a) ==> where_clause(q)
            == " WHERE status = ? AND account_id = ?"@ && count_model(q).params == seq![
            SqlView::Text(s@),
            SqlView::Text(a@),
        ]),
        ({
            let n = list_model(q).params.len() as int;
            &&& n >= 2
            &&& q.limit <= i64::MAX ==> list_model(q).params[n - 2] == SqlView::Integer(
                q.limit as int,
            )
            &&& q.offset <= i64::MAX ==> list_model(q).params[n - 1] == SqlView::Integer(
                q.offset as int,
            )
        }),
{
    reveal_with_fuel(conjunction, 3);
    reveal_strlit("");
    reveal_strlit(" WHERE ");
    reveal_strlit(" AND ");
    reveal_strlit("status = ?");
    reveal_strlit("account_id = ?");
    reveal_strlit(" WHERE status = ?");
    reveal_strlit(" WHERE account_id = ?");
    reveal_strlit(" WHERE status = ? AND account_id = ?");
    let c = conditions(q);
    if q.status is Some && q.account_id is Some {
        assert(c.drop_last() =~= seq!["status = ?"@]);
        assert(where_clause(q) =~= " WHERE status = ? AND account_id = ?"@);
    } else if q.status is Some {
        assert(where_clause(q) =~= " WHERE status = ?"@);
    } else if q.account_id is Some {
        assert(where_clause(q) =~= " WHERE account_id = ?"@);
    } else {
        assert(where_clause(q) =~= ""@);
    }
    assert(count_model(q).params =~= condition_values(q));
}

/// What is known of a request beyond its row: the stage of its error and its bodies, each where a
/// row of it was found, and everything else as its row says.
pub proof fn details_come_from_their_rows(
    d: RequestLogDetail,
    stage: Option<Option<String>>,
    bodies: Option<(Option<String>, Option<String>)>,
)
    ensures
        ({
            let r = detail_model(d, stage, bodies);
            &&& stage matches Some(Some(s)) ==> r.error_stage == Some(s)
            &&& !(stage matches Some(Some(_))) ==> r.error_stage == d.error_stage
            &&& bodies matches Some((request, response)) ==> r.request_body == request
                && r.response_body == response
            &&& bodies is None ==> r.request_body == d.request_body && r.response_body
                == d.response_body
            &&& r.summary == d.summary
            &&& r.messages_count == d.messages_count
            &&& r.tools_count == d.tools_count
            &&& r.system_prompt_len == d.system_prompt_len
            &&& r.has_cache_control == d.has_cache_control
            &&& r.error_message == d.error_message
        }),
{
}

} // verus!
