//! The access keys.

use vstd::prelude::*;
use vstd::string::*;

use crate::db::sql;
use crate::db::sql::{SqlView, Statement, StatementView};
use crate::text;

verus! {

/// An access key.
#[derive(Debug, Clone)]
pub struct ApiKeyRow {
    pub id: i64,
    pub key: String,
    pub label: Option<String>,
    /// When it was added, in milliseconds since 1970.
    pub created_at: i64,
    /// It opens nothing while it is disabled.
    pub disabled: bool,
    /// The group of credentials that it is bound to.
    pub group_id: Option<i64>,
}

/// Lists the keys in the order in which they were added.
pub const SELECT_KEYS: &'static str =
    "SELECT id, key, label, created_at, COALESCE(disabled, 0), group_id FROM api_keys ORDER BY id ASC";

/// Counts the keys.
pub const COUNT_KEYS: &'static str = "SELECT COUNT(*) FROM api_keys";

pub const UPDATE_DISABLED: &'static str = "UPDATE api_keys SET disabled = ?1 WHERE id = ?2";

pub const INSERT_KEY: &'static str =
    "INSERT INTO api_keys (key, label, created_at) VALUES (?1, ?2, ?3)";

pub const DELETE_KEY: &'static str = "DELETE FROM api_keys WHERE id = ?1";

/// The keys that are not disabled, in order.
pub open spec fn enabled_keys(rows: Seq<ApiKeyRow>) -> Seq<Seq<char>>
    decreases rows.len(),
{
    if rows.len() == 0 {
        Seq::empty()
    } else if rows.last().disabled {
        enabled_keys(rows.drop_last())
    } else {
        enabled_keys(rows.drop_last()).push(rows.last().key@)
    }
}

/// The keys that are not disabled, in order.
pub fn list_keys(rows: &Vec<ApiKeyRow>) -> (r: Vec<String>)
    ensures
        text::texts(r@) == enabled_keys(rows@),
{
    let mut out: Vec<String> = Vec::new();
    proof {
        assert(text::texts(out@) =~= enabled_keys(rows@.take(0)));
    }
    for i in 0..rows.len()
        invariant
            text::texts(out@) == enabled_keys(rows@.take(i as int)),
    {
        proof {
            assert(rows@.take(i + 1).drop_last() =~= rows@.take(i as int));
        }
        if !rows[i].disabled {
            out.push(rows[i].key.clone());
            proof {
                assert(text::texts(out@) =~= enabled_keys(rows@.take(i as int)).push(
                    rows@[i as int].key@,
                ));
            }
        }
    }
    proof {
        assert(rows@.take(rows@.len() as int) =~= rows@);
    }
    out
}

/// The statement that disables or enables a key.
pub fn set_disabled(id: i64, disabled: bool) -> (r: Statement)
    ensures
        r@ == (StatementView {
            sql: UPDATE_DISABLED@,
            params: seq![sql::truth(disabled), SqlView::Integer(id as int)],
        }),
{
    let mut s = sql::statement(UPDATE_DISABLED);
    s.push_truth(disabled);
    s.push_integer(id);
    proof {
        assert(s@.params =~= seq![sql::truth(disabled), SqlView::Integer(id as int)]);
    }
    s
}

/// The statement that adds a key at the time `now`, in milliseconds since 1970.
pub fn insert(key: &str, label: &Option<String>, now: i64) -> (r: Statement)
    ensures
        r@ == (StatementView {
            sql: INSERT_KEY@,
            params: seq![
                SqlView::Text(key@),
                sql::optional_text(*label),
                SqlView::Integer(now as int),
            ],
        }),
{
    let mut s = sql::statement(INSERT_KEY);
    s.push_text(key);
    s.push_optional_text(label);
    s.push_integer(now);
    proof {
        assert(s@.params =~= seq![
            SqlView::Text(key@),
            sql::optional_text(*label),
            SqlView::Integer(now as int),
        ]);
    }
    s
}

/// The statement that removes a key.
pub fn delete(id: i64) -> (r: Statement)
    ensures
        r@ == (StatementView { sql: DELETE_KEY@, params: seq![SqlView::Integer(id as int)] }),
{
    let mut s = sql::statement(DELETE_KEY);
    s.push_integer(id);
    proof {
        assert(s@.params =~= seq![SqlView::Integer(id as int)]);
    }
    s
}

/// A key stays open while some row holds it that is not disabled.
pub proof fn enabled_keys_are_those_of_enabled_rows(rows: Seq<ApiKeyRow>, key: Seq<char>)
    ensures
        enabled_keys(rows).contains(key) <==> exists|i: int|
            0 <= i < rows.len() && !rows[i].disabled && (#[trigger] rows[i]).key@ == key,
    decreases rows.len(),
{
    if rows.len() > 0 {
        let front = rows.drop_last();
        enabled_keys_are_those_of_enabled_rows(front, key);
        if enabled_keys(rows).contains(key) {
            if enabled_keys(front).contains(key) {
                let i = choose|i: int|
                    0 <= i < front.len() && !front[i].disabled && (#[trigger] front[i]).key@ == key;
                assert(rows[i] == front[i]);
            } else {
                let at = choose|at: int|
                    0 <= at < enabled_keys(rows).len() && enabled_keys(rows)[at] == key;
                assert(at == enabled_keys(front).len() || enabled_keys(front)[at] == key);
                assert(rows[rows.len() - 1] == rows.last());
            }
        }
        if exists|i: int|
            0 <= i < rows.len() && !rows[i].disabled && (#[trigger] rows[i]).key@ == key {
            let i = choose|i: int|
                0 <= i < rows.len() && !rows[i].disabled && (#[trigger] rows[i]).key@ == key;
            if i == rows.len() - 1 {
                assert(enabled_keys(rows).last() == key);
                assert(enabled_keys(rows)[enabled_keys(rows).len() - 1] == key);
            } else {
                assert(front[i] == rows[i]);
                let at = choose|at: int|
                    0 <= at < enabled_keys(front).len() && enabled_keys(front)[at] == key;
                assert(enabled_keys(rows)[at] == key);
            }
        }
    }
}

} // verus!
