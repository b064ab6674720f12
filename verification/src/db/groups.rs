//! Groups of credentials, and the keys that are bound to them.

use std::collections::HashSet;

use vstd::prelude::*;
use vstd::string::*;

use crate::db::sql;
use crate::db::sql::{SqlView, Statement, StatementView};

verus! {

broadcast use vstd::std_specs::hash::group_hash_axioms;

/// A group of credentials.
#[derive(Debug, Clone)]
pub struct GroupRow {
    pub id: i64,
    pub name: String,
    /// When it was added, in milliseconds since 1970.
    pub created_at: i64,
}

/// Lists the groups in the order in which they were added.
pub const SELECT_GROUPS: &'static str = "SELECT id, name, created_at FROM groups ORDER BY id ASC";

pub const INSERT_GROUP: &'static str = "INSERT INTO groups (name, created_at) VALUES (?1, ?2)";

/// Frees the keys that are bound to a group.
pub const UNBIND_KEYS: &'static str = "UPDATE api_keys SET group_id = NULL WHERE group_id = ?1";

pub const DELETE_GROUP: &'static str = "DELETE FROM groups WHERE id = ?1";

pub const RENAME_GROUP: &'static str = "UPDATE groups SET name = ?1 WHERE id = ?2";

/// Takes a credential out of its group.
pub const REMOVE_CREDENTIAL: &'static str =
    "DELETE FROM credential_groups WHERE credential_id = ?1";

/// Puts a credential into a group, and out of the one that it was in.
pub const ASSIGN_CREDENTIAL: &'static str =
    "INSERT INTO credential_groups (credential_id, group_id, assigned_at)
                 VALUES (?1, ?2, ?3)
                 ON CONFLICT(credential_id) DO UPDATE SET group_id = ?2, assigned_at = ?3";

pub const SELECT_ASSIGNMENTS: &'static str =
    "SELECT credential_id, group_id FROM credential_groups";

pub const SELECT_MEMBERS: &'static str =
    "SELECT credential_id FROM credential_groups WHERE group_id = ?1 ORDER BY credential_id ASC";

/// Selects the group of a key that is not disabled.
pub const SELECT_KEY_GROUP: &'static str =
    "SELECT group_id FROM api_keys WHERE key = ?1 AND COALESCE(disabled, 0) = 0";

pub const BIND_KEY: &'static str = "UPDATE api_keys SET group_id = ?1 WHERE id = ?2";

/// The statement that adds a group at the time `now`, in milliseconds since 1970.
pub fn insert(name: &str, now: i64) -> (r: Statement)
    ensures
        r@ == (StatementView {
            sql: INSERT_GROUP@,
            params: seq![SqlView::Text(name@), SqlView::Integer(now as int)],
        }),
{
    let mut s = sql::statement(INSERT_GROUP);
    s.push_text(name);
    s.push_integer(now);
    proof {
        assert(s@.params =~= seq![SqlView::Text(name@), SqlView::Integer(now as int)]);
    }
    s
}

/// The statements that remove a group, all to be executed or none: the keys that are bound to it
/// are freed first. The last one removes the group itself.
pub fn delete(id: i64) -> (r: Vec<Statement>)
    ensures
        sql::statement_views(r@) == seq![
            StatementView { sql: UNBIND_KEYS@, params: seq![SqlView::Integer(id as int)] },
            StatementView { sql: DELETE_GROUP@, params: seq![SqlView::Integer(id as int)] },
        ],
{
    let ghost id_param: Seq<SqlView> = seq![SqlView::Integer(id as int)];
    let mut unbind = sql::statement(UNBIND_KEYS);
    unbind.push_integer(id);
    let mut remove = sql::statement(DELETE_GROUP);
    remove.push_integer(id);
    proof {
        assert(unbind@.params =~= id_param);
        assert(remove@.params =~= id_param);
    }
    let mut out: Vec<Statement> = Vec::new();
    out.push(unbind);
    out.push(remove);
    proof {
        assert(sql::statement_views(out@) =~= seq![unbind@, remove@]);
    }
    out
}

/// The statement that renames a group.
pub fn rename(id: i64, name: &str) -> (r: Statement)
    ensures
        r@ == (StatementView {
            sql: RENAME_GROUP@,
            params: seq![SqlView::Text(name@), SqlView::Integer(id as int)],
        }),
{
    let mut s = sql::statement(RENAME_GROUP);
    s.push_text(name);
    s.push_integer(id);
    proof {
        assert(s@.params =~= seq![SqlView::Text(name@), SqlView::Integer(id as int)]);
    }
    s
}

/// The statement that puts a credential into a group at the time `now`, or takes it out of its
/// group.
pub fn set_credential_group(credential_id: i64, group_id: Option<i64>, now: i64) -> (r: Statement)
    ensures
        r@ == (match group_id {
            None => StatementView {
                sql: REMOVE_CREDENTIAL@,
                params: seq![SqlView::Integer(credential_id as int)],
            },
            Some(g) => StatementView {
                sql: ASSIGN_CREDENTIAL@,
                params: seq![
                    SqlView::Integer(credential_id as int),
                    SqlView::Integer(g as int),
                    SqlView::Integer(now as int),
                ],
            },
        }),
{
    match group_id {
        None => {
            let mut s = sql::statement(REMOVE_CREDENTIAL);
            s.push_integer(credential_id);
            proof {
                assert(s@.params =~= seq![SqlView::Integer(credential_id as int)]);
            }
            s
        },
        Some(g) => {
            let mut s = sql::statement(ASSIGN_CREDENTIAL);
            s.push_integer(credential_id);
            s.push_integer(g);
            s.push_integer(now);
            proof {
                assert(s@.params =~= seq![
                    SqlView::Integer(credential_id as int),
                    SqlView::Integer(g as int),
                    SqlView::Integer(now as int),
                ]);
            }
            s
        },
    }
}

/// The statement that binds a key to a group, or frees it.
pub fn set_key_group(key_id: i64, group_id: Option<i64>) -> (r: Statement)
    ensures
        r@ == (StatementView {
            sql: BIND_KEY@,
            params: seq![sql::optional_i64(group_id), SqlView::Integer(key_id as int)],
        }),
{
    let mut s = sql::statement(BIND_KEY);
    s.push_optional_i64(group_id);
    s.push_integer(key_id);
    proof {
        assert(s@.params =~= seq![sql::optional_i64(group_id), SqlView::Integer(key_id as int)]);
    }
    s
}

/// The group that a key is bound to, from the row that was found of it. A key that is not there or
/// is disabled has no row.
pub fn group_id_for_key(row: Option<Option<i64>>) -> (r: Option<i64>)
    ensures
        r == (match row {
            Some(group) => group,
            None => None,
        }),
{
    match row {
        Some(group) => group,
        None => None,
    }
}

/// The credentials with the given identifiers.
pub open spec fn id_set(members: Seq<i64>) -> Set<u64> {
    members.map_values(|m: i64| m as u64).to_set()
}

/// The credentials that a key may use: all of them, which is `None`, where it is bound to no
/// group, and otherwise those of its group and no others, though there be none.
pub fn allowed_credential_ids(group_id: Option<i64>, members: &Vec<i64>) -> (r: Option<HashSet<u64>>)
    ensures
        match r {
            Some(set) => group_id is Some && set@ == id_set(members@),
            None => group_id is None,
        },
{
    if group_id.is_none() {
        return None;
    }
    let ghost ids = members@.map_values(|m: i64| m as u64);
    let mut set: HashSet<u64> = HashSet::new();
    proof {
        assert(set@ =~= ids.take(0).to_set());
    }
    for i in 0..members.len()
        invariant
            ids == members@.map_values(|m: i64| m as u64),
            set@ == ids.take(i as int).to_set(),
    {
        let id: u64 = #[verifier::truncate]
        (members[i] as u64);
        set.insert(id);
        proof {
            let before = ids.take(i as int);
            let after = ids.take(i + 1);
            assert(after =~= before.push(id));
            assert forall|x: u64| after.to_set().contains(x) <==> before.to_set().insert(
                id,
            ).contains(x) by {
                if after.contains(x) {
                    let at = choose|at: int| 0 <= at < after.len() && after[at] == x;
                    if at < before.len() {
                        assert(before[at] == x);
                    }
                }
                if before.contains(x) {
                    let at = choose|at: int| 0 <= at < before.len() && before[at] == x;
                    assert(after[at] == x);
                }
                assert(after[before.len() as int] == id);
            }
            assert(after.to_set() =~= before.to_set().insert(id));
        }
    }
    proof {
        assert(ids.take(ids.len() as int) =~= ids);
    }
    Some(set)
}

/// A group lets its members through and nobody else.
pub proof fn groups_hold_their_members(members: Seq<i64>, id: u64)
    ensures
        id_set(members).contains(id) <==> exists|i: int|
            0 <= i < members.len() && (#[trigger] members[i]) as u64 == id,
{
    let ids = members.map_values(|m: i64| m as u64);
    if id_set(members).contains(id) {
        let i = choose|i: int| 0 <= i < ids.len() && ids[i] == id;
        assert(members[i] as u64 == id);
    }
    if exists|i: int| 0 <= i < members.len() && (#[trigger] members[i]) as u64 == id {
        let i = choose|i: int| 0 <= i < members.len() && (#[trigger] members[i]) as u64 == id;
        assert(ids[i] == id);
    }
}

} // verus!
