//! The tables of the database and the statements that keep them up to date.

use vstd::prelude::*;
use vstd::string::*;

verus! {

/// Creates the tables that are not there yet.
pub const CREATE_TABLES: &'static str =
    "CREATE TABLE IF NOT EXISTS requests (
            request_id              TEXT PRIMARY KEY,
            ts_ms                   INTEGER NOT NULL,
            public_key_id           TEXT,
            client_id               TEXT,
            session_id              TEXT,
            model                   TEXT NOT NULL,
            upstream_model          TEXT,
            endpoint                TEXT NOT NULL,
            pool_id                 TEXT NOT NULL DEFAULT 'kiro',
            account_id              TEXT,
            account_label           TEXT,
            status                  TEXT NOT NULL,
            http_status             INTEGER,
            reason                  TEXT,
            error_kind              TEXT,
            error_message           TEXT,
            attempts                INTEGER NOT NULL DEFAULT 1,
            is_stream               INTEGER NOT NULL,
            latency_ms              INTEGER NOT NULL,
            ttfb_ms                 INTEGER,
            prompt_tokens           INTEGER,
            completion_tokens       INTEGER,
            cached_tokens           INTEGER,
            cache_creation_tokens   INTEGER,
            cost                    REAL,
            metering_unit           TEXT,
            metering_usage          REAL,
            context_usage_pct       REAL,
            has_cache_control       INTEGER,
            messages_count          INTEGER,
            tools_count             INTEGER,
            system_prompt_len       INTEGER,
            params_json             TEXT
        );

        CREATE INDEX IF NOT EXISTS idx_requests_ts       ON requests(ts_ms DESC);
        CREATE INDEX IF NOT EXISTS idx_requests_account  ON requests(account_id, ts_ms DESC);
        CREATE INDEX IF NOT EXISTS idx_requests_status   ON requests(status, ts_ms DESC);
        CREATE INDEX IF NOT EXISTS idx_requests_model    ON requests(model, ts_ms DESC);

        CREATE TABLE IF NOT EXISTS errors (
            request_id  TEXT PRIMARY KEY REFERENCES requests(request_id) ON DELETE CASCADE,
            stage       TEXT,
            code        TEXT,
            message     TEXT
        );

        CREATE TABLE IF NOT EXISTS request_bodies (
            request_id     TEXT PRIMARY KEY REFERENCES requests(request_id) ON DELETE CASCADE,
            request_body   TEXT,
            response_body  TEXT
        );

        CREATE TABLE IF NOT EXISTS api_keys (
            id          INTEGER PRIMARY KEY AUTOINCREMENT,
            key         TEXT NOT NULL UNIQUE,
            label       TEXT,
            created_at  INTEGER NOT NULL
        );

        CREATE TABLE IF NOT EXISTS groups (
            id          INTEGER PRIMARY KEY AUTOINCREMENT,
            name        TEXT NOT NULL UNIQUE,
            created_at  INTEGER NOT NULL
        );

        CREATE TABLE IF NOT EXISTS credential_groups (
            credential_id  INTEGER PRIMARY KEY,
            group_id       INTEGER NOT NULL REFERENCES groups(id) ON DELETE CASCADE,
            assigned_at    INTEGER NOT NULL
        );";

/// Counts the columns of `requests` that hold the reported cache reads.
pub const COUNT_REPORTED_COLUMN: &'static str =
    "SELECT COUNT(*) FROM pragma_table_info('requests') WHERE name = 'cache_read_reported'";

/// Counts the columns of `api_keys` that say whether a key is disabled.
pub const COUNT_DISABLED_COLUMN: &'static str =
    "SELECT COUNT(*) FROM pragma_table_info('api_keys') WHERE name = 'disabled'";

/// Counts the columns of `api_keys` that hold the group of a key.
pub const COUNT_GROUP_COLUMN: &'static str =
    "SELECT COUNT(*) FROM pragma_table_info('api_keys') WHERE name = 'group_id'";

pub const ADD_REPORTED_COLUMN: &'static str =
    "ALTER TABLE requests ADD COLUMN cache_read_reported INTEGER";

pub const ADD_DISABLED_COLUMN: &'static str =
    "ALTER TABLE api_keys ADD COLUMN disabled INTEGER NOT NULL DEFAULT 0";

pub const ADD_GROUP_COLUMN: &'static str =
    "ALTER TABLE api_keys ADD COLUMN group_id INTEGER REFERENCES groups(id)";

/// Counts the records.
pub const COUNT_RECORDS: &'static str = "SELECT COUNT(*) FROM requests";

/// Removes so many records, the oldest first.
pub const DELETE_OLDEST: &'static str = "DELETE FROM requests WHERE request_id IN (
            SELECT request_id FROM requests ORDER BY ts_ms ASC LIMIT ?1
        )";

/// The statement, where the column that it adds is missing.
pub open spec fn if_missing(columns: i64, sql: Seq<char>) -> Seq<Seq<char>> {
    if columns == 0 {
        seq![sql]
    } else {
        Seq::empty()
    }
}

/// The texts of a list.
pub open spec fn views(list: Seq<&'static str>) -> Seq<Seq<char>> {
    list.map_values(|s: &'static str| s@)
}

/// The statements that add the columns that are missing. Each argument is the number of columns
/// of that name that the table has.
pub fn migrations(reported: i64, disabled: i64, group: i64) -> (r: Vec<&'static str>)
    ensures
        views(r@) == if_missing(reported, ADD_REPORTED_COLUMN@) + if_missing(
            disabled,
            ADD_DISABLED_COLUMN@,
        ) + if_missing(group, ADD_GROUP_COLUMN@),
{
    let mut out: Vec<&'static str> = Vec::new();
    if reported == 0 {
        out.push(ADD_REPORTED_COLUMN);
    }
    if disabled == 0 {
        out.push(ADD_DISABLED_COLUMN);
    }
    if group == 0 {
        out.push(ADD_GROUP_COLUMN);
    }
    proof {
        assert(views(out@) =~= if_missing(reported, ADD_REPORTED_COLUMN@) + if_missing(
            disabled,
            ADD_DISABLED_COLUMN@,
        ) + if_missing(group, ADD_GROUP_COLUMN@));
    }
    out
}

/// How many of `current` records are beyond the bound.
pub open spec fn excess_model(current: int, max_records: int) -> int {
    if current > max_records {
        current - max_records
    } else {
        0
    }
}

/// How many records are to be removed so that no more than `max_records` stay: those beyond the
/// bound, none where there are not so many.
pub fn excess(current: i64, max_records: usize) -> (r: i64)
    ensures
        r == excess_model(current as int, max_records as int),
{
    if current > 0 && current as u64 > max_records as u64 {
        (current as u64 - max_records as u64) as i64
    } else {
        0
    }
}

/// The records that stay of a list by age when the excess is removed, the oldest first.
pub open spec fn kept<T>(records: Seq<T>, max_records: nat) -> Seq<T> {
    records.skip(excess_model(records.len() as int, max_records as int))
}

/// Removing the excess leaves the newest records: as many as the bound allows, and all of them
/// where there were not more.
pub proof fn trim_keeps_the_newest<T>(records: Seq<T>, max_records: nat)
    ensures
        kept(records, max_records).len() == if records.len() <= max_records {
            records.len()
        } else {
            max_records
        },
        forall|i: int|
            0 <= i < kept(records, max_records).len() ==> #[trigger] kept(
                records,
                max_records,
            )[i] == records[records.len() - kept(records, max_records).len() + i],
        kept(kept(records, max_records), max_records) == kept(records, max_records),
{
    let once = kept(records, max_records);
    assert(kept(once, max_records) =~= once);
}

/// As many records are removed as are beyond the bound, and none where there are not more.
pub proof fn only_the_excess_goes(current: int, max_records: int)
    requires
        0 <= max_records,
    ensures
        current <= max_records ==> excess_model(current, max_records) == 0,
        current > max_records ==> current - excess_model(current, max_records) == max_records,
{
}

/// A column is added where the table has none of its name, and only there.
pub proof fn missing_columns_are_added(columns: i64, sql: Seq<char>)
    ensures
        columns == 0 ==> if_missing(columns, sql) == seq![sql],
        columns != 0 ==> if_missing(columns, sql).len() == 0,
{
}

} // verus!
