//! What the administration interface checks before it acts, and what it replies.

use vstd::prelude::*;
use vstd::string::*;

use crate::admin::replies;
use crate::admin::replies::{AdminReply, ReplyView, TaskOutcome};
use crate::db::api_keys;
use crate::db::api_keys::ApiKeyRow;
use crate::db::groups::GroupRow;
use crate::db::query::ListQuery;
use crate::text;

verus! {

/// What was done to a credential.
#[derive(Debug, Clone, Copy)]
pub enum CredentialAction {
    SetDisabled(bool),
    SetPriority(u32),
    Reset,
    Delete,
    RefreshToken,
    SetConcurrency(u32),
}

/// The message that tells what was done to a credential.
pub open spec fn credential_message_model(id: nat, action: CredentialAction) -> Seq<char> {
    "凭据 #"@ + text::decimal(id) + match action {
        CredentialAction::SetDisabled(true) => " 已禁用"@,
        CredentialAction::SetDisabled(false) => " 已启用"@,
        CredentialAction::SetPriority(p) => " 优先级已设置为 "@ + text::decimal(p as nat),
        CredentialAction::Reset => " 失败计数已重置并重新启用"@,
        CredentialAction::Delete => " 已删除"@,
        CredentialAction::RefreshToken => " Token 已强制刷新"@,
        CredentialAction::SetConcurrency(n) => " 并发上限已设为 "@ + text::decimal(n as nat),
    }
}

/// The message that tells what was done to a credential.
pub fn credential_message(id: u64, action: CredentialAction) -> (r: String)
    ensures
        r@ == credential_message_model(id as nat, action),
{
    let mut s = replies::numbered_unsigned("凭据 #", id, "");
    proof {
        reveal_strlit("");
        assert(s@ =~= "凭据 #"@ + text::decimal(id as nat));
    }
    match action {
        CredentialAction::SetDisabled(disabled) => {
            if disabled {
                s.append(" 已禁用");
            } else {
                s.append(" 已启用");
            }
        },
        CredentialAction::SetPriority(p) => {
            s.append(" 优先级已设置为 ");
            s.append(text::decimal_text(p as u64).as_str());
        },
        CredentialAction::Reset => s.append(" 失败计数已重置并重新启用"),
        CredentialAction::Delete => s.append(" 已删除"),
        CredentialAction::RefreshToken => s.append(" Token 已强制刷新"),
        CredentialAction::SetConcurrency(n) => {
            s.append(" 并发上限已设为 ");
            s.append(text::decimal_text(n as u64).as_str());
        },
    }
    proof {
        assert(s@ =~= credential_message_model(id as nat, action));
    }
    s
}

/// A key as it is shown: its first four and its last two characters, and nothing of a short one.
pub open spec fn masked(key: Seq<char>) -> Seq<char> {
    if key.len() <= 8 {
        "***"@
    } else {
        key.subrange(0, 4) + "***"@ + key.subrange(key.len() - 2, key.len() as int)
    }
}

/// A key as it is shown.
pub fn mask_api_key(key: &str) -> (r: String)
    ensures
        r@ == masked(key@),
{
    let total: usize = key.unicode_len();
    if total <= 8 {
        return "***".to_string();
    }
    let mut s = key.substring_char(0, 4).to_string();
    s.append("***");
    s.append(key.substring_char(total - 2, total));
    s
}

/// What is shown of a key tells no more of it than its ends: keys of more than eight characters
/// with the same first four and last two look alike, whatever stands between, and all keys of up
/// to eight characters look alike.
pub proof fn masked_keys_show_their_ends_only(a: Seq<char>, b: Seq<char>)
    requires
        (a.len() <= 8 && b.len() <= 8) || (a.len() > 8 && b.len() > 8 && a.subrange(0, 4)
            == b.subrange(0, 4) && a.subrange(a.len() - 2, a.len() as int) == b.subrange(
            b.len() - 2,
            b.len() as int,
        )),
    ensures
        masked(a) == masked(b),
        masked(a).len() == if a.len() <= 8 {
            3nat
        } else {
            9
        },
{
    reveal_strlit("***");
}

/// A key as it is listed.
#[derive(Debug, Clone)]
pub struct ApiKeyItem {
    pub id: i64,
    pub masked: String,
    pub label: Option<String>,
    pub created_at: i64,
    pub disabled: bool,
    pub group_id: Option<i64>,
}

impl ApiKeyItem {
    /// The item shows the key.
    pub open spec fn shows(self, row: ApiKeyRow) -> bool {
        &&& self.id == row.id
        &&& self.masked@ == masked(row.key@)
        &&& self.label == row.label
        &&& self.created_at == row.created_at
        &&& self.disabled == row.disabled
        &&& self.group_id == row.group_id
    }
}

/// The keys as they are listed, in order.
pub fn api_key_items(rows: &Vec<ApiKeyRow>) -> (r: Vec<ApiKeyItem>)
    ensures
        r@.len() == rows@.len(),
        forall|i: int| 0 <= i < rows@.len() ==> (#[trigger] r@[i]).shows(rows@[i]),
{
    let mut out: Vec<ApiKeyItem> = Vec::new();
    for i in 0..rows.len()
        invariant
            out@.len() == i,
            forall|j: int| 0 <= j < i ==> (#[trigger] out@[j]).shows(rows@[j]),
    {
        let row = &rows[i];
        let label: Option<String> = match &row.label {
            Some(s) => Some(s.clone()),
            None => None,
        };
        out.push(
            ApiKeyItem {
                id: row.id,
                masked: mask_api_key(row.key.as_str()),
                label,
                created_at: row.created_at,
                disabled: row.disabled,
                group_id: row.group_id,
            },
        );
    }
    out
}

/// The text without white space at its ends, or a refusal with the given error where nothing is
/// left.
fn required_text(s: &str, error: &str) -> (r: Result<String, AdminReply>)
    ensures
        match r {
            Ok(t) => t@ == text::trimmed(s@) && t@.len() > 0,
            Err(reply) => text::trimmed(s@).len() == 0 && reply@ == replies::failure_view(
                400,
                error@,
            ),
        },
{
    let t = text::trim(s);
    if t.as_str().is_empty() {
        Err(replies::failure(400, error))
    } else {
        Ok(t)
    }
}

/// The key that is to be added: without white space at its ends, and refused where nothing is
/// left.
pub fn checked_key(key: &str) -> (r: Result<String, AdminReply>)
    ensures
        match r {
            Ok(t) => t@ == text::trimmed(key@) && t@.len() > 0,
            Err(reply) => text::trimmed(key@).len() == 0 && reply@ == replies::failure_view(
                400,
                "key 不能为空"@,
            ),
        },
{
    required_text(key, "key 不能为空")
}

/// The name that a group is to have: without white space at its ends, and refused where nothing is
/// left.
pub fn checked_group_name(name: &str) -> (r: Result<String, AdminReply>)
    ensures
        match r {
            Ok(t) => t@ == text::trimmed(name@) && t@.len() > 0,
            Err(reply) => text::trimmed(name@).len() == 0 && reply@ == replies::failure_view(
                400,
                "分组名不能为空"@,
            ),
        },
{
    required_text(name, "分组名不能为空")
}

/// The label that a key is to have: without white space at its ends, none where nothing is left.
pub fn checked_label(label: &Option<String>) -> (r: Option<String>)
    ensures
        match r {
            Some(t) => *label matches Some(s) && t@ == text::trimmed(s@) && t@.len() > 0,
            None => *label matches Some(s) ==> text::trimmed(s@).len() == 0,
        },
{
    match label {
        None => None,
        Some(s) => {
            let t = text::trim(s.as_str());
            if t.as_str().is_empty() {
                None
            } else {
                Some(t)
            }
        },
    }
}

/// The reply to a new key.
pub open spec fn added_key_reply(outcome: TaskOutcome<i64>) -> ReplyView {
    match outcome {
        TaskOutcome::Done(_) => replies::success_view("API Key 已添加"@),
        TaskOutcome::Failed(e) => if replies::is_conflict(e@) {
            replies::failure_view(409, "该 API Key 已存在"@)
        } else {
            replies::failure_view(500, "持久化失败: "@ + e@)
        },
        TaskOutcome::Panicked(e) => replies::panic_view(e@),
    }
}

/// The reply to a new key. The keys are to be read anew where it is a success.
pub fn add_api_key_reply(outcome: &TaskOutcome<i64>) -> (r: AdminReply)
    ensures
        r@ == added_key_reply(*outcome),
{
    match outcome {
        TaskOutcome::Done(_) => replies::success("API Key 已添加"),
        TaskOutcome::Failed(e) => {
            if replies::conflicts(e.as_str()) {
                replies::failure(409, "该 API Key 已存在")
            } else {
                let mut error = "持久化失败: ".to_string();
                error.append(e.as_str());
                AdminReply::Failure { status: 500, error }
            }
        },
        TaskOutcome::Panicked(e) => replies::panicked(e.as_str()),
    }
}

/// How many of the keys besides the one with the identifier `id` are enabled.
pub open spec fn others_enabled(rows: Seq<ApiKeyRow>, id: i64) -> nat
    decreases rows.len(),
{
    if rows.len() == 0 {
        0
    } else {
        others_enabled(rows.drop_last(), id) + if !rows.last().disabled && rows.last().id != id {
            1nat
        } else {
            0
        }
    }
}

/// Whether an enabled key stays when the one with the identifier `id` is removed or disabled.
fn leaves_a_key(rows: &Vec<ApiKeyRow>, id: i64) -> (r: bool)
    ensures
        r == (others_enabled(rows@, id) > 0),
{
    let mut found: bool = false;
    proof {
        assert(rows@.take(0) =~= Seq::<ApiKeyRow>::empty());
    }
    for i in 0..rows.len()
        invariant
            found == (others_enabled(rows@.take(i as int), id) > 0),
    {
        proof {
            assert(rows@.take(i + 1).drop_last() =~= rows@.take(i as int));
        }
        if !rows[i].disabled && rows[i].id != id {
            found = true;
        }
    }
    proof {
        assert(rows@.take(rows@.len() as int) =~= rows@);
    }
    found
}

/// The key with the identifier `id` is there and enabled.
pub open spec fn is_enabled(rows: Seq<ApiKeyRow>, id: i64) -> bool {
    exists|i: int| 0 <= i < rows.len() && (#[trigger] rows[i]).id == id && !rows[i].disabled
}

/// The key with the identifier `id` has to stay: it is the only key, or the only enabled one. With
/// one key in all, no identifier is accepted.
pub open spec fn has_to_stay(rows: Seq<ApiKeyRow>, id: i64) -> bool {
    rows.len() <= 1 || (is_enabled(rows, id) && others_enabled(rows, id) == 0)
}

/// Whether the key with the identifier `id` is there and enabled.
fn key_is_enabled(rows: &Vec<ApiKeyRow>, id: i64) -> (r: bool)
    ensures
        r == is_enabled(rows@, id),
{
    for i in 0..rows.len()
        invariant
            forall|j: int| 0 <= j < i ==> !((#[trigger] rows@[j]).id == id && !rows@[j].disabled),
    {
        if rows[i].id == id && !rows[i].disabled {
            return true;
        }
    }
    false
}

/// Refuses to remove the only key, and the only enabled one: some key must still open the gateway.
pub fn delete_guard(rows: &Vec<ApiKeyRow>, id: i64) -> (r: Result<(), String>)
    ensures
        match r {
            Ok(_) => !has_to_stay(rows@, id),
            Err(error) => has_to_stay(rows@, id) && error@ == "至少保留一个 API Key"@,
        },
{
    if rows.len() <= 1 || (key_is_enabled(rows, id) && !leaves_a_key(rows, id)) {
        Err("至少保留一个 API Key".to_string())
    } else {
        Ok(())
    }
}

/// Refuses to disable a key where no other one is enabled.
pub fn disable_guard(rows: &Vec<ApiKeyRow>, id: i64, want_disabled: bool) -> (r: Result<(), String>)
    ensures
        match r {
            Ok(_) => want_disabled ==> others_enabled(rows@, id) > 0,
            Err(error) => want_disabled && others_enabled(rows@, id) == 0 && error@
                == "至少保留一个启用的 API Key"@,
        },
{
    if want_disabled && !leaves_a_key(rows, id) {
        Err("至少保留一个启用的 API Key".to_string())
    } else {
        Ok(())
    }
}

/// The keys after the one with the identifier `id` is disabled or enabled.
pub open spec fn with_disabled(rows: Seq<ApiKeyRow>, id: i64, disabled: bool) -> Seq<ApiKeyRow> {
    rows.map_values(
        |row: ApiKeyRow|
            if row.id == id {
                ApiKeyRow { disabled, ..row }
            } else {
                row
            },
    )
}

proof fn lemma_with_disabled_drop_last(rows: Seq<ApiKeyRow>, id: i64, disabled: bool)
    requires
        rows.len() > 0,
    ensures
        with_disabled(rows, id, disabled).drop_last() == with_disabled(
            rows.drop_last(),
            id,
            disabled,
        ),
{
    assert(with_disabled(rows, id, disabled).drop_last() =~= with_disabled(
        rows.drop_last(),
        id,
        disabled,
    ));
}

/// As many keys open the gateway after a key is disabled as others were enabled before. So where
/// the guard lets a key be disabled, some key still opens the gateway.
pub proof fn disabling_leaves_the_others(rows: Seq<ApiKeyRow>, id: i64)
    ensures
        api_keys::enabled_keys(with_disabled(rows, id, true)).len() == others_enabled(rows, id),
    decreases rows.len(),
{
    if rows.len() > 0 {
        lemma_with_disabled_drop_last(rows, id, true);
        disabling_leaves_the_others(rows.drop_last(), id);
    }
}

/// The keys after the one with the identifier `id` is removed.
pub open spec fn without_key(rows: Seq<ApiKeyRow>, id: i64) -> Seq<ApiKeyRow>
    decreases rows.len(),
{
    if rows.len() == 0 {
        Seq::empty()
    } else if rows.last().id == id {
        without_key(rows.drop_last(), id)
    } else {
        without_key(rows.drop_last(), id).push(rows.last())
    }
}

/// As many keys open the gateway after a key is removed as others were enabled before.
pub proof fn removing_leaves_the_others(rows: Seq<ApiKeyRow>, id: i64)
    ensures
        api_keys::enabled_keys(without_key(rows, id)).len() == others_enabled(rows, id),
    decreases rows.len(),
{
    if rows.len() > 0 {
        removing_leaves_the_others(rows.drop_last(), id);
        let front = without_key(rows.drop_last(), id);
        assert(front.push(rows.last()).drop_last() =~= front);
    }
}

/// Where the guard lets a key be removed, and some key opened the gateway before, some key still
/// does.
pub proof fn removing_locks_nobody_out(rows: Seq<ApiKeyRow>, id: i64)
    requires
        !has_to_stay(rows, id),
        api_keys::enabled_keys(rows).len() > 0,
    ensures
        api_keys::enabled_keys(without_key(rows, id)).len() > 0,
{
    removing_leaves_the_others(rows, id);
    lemma_enabled_here_or_elsewhere(rows, id);
}

/// An enabled key is the one with the identifier `id`, or another one.
proof fn lemma_enabled_here_or_elsewhere(rows: Seq<ApiKeyRow>, id: i64)
    ensures
        api_keys::enabled_keys(rows).len() > 0 ==> is_enabled(rows, id) || others_enabled(rows, id)
            > 0,
    decreases rows.len(),
{
    if rows.len() > 0 {
        let front = rows.drop_last();
        lemma_enabled_here_or_elsewhere(front, id);
        if is_enabled(front, id) {
            let i = choose|i: int|
                0 <= i < front.len() && (#[trigger] front[i]).id == id && !front[i].disabled;
            assert(rows[i] == front[i]);
        }
        assert(rows[rows.len() - 1] == rows.last());
    }
}

/// The reply to a change of a key, with the number of keys that it changed.
pub open spec fn key_change_reply(
    id: i64,
    outcome: TaskOutcome<usize>,
    done: Seq<char>,
) -> ReplyView {
    match outcome {
        TaskOutcome::Done(n) => if n == 0 {
            replies::failure_view(404, "API Key #"@ + text::signed_decimal(id as int) + " 不存在"@)
        } else {
            replies::success_view("API Key #"@ + text::signed_decimal(id as int) + done)
        },
        TaskOutcome::Failed(e) => replies::failure_view(
            if replies::is_refusal(e@) {
                400
            } else {
                500
            },
            e@,
        ),
        TaskOutcome::Panicked(e) => replies::panic_view(e@),
    }
}

fn change_key(id: i64, outcome: &TaskOutcome<usize>, done: &str) -> (r: AdminReply)
    ensures
        r@ == key_change_reply(id, *outcome, done@),
{
    match outcome {
        TaskOutcome::Done(n) => {
            if *n == 0 {
                AdminReply::Failure {
                    status: 404,
                    error: replies::numbered("API Key #", id, " 不存在"),
                }
            } else {
                AdminReply::Success { message: replies::numbered("API Key #", id, done) }
            }
        },
        TaskOutcome::Failed(e) => {
            if replies::refuses(e.as_str()) {
                replies::failure(400, e.as_str())
            } else {
                replies::failure(500, e.as_str())
            }
        },
        TaskOutcome::Panicked(e) => replies::panicked(e.as_str()),
    }
}

/// The reply to the removal of a key. The keys are to be read anew where it is a success.
pub fn delete_api_key_reply(id: i64, outcome: &TaskOutcome<usize>) -> (r: AdminReply)
    ensures
        r@ == key_change_reply(id, *outcome, " 已删除"@),
{
    change_key(id, outcome, " 已删除")
}

/// The reply to a key that was disabled or enabled. The keys are to be read anew where it is a
/// success.
pub fn set_api_key_disabled_reply(id: i64, disabled: bool, outcome: &TaskOutcome<usize>) -> (r:
    AdminReply)
    ensures
        r@ == key_change_reply(
            id,
            *outcome,
            if disabled {
                " 已禁用"@
            } else {
                " 已启用"@
            },
        ),
{
    if disabled {
        change_key(id, outcome, " 已禁用")
    } else {
        change_key(id, outcome, " 已启用")
    }
}

/// A refusal to leave no key is answered with the status of a bad request, not with that of a
/// fault of the gateway.
pub proof fn refusals_are_bad_requests(id: i64, error: String, done: Seq<char>)
    requires
        error@ == "至少保留一个 API Key"@ || error@ == "至少保留一个启用的 API Key"@,
    ensures
        key_change_reply(id, TaskOutcome::Failed(error), done) == replies::failure_view(
            400,
            error@,
        ),
{
    reveal_strlit("至少保留");
    reveal_strlit("至少保留一个 API Key");
    reveal_strlit("至少保留一个启用的 API Key");
    let head = "至少保留"@;
    let rest = error@.skip(4);
    assert(error@ =~= head + rest);
    text::lemma_bytes_of_concat(head, rest);
    let all = text::bytes_of(error@);
    let needle = text::bytes_of(head);
    assert(all.subrange(0, needle.len() as int) =~= needle);
    assert(text::occurs_at(all, needle, 0));
}

/// A group as it is listed, with its credentials.
#[derive(Debug, Clone)]
pub struct GroupItem {
    pub id: i64,
    pub name: String,
    pub created_at: i64,
    pub credential_ids: Vec<u64>,
}

/// The credentials that are assigned to a group, in the order of the assignments. An assignment is
/// a credential and its group.
pub open spec fn members_of(assignments: Seq<(i64, i64)>, group: i64) -> Seq<u64>
    decreases assignments.len(),
{
    if assignments.len() == 0 {
        Seq::empty()
    } else if assignments.last().1 == group {
        members_of(assignments.drop_last(), group).push(assignments.last().0 as u64)
    } else {
        members_of(assignments.drop_last(), group)
    }
}

impl GroupItem {
    /// The item shows the group.
    pub open spec fn shows(self, group: GroupRow, assignments: Seq<(i64, i64)>) -> bool {
        &&& self.id == group.id
        &&& self.name == group.name
        &&& self.created_at == group.created_at
        &&& self.credential_ids@ == members_of(assignments, group.id)
    }
}

/// The credentials that are assigned to a group.
fn group_members(assignments: &Vec<(i64, i64)>, group: i64) -> (r: Vec<u64>)
    ensures
        r@ == members_of(assignments@, group),
{
    let mut out: Vec<u64> = Vec::new();
    proof {
        assert(assignments@.take(0) =~= Seq::<(i64, i64)>::empty());
    }
    for i in 0..assignments.len()
        invariant
            out@ == members_of(assignments@.take(i as int), group),
    {
        proof {
            assert(assignments@.take(i + 1).drop_last() =~= assignments@.take(i as int));
        }
        if assignments[i].1 == group {
            out.push(
                #[verifier::truncate]
                (assignments[i].0 as u64),
            );
        }
    }
    proof {
        assert(assignments@.take(assignments@.len() as int) =~= assignments@);
    }
    out
}

/// The groups as they are listed, in order.
pub fn group_items(groups: &Vec<GroupRow>, assignments: &Vec<(i64, i64)>) -> (r: Vec<GroupItem>)
    ensures
        r@.len() == groups@.len(),
        forall|i: int|
            0 <= i < groups@.len() ==> (#[trigger] r@[i]).shows(groups@[i], assignments@),
{
    let mut out: Vec<GroupItem> = Vec::new();
    for i in 0..groups.len()
        invariant
            out@.len() == i,
            forall|j: int| 0 <= j < i ==> (#[trigger] out@[j]).shows(groups@[j], assignments@),
    {
        out.push(
            GroupItem {
                id: groups[i].id,
                name: groups[i].name.clone(),
                created_at: groups[i].created_at,
                credential_ids: group_members(assignments, groups[i].id),
            },
        );
    }
    out
}

/// The reply to a new group.
pub fn add_group_reply(outcome: &TaskOutcome<i64>) -> (r: AdminReply)
    ensures
        r@ == (match *outcome {
            TaskOutcome::Done(_) => replies::success_view("分组已创建"@),
            TaskOutcome::Failed(e) => if replies::is_conflict(e@) {
                replies::failure_view(409, "同名分组已存在"@)
            } else {
                replies::failure_view(500, e@)
            },
            TaskOutcome::Panicked(e) => replies::panic_view(e@),
        }),
{
    match outcome {
        TaskOutcome::Done(_) => replies::success("分组已创建"),
        TaskOutcome::Failed(e) => {
            if replies::conflicts(e.as_str()) {
                replies::failure(409, "同名分组已存在")
            } else {
                replies::failure(500, e.as_str())
            }
        },
        TaskOutcome::Panicked(e) => replies::panicked(e.as_str()),
    }
}

/// The reply to a group that is not there.
pub open spec fn no_group(id: i64) -> ReplyView {
    replies::failure_view(404, "分组 #"@ + text::signed_decimal(id as int) + " 不存在"@)
}

/// The reply to a change of the name of a group, with the number of groups that it changed.
pub fn rename_group_reply(id: i64, outcome: &TaskOutcome<usize>) -> (r: AdminReply)
    ensures
        r@ == (match *outcome {
            TaskOutcome::Done(n) => if n == 0 {
                no_group(id)
            } else {
                replies::success_view("分组已重命名"@)
            },
            TaskOutcome::Failed(e) => replies::failure_view(
                if replies::is_conflict(e@) {
                    409
                } else {
                    500
                },
                e@,
            ),
            TaskOutcome::Panicked(e) => replies::panic_view(e@),
        }),
{
    match outcome {
        TaskOutcome::Done(n) => {
            if *n == 0 {
                AdminReply::Failure { status: 404, error: replies::numbered("分组 #", id, " 不存在") }
            } else {
                replies::success("分组已重命名")
            }
        },
        TaskOutcome::Failed(e) => {
            if replies::conflicts(e.as_str()) {
                replies::failure(409, e.as_str())
            } else {
                replies::failure(500, e.as_str())
            }
        },
        TaskOutcome::Panicked(e) => replies::panicked(e.as_str()),
    }
}

/// The reply to the removal of a group, with the number of groups that were removed.
pub fn delete_group_reply(id: i64, outcome: &TaskOutcome<usize>) -> (r: AdminReply)
    ensures
        r@ == (match *outcome {
            TaskOutcome::Done(n) => if n == 0 {
                no_group(id)
            } else {
                replies::success_view("分组已删除"@)
            },
            TaskOutcome::Failed(e) => replies::failure_view(500, e@),
            TaskOutcome::Panicked(e) => replies::panic_view(e@),
        }),
{
    match outcome {
        TaskOutcome::Done(n) => {
            if *n == 0 {
                AdminReply::Failure { status: 404, error: replies::numbered("分组 #", id, " 不存在") }
            } else {
                replies::success("分组已删除")
            }
        },
        TaskOutcome::Failed(e) => replies::failure(500, e.as_str()),
        TaskOutcome::Panicked(e) => replies::panicked(e.as_str()),
    }
}

/// The reply to an assignment to a group that may not be there.
pub open spec fn assignment_failure(error: Seq<char>) -> ReplyView {
    replies::failure_view(
        if replies::is_dangling(error) {
            400
        } else {
            500
        },
        error,
    )
}

fn failed_assignment(error: &str) -> (r: AdminReply)
    ensures
        r@ == assignment_failure(error@),
{
    if replies::dangles(error) {
        replies::failure(400, error)
    } else {
        replies::failure(500, error)
    }
}

/// The reply to the assignment of a credential to a group.
pub fn set_credential_group_reply(outcome: &TaskOutcome<()>) -> (r: AdminReply)
    ensures
        r@ == (match *outcome {
            TaskOutcome::Done(_) => replies::success_view("凭据分组已更新"@),
            TaskOutcome::Failed(e) => assignment_failure(e@),
            TaskOutcome::Panicked(e) => replies::panic_view(e@),
        }),
{
    match outcome {
        TaskOutcome::Done(_) => replies::success("凭据分组已更新"),
        TaskOutcome::Failed(e) => failed_assignment(e.as_str()),
        TaskOutcome::Panicked(e) => replies::panicked(e.as_str()),
    }
}

/// The reply to the binding of a key to a group, with the number of keys that it changed.
pub fn set_api_key_group_reply(id: i64, outcome: &TaskOutcome<usize>) -> (r: AdminReply)
    ensures
        r@ == (match *outcome {
            TaskOutcome::Done(n) => if n == 0 {
                replies::failure_view(
                    404,
                    "API Key #"@ + text::signed_decimal(id as int) + " 不存在"@,
                )
            } else {
                replies::success_view("API Key 分组绑定已更新"@)
            },
            TaskOutcome::Failed(e) => assignment_failure(e@),
            TaskOutcome::Panicked(e) => replies::panic_view(e@),
        }),
{
    match outcome {
        TaskOutcome::Done(n) => {
            if *n == 0 {
                AdminReply::Failure {
                    status: 404,
                    error: replies::numbered("API Key #", id, " 不存在"),
                }
            } else {
                replies::success("API Key 分组绑定已更新")
            }
        },
        TaskOutcome::Failed(e) => failed_assignment(e.as_str()),
        TaskOutcome::Panicked(e) => replies::panicked(e.as_str()),
    }
}

/// What is asked of the request log.
#[derive(Debug, Clone)]
pub struct ListRequestsQuery {
    pub limit: Option<usize>,
    pub offset: Option<usize>,
    pub status: Option<String>,
    pub account_id: Option<String>,
}

/// The query of the request log: fifty requests unless another number is asked for, and never more
/// than five hundred.
pub fn list_query(params: ListRequestsQuery) -> (r: ListQuery)
    ensures
        r.limit == (match params.limit {
            Some(n) => if n <= 500 {
                n
            } else {
                500
            },
            None => 50,
        }),
        r.offset == (match params.offset {
            Some(n) => n,
            None => 0,
        }),
        r.status == params.status,
        r.account_id == params.account_id,
{
    let limit: usize = match params.limit {
        Some(n) => {
            if n <= 500 {
                n
            } else {
                500
            }
        },
        None => 50,
    };
    let offset: usize = match params.offset {
        Some(n) => n,
        None => 0,
    };
    ListQuery { limit, offset, status: params.status, account_id: params.account_id }
}

/// The reply where requests are not logged.
pub fn log_disabled_reply() -> (r: AdminReply)
    ensures
        r@ == replies::failure_view(503, "请求日志未启用"@),
{
    replies::failure(503, "请求日志未启用")
}

/// The reply where a request is not in the log.
pub fn no_request_reply(id: &str) -> (r: AdminReply)
    ensures
        r@ == replies::failure_view(404, "请求 "@ + id@ + " 不存在"@),
{
    let mut error = "请求 ".to_string();
    error.append(id);
    error.append(" 不存在");
    AdminReply::Failure { status: 404, error }
}

/// The reply to a query that gave no rows: `None` where it gave some.
pub fn query_failure<T>(outcome: &TaskOutcome<T>) -> (r: Option<AdminReply>)
    ensures
        match (r, *outcome) {
            (None, TaskOutcome::Done(_)) => true,
            (Some(reply), TaskOutcome::Failed(e)) => reply@ == replies::failure_view(500, e@),
            (Some(reply), TaskOutcome::Panicked(e)) => reply@ == replies::panic_view(e@),
            _ => false,
        },
{
    match outcome {
        TaskOutcome::Done(_) => None,
        TaskOutcome::Failed(e) => Some(replies::failure(500, e.as_str())),
        TaskOutcome::Panicked(e) => Some(replies::panicked(e.as_str())),
    }
}

/// How many requests a credential is to serve at a time.
#[derive(Debug, Clone, Copy)]
pub struct SetConcurrencyRequest {
    pub max_concurrency: u32,
}

/// The refusal of a number that is not from 1 to 100, `None` where it is.
pub fn concurrency_refusal(request: &SetConcurrencyRequest) -> (r: Option<AdminReply>)
    ensures
        match r {
            None => 1 <= request.max_concurrency <= 100,
            Some(reply) => !(1 <= request.max_concurrency <= 100) && reply@
                == replies::failure_view(400, "max_concurrency 必须在 1..=100 之间"@),
        },
{
    if request.max_concurrency == 0 || request.max_concurrency > 100 {
        Some(replies::failure(400, "max_concurrency 必须在 1..=100 之间"))
    } else {
        None
    }
}

/// A guard looks for another key that opens the gateway: one that is enabled and has another
/// identifier.
pub proof fn guards_look_for_another_open_key(rows: Seq<ApiKeyRow>, id: i64)
    ensures
        others_enabled(rows, id) > 0 <==> exists|i: int|
            0 <= i < rows.len() && !(#[trigger] rows[i]).disabled && rows[i].id != id,
    decreases rows.len(),
{
    if rows.len() > 0 {
        let front = rows.drop_last();
        guards_look_for_another_open_key(front, id);
        if exists|i: int| 0 <= i < front.len() && !(#[trigger] front[i]).disabled && front[i].id != id {
            let i = choose|i: int|
                0 <= i < front.len() && !(#[trigger] front[i]).disabled && front[i].id != id;
            assert(rows[i] == front[i]);
        }
        if exists|i: int| 0 <= i < rows.len() && !(#[trigger] rows[i]).disabled && rows[i].id != id {
            let i = choose|i: int|
                0 <= i < rows.len() && !(#[trigger] rows[i]).disabled && rows[i].id != id;
            if i < front.len() {
                assert(front[i] == rows[i]);
            }
        }
        assert(rows[rows.len() - 1] == rows.last());
    }
}

/// A key has to stay where it is the only one, or where it is enabled and every other one is
/// disabled.
pub proof fn the_last_open_key_stays(rows: Seq<ApiKeyRow>, id: i64)
    ensures
        rows.len() <= 1 ==> has_to_stay(rows, id),
        rows.len() > 1 ==> (has_to_stay(rows, id) <==> (exists|i: int|
            0 <= i < rows.len() && (#[trigger] rows[i]).id == id && !rows[i].disabled) && (forall|
            i: int,
        |
            0 <= i < rows.len() && (#[trigger] rows[i]).id != id ==> rows[i].disabled)),
{
    guards_look_for_another_open_key(rows, id);
}

/// A long key is shown by its first four and its last two characters, with three stars between
/// them; of a short one only the stars are shown.
pub proof fn masked_keys_show_their_ends(key: Seq<char>)
    ensures
        key.len() <= 8 ==> masked(key) == seq!['*', '*', '*'],
        key.len() > 8 ==> {
            &&& masked(key).len() == 9
            &&& forall|i: int| 0 <= i < 4 ==> #[trigger] masked(key)[i] == key[i]
            &&& masked(key)[4] == '*' && masked(key)[5] == '*' && masked(key)[6] == '*'
            &&& masked(key)[7] == key[key.len() - 2]
            &&& masked(key)[8] == key[key.len() - 1]
        },
{
    reveal_strlit("***");
    assert("***"@ =~= seq!['*', '*', '*']);
}

/// What is listed of a key is what its row says, but the key itself.
pub proof fn listed_keys_say_what_their_rows_say(item: ApiKeyItem, row: ApiKeyRow)
    requires
        item.shows(row),
    ensures
        item.id == row.id,
        item.label == row.label,
        item.created_at == row.created_at,
        item.disabled == row.disabled,
        item.group_id == row.group_id,
        row.key@.len() > 8 ==> item.masked@.len() == 9,
        row.key@.len() <= 8 ==> item.masked@ == "***"@,
{
    masked_keys_show_their_ends_only(row.key@, row.key@);
}

/// A credential is listed under the group that it is assigned to, and under no other.
pub proof fn groups_list_what_is_assigned(assignments: Seq<(i64, i64)>, group: i64, id: u64)
    ensures
        members_of(assignments, group).contains(id) <==> exists|i: int|
            0 <= i < assignments.len() && (#[trigger] assignments[i]).1 == group
                && assignments[i].0 as u64 == id,
    decreases assignments.len(),
{
    if assignments.len() > 0 {
        let front = assignments.drop_last();
        let last = assignments.last();
        groups_list_what_is_assigned(front, group, id);
        let all = members_of(assignments, group);
        let before = members_of(front, group);
        if all.contains(id) {
            let k = all.index_of(id);
            assert(all[k] == id);
            if k < before.len() {
                assert(before[k] == id);
                assert(before.contains(id));
                let i = choose|i: int|
                    0 <= i < front.len() && (#[trigger] front[i]).1 == group && front[i].0 as u64
                        == id;
                assert(assignments[i] == front[i]);
            } else {
                assert(assignments[front.len() as int] == last);
            }
        }
        if exists|i: int|
            0 <= i < assignments.len() && (#[trigger] assignments[i]).1 == group
                && assignments[i].0 as u64 == id {
            let i = choose|i: int|
                0 <= i < assignments.len() && (#[trigger] assignments[i]).1 == group
                    && assignments[i].0 as u64 == id;
            if i < front.len() {
                assert(front[i] == assignments[i]);
                let k = before.index_of(id);
                assert(all[k] == id);
            } else {
                assert(all[before.len() as int] == id);
            }
        }
    }
}

/// What a change of a key is answered: with success where a key was changed, with 404 where there
/// is none, with 400 where the change was refused, and with 500 where it failed; and always with
/// what went wrong.
pub proof fn key_changes_are_answered(
    id: i64,
    n: usize,
    error: String,
    done: Seq<char>,
)
    ensures
        n > 0 ==> (key_change_reply(id, TaskOutcome::Done(n), done) matches ReplyView::Success {
            message,
        } && message == "API Key #"@ + text::signed_decimal(id as int) + done),
        (key_change_reply(id, TaskOutcome::Done(0), done) matches ReplyView::Failure {
            status,
            error: e,
        } && status == 404 && e == "API Key #"@ + text::signed_decimal(id as int) + " 不存在"@),
        (key_change_reply(id, TaskOutcome::Failed(error), done) matches ReplyView::Failure {
            status,
            error: e,
        } && e == error@ && (status == 400 <==> text::contains_bytes(
            text::bytes_of(error@),
            text::bytes_of("至少保留"@),
        )) && (status == 400 || status == 500)),
        (key_change_reply(id, TaskOutcome::Panicked(error), done) matches ReplyView::Failure {
            status,
            error: e,
        } && status == 500 && e == "task panic: "@ + error@),
{
}

/// What a new key is answered: with success, with 409 where the key is there already, and else with
/// 500 and what went wrong.
pub proof fn new_keys_are_answered(id: i64, error: String)
    ensures
        added_key_reply(TaskOutcome::Done(id)) is Success,
        (added_key_reply(TaskOutcome::Failed(error)) matches ReplyView::Failure {
            status,
            error: e,
        } && {
            let known = text::contains_bytes(text::bytes_of(error@), text::bytes_of("UNIQUE"@))
                || text::contains_bytes(text::bytes_of(error@), text::bytes_of("constraint"@));
            &&& known ==> status == 409 && e == "该 API Key 已存在"@
            &&& !known ==> status == 500 && e == "持久化失败: "@ + error@
        }),
{
}

/// What an assignment to a group is answered that failed: with 400 where there is no such group or
/// credential, and else with 500; and with what went wrong.
pub proof fn failed_assignments_are_answered(error: Seq<char>)
    ensures
        (assignment_failure(error) matches ReplyView::Failure { status, error: e } && e == error && {
            let dangling = text::contains_bytes(
                text::bytes_of(error),
                text::bytes_of("FOREIGN KEY"@),
            ) || text::contains_bytes(text::bytes_of(error), text::bytes_of("constraint"@));
            &&& dangling ==> status == 400
            &&& !dangling ==> status == 500
        }),
{
}

/// What was done to a credential is told with its number, and with the new value where there is
/// one.
pub proof fn messages_name_the_credential(id: nat, action: CredentialAction)
    ensures
        ({
            let m = credential_message_model(id, action);
            let head = "凭据 #"@ + text::decimal(id);
            &&& action matches CredentialAction::SetDisabled(d) ==> m == head + (if d {
                " 已禁用"@
            } else {
                " 已启用"@
            })
            &&& action matches CredentialAction::SetPriority(p) ==> m == head + " 优先级已设置为 "@
                + text::decimal(p as nat)
            &&& action matches CredentialAction::SetConcurrency(n) ==> m == head
                + " 并发上限已设为 "@ + text::decimal(n as nat)
            &&& action is Reset ==> m == head + " 失败计数已重置并重新启用"@
            &&& action is Delete ==> m == head + " 已删除"@
            &&& action is RefreshToken ==> m == head + " Token 已强制刷新"@
        }),
{
    let m = credential_message_model(id, action);
    let head = "凭据 #"@ + text::decimal(id);
    match action {
        CredentialAction::SetPriority(p) => {
            assert(m =~= head + " 优先级已设置为 "@ + text::decimal(p as nat));
        },
        CredentialAction::SetConcurrency(n) => {
            assert(m =~= head + " 并发上限已设为 "@ + text::decimal(n as nat));
        },
        _ => {},
    }
}

} // verus!
