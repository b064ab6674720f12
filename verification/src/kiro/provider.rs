//! Decisions of a call to the service: which credential is tried next, what counts as a failure
//! of a credential, when to wait and when to give up.
//!
//! [`RetryState`] decides; the caller performs each [`RetryAction`] and reports what came of it.

use std::collections::HashSet;

use vstd::prelude::*;
use vstd::string::*;

use crate::json;
use crate::json::Json;
use crate::json::JsonView;
use crate::model::tuning::RetryConfig;
use crate::text;

verus! {

broadcast use vstd::std_specs::hash::group_hash_axioms;

/// What a call is for.
#[derive(Debug, Clone, Copy, PartialEq, Eq, Structural)]
pub enum CallKind {
    /// An answer of the model, streamed or not.
    Api { stream: bool },
    /// A call of a tool server.
    Mcp,
}

/// The credential that a call was made with.
#[derive(Debug, Clone)]
pub struct Account {
    pub id: u64,
    pub email: Option<String>,
    pub subscription_title: Option<String>,
    /// The endpoint that the credential asks for.
    pub endpoint: Option<String>,
}

/// A reply of the service. The body of a successful one is not read.
#[derive(Debug, Clone)]
pub struct Reply {
    pub status: u16,
    /// The status as it is shown.
    pub status_text: String,
    pub body: String,
    /// The body says that the monthly quota of the credential is used up.
    pub monthly_limit: bool,
    /// The body says that the token of the credential is not valid.
    pub token_invalid: bool,
}

/// A call that failed, with the account of the last attempt.
#[derive(Debug, Clone)]
pub struct UpstreamCallError {
    pub credential_id: Option<u64>,
    pub account_id: Option<String>,
    pub account_label: Option<String>,
    pub http_status: Option<u16>,
    pub attempts: u32,
    pub message: String,
}

/// Why a call failed.
#[derive(Debug, Clone)]
pub enum CallFailure {
    Upstream(UpstreamCallError),
    Plain(String),
}

/// A call that succeeded.
#[derive(Debug, Clone)]
pub struct CallSuccess {
    pub credential_id: u64,
    pub account_id: String,
    pub account_label: Option<String>,
    /// The number of attempts, this one included in it.
    pub attempts: u32,
    pub http_status: u16,
}

/// What is waited for.
#[derive(Debug, Clone)]
pub enum RetryPhase {
    /// A credential.
    Credential,
    /// The reply to a request that was sent with this account.
    Reply(Account),
    /// Whether credentials are left, after a report on the account.
    Availability { account: Account, reply: Reply, limited: bool },
    /// The end of a report whose result does not matter.
    Reported,
    /// Whether the token of the account could be renewed.
    Refresh { account: Account, reply: Reply },
    /// The end of a delay.
    Delay,
    /// Nothing: the call is over.
    Over,
}

/// What happened.
#[derive(Debug, Clone)]
pub enum RetryEvent {
    Acquired(Account),
    AcquireFailed(String),
    /// No HTTP client could be made for the account.
    ClientFailed(String),
    SendFailed(String),
    Replied(Reply),
    /// A report on a credential was made; the flag says whether credentials are left.
    Reported { has_available: bool },
    Refreshed { ok: bool },
    Waited,
}

/// What is to be done next.
#[derive(Debug, Clone)]
pub enum RetryAction {
    /// Acquire a credential.
    Acquire,
    /// Send the request with the acquired credential through an endpoint.
    Send { endpoint: String },
    ReportFailure { id: u64 },
    ReportQuotaExhausted { id: u64 },
    ReportRateLimited { id: u64 },
    ForceRefresh { id: u64 },
    /// Wait for the delay that belongs to this attempt.
    Wait { attempt: usize },
    /// Report the success of the credential and return the reply.
    Succeed(CallSuccess),
    /// Return the error.
    Fail(CallFailure),
}

/// The decisions of one call.
pub struct RetryState {
    kind: CallKind,
    max_retries: usize,
    per_credential: u32,
    attempt: usize,
    /// The credential of each request that was sent.
    sent: Vec<u64>,
    endpoints: Vec<String>,
    default_endpoint: String,
    force_refreshed: HashSet<u64>,
    last_error: Option<CallFailure>,
    phase: RetryPhase,
}

pub struct AccountView {
    pub id: u64,
    pub email: Option<Seq<char>>,
    pub title: Option<Seq<char>>,
    pub endpoint: Option<Seq<char>>,
}

pub struct ReplyView {
    pub status: int,
    pub status_text: Seq<char>,
    pub body: Seq<char>,
    pub monthly_limit: bool,
    pub token_invalid: bool,
}

pub struct UpstreamErrorView {
    pub credential_id: Option<u64>,
    pub account_id: Option<Seq<char>>,
    pub account_label: Option<Seq<char>>,
    pub http_status: Option<int>,
    pub attempts: u32,
    pub message: Seq<char>,
}

pub enum CallFailureView {
    Upstream(UpstreamErrorView),
    Plain(Seq<char>),
}

pub struct CallSuccessView {
    pub credential_id: u64,
    pub account_id: Seq<char>,
    pub account_label: Option<Seq<char>>,
    pub attempts: u32,
    pub http_status: int,
}

pub enum PhaseView {
    Credential,
    Reply(AccountView),
    Availability { account: AccountView, reply: ReplyView, limited: bool },
    Reported,
    Refresh { account: AccountView, reply: ReplyView },
    Delay,
    Over,
}

pub enum ActionView {
    Acquire,
    Send { endpoint: Seq<char> },
    ReportFailure { id: u64 },
    ReportQuotaExhausted { id: u64 },
    ReportRateLimited { id: u64 },
    ForceRefresh { id: u64 },
    Wait { attempt: int },
    Succeed(CallSuccessView),
    Fail(CallFailureView),
}

pub struct RetryView {
    pub kind: CallKind,
    pub max_retries: int,
    pub per_credential: int,
    pub attempt: int,
    pub sent: Seq<u64>,
    pub endpoints: Seq<Seq<char>>,
    pub default_endpoint: Seq<char>,
    pub force_refreshed: Set<u64>,
    pub last_error: Option<CallFailureView>,
    pub phase: PhaseView,
}

pub open spec fn text_of(s: Option<String>) -> Option<Seq<char>> {
    match s {
        Some(t) => Some(t@),
        None => None,
    }
}

impl View for Account {
    type V = AccountView;

    open spec fn view(&self) -> AccountView {
        AccountView {
            id: self.id,
            email: text_of(self.email),
            title: text_of(self.subscription_title),
            endpoint: text_of(self.endpoint),
        }
    }
}

impl View for Reply {
    type V = ReplyView;

    open spec fn view(&self) -> ReplyView {
        ReplyView {
            status: self.status as int,
            status_text: self.status_text@,
            body: self.body@,
            monthly_limit: self.monthly_limit,
            token_invalid: self.token_invalid,
        }
    }
}

impl View for CallFailure {
    type V = CallFailureView;

    open spec fn view(&self) -> CallFailureView {
        match *self {
            CallFailure::Upstream(e) => CallFailureView::Upstream(
                UpstreamErrorView {
                    credential_id: e.credential_id,
                    account_id: text_of(e.account_id),
                    account_label: text_of(e.account_label),
                    http_status: match e.http_status {
                        Some(n) => Some(n as int),
                        None => None,
                    },
                    attempts: e.attempts,
                    message: e.message@,
                },
            ),
            CallFailure::Plain(m) => CallFailureView::Plain(m@),
        }
    }
}

impl View for CallSuccess {
    type V = CallSuccessView;

    open spec fn view(&self) -> CallSuccessView {
        CallSuccessView {
            credential_id: self.credential_id,
            account_id: self.account_id@,
            account_label: text_of(self.account_label),
            attempts: self.attempts,
            http_status: self.http_status as int,
        }
    }
}

impl View for RetryPhase {
    type V = PhaseView;

    open spec fn view(&self) -> PhaseView {
        match *self {
            RetryPhase::Credential => PhaseView::Credential,
            RetryPhase::Reply(a) => PhaseView::Reply(a@),
            RetryPhase::Availability { account, reply, limited } => PhaseView::Availability {
                account: account@,
                reply: reply@,
                limited,
            },
            RetryPhase::Reported => PhaseView::Reported,
            RetryPhase::Refresh { account, reply } => PhaseView::Refresh {
                account: account@,
                reply: reply@,
            },
            RetryPhase::Delay => PhaseView::Delay,
            RetryPhase::Over => PhaseView::Over,
        }
    }
}

impl View for RetryAction {
    type V = ActionView;

    open spec fn view(&self) -> ActionView {
        match *self {
            RetryAction::Acquire => ActionView::Acquire,
            RetryAction::Send { endpoint } => ActionView::Send { endpoint: endpoint@ },
            RetryAction::ReportFailure { id } => ActionView::ReportFailure { id },
            RetryAction::ReportQuotaExhausted { id } => ActionView::ReportQuotaExhausted { id },
            RetryAction::ReportRateLimited { id } => ActionView::ReportRateLimited { id },
            RetryAction::ForceRefresh { id } => ActionView::ForceRefresh { id },
            RetryAction::Wait { attempt } => ActionView::Wait { attempt: attempt as int },
            RetryAction::Succeed(s) => ActionView::Succeed(s@),
            RetryAction::Fail(f) => ActionView::Fail(f@),
        }
    }
}

pub open spec fn optional_failure(f: Option<CallFailure>) -> Option<CallFailureView> {
    match f {
        Some(e) => Some(e@),
        None => None,
    }
}

impl View for RetryState {
    type V = RetryView;

    closed spec fn view(&self) -> RetryView {
        RetryView {
            kind: self.kind,
            max_retries: self.max_retries as int,
            per_credential: self.per_credential as int,
            attempt: self.attempt as int,
            sent: self.sent@,
            endpoints: text::texts(self.endpoints@),
            default_endpoint: self.default_endpoint@,
            force_refreshed: self.force_refreshed@,
            last_error: optional_failure(self.last_error),
            phase: self.phase@,
        }
    }
}

/// How the account of a credential is named: by its mail address, else by its number.
pub open spec fn account_name(a: AccountView) -> Seq<char> {
    match a.email {
        Some(e) => e,
        None => "kiro-"@ + text::decimal(a.id as nat),
    }
}

/// How the kind of a call is named in messages.
pub open spec fn call_name(kind: CallKind) -> Seq<char> {
    match kind {
        CallKind::Api { stream } => if stream {
            "流式 API 请求失败"@
        } else {
            "非流式 API 请求失败"@
        },
        CallKind::Mcp => "MCP 请求失败"@,
    }
}

/// A message on a reply: the call, a remark, the status and the body.
pub open spec fn reply_message(kind: CallKind, remark: Seq<char>, reply: ReplyView) -> Seq<char> {
    call_name(kind) + remark + ": "@ + reply.status_text + " "@ + reply.body
}

/// The error of an attempt. Calls of the model say which account was used.
pub open spec fn attempt_error(
    st: RetryView,
    account: AccountView,
    http_status: Option<int>,
    message: Seq<char>,
) -> CallFailureView {
    match st.kind {
        CallKind::Api { .. } => CallFailureView::Upstream(
            UpstreamErrorView {
                credential_id: Some(account.id),
                account_id: Some(account_name(account)),
                account_label: account.title,
                http_status,
                attempts: (st.attempt + 1) as u32,
                message,
            },
        ),
        CallKind::Mcp => CallFailureView::Plain(message),
    }
}

/// The error of an attempt that got this reply.
pub open spec fn reply_error(st: RetryView, account: AccountView, remark: Seq<char>, reply: ReplyView) -> CallFailureView {
    attempt_error(st, account, Some(reply.status), reply_message(st.kind, remark, reply))
}

/// The error of a call that was never tried.
pub open spec fn gave_up(st: RetryView) -> CallFailureView {
    CallFailureView::Plain(
        call_name(st.kind) + "：已达到最大重试次数（"@ + text::decimal(st.max_retries as nat)
            + "次）"@,
    )
}

/// The error with which a call ends when no attempt is left.
pub open spec fn final_error(st: RetryView) -> CallFailureView {
    match st.last_error {
        Some(e) => e,
        None => gave_up(st),
    }
}

pub open spec fn over(st: RetryView, action: ActionView) -> (RetryView, ActionView) {
    (RetryView { phase: PhaseView::Over, ..st }, action)
}

/// The next attempt, or the end where none is left.
pub open spec fn next_attempt(st: RetryView) -> (RetryView, ActionView) {
    if st.attempt + 1 < st.max_retries {
        (
            RetryView { attempt: st.attempt + 1, phase: PhaseView::Credential, ..st },
            ActionView::Acquire,
        )
    } else {
        over(
            RetryView { attempt: st.max_retries, last_error: None, ..st },
            ActionView::Fail(final_error(st)),
        )
    }
}

/// The next attempt after a delay, or the end where none is left.
pub open spec fn delayed_attempt(st: RetryView) -> (RetryView, ActionView) {
    if st.attempt + 1 < st.max_retries {
        (RetryView { phase: PhaseView::Delay, ..st }, ActionView::Wait { attempt: st.attempt })
    } else {
        next_attempt(st)
    }
}

pub open spec fn with_error(st: RetryView, e: CallFailureView) -> RetryView {
    RetryView { last_error: Some(e), ..st }
}

/// The endpoint of an account: the one that it asks for, else the default one.
pub open spec fn endpoint_name(st: RetryView, account: AccountView) -> Seq<char> {
    match account.endpoint {
        Some(e) => e,
        None => st.default_endpoint,
    }
}

/// How often `id` occurs.
pub open spec fn times(ids: Seq<u64>, id: u64) -> int
    decreases ids.len(),
{
    if ids.len() == 0 {
        0
    } else {
        times(ids.drop_last(), id) + (if ids.last() == id {
            1int
        } else {
            0
        })
    }
}

/// A credential is there. One that was used as often as it may be gets no further request.
pub open spec fn on_acquired(st: RetryView, account: AccountView) -> (RetryView, ActionView) {
    let name = endpoint_name(st, account);
    if st.endpoints.contains(name) {
        if times(st.sent, account.id) < st.per_credential {
            (
                RetryView {
                    phase: PhaseView::Reply(account),
                    sent: st.sent.push(account.id),
                    ..st
                },
                ActionView::Send { endpoint: name },
            )
        } else {
            next_attempt(st)
        }
    } else {
        (
            RetryView {
                phase: PhaseView::Reported,
                last_error: Some(CallFailureView::Plain("未知端点: "@ + name)),
                ..st
            },
            ActionView::ReportFailure { id: account.id },
        )
    }
}

/// The request could not be sent. That is no fault of the credential.
pub open spec fn on_send_failed(st: RetryView, account: AccountView, message: Seq<char>) -> (
    RetryView,
    ActionView,
) {
    delayed_attempt(
        with_error(
            st,
            match st.kind {
                CallKind::Api { .. } => attempt_error(
                    st,
                    account,
                    None,
                    "API 请求发送失败: "@ + message,
                ),
                CallKind::Mcp => CallFailureView::Plain(message),
            },
        ),
    )
}

/// What a reply is taken for.
pub enum ReplyClass {
    Success,
    /// The quota of the credential is used up.
    Quota,
    /// The request itself is at fault: no other attempt can help.
    BadRequest,
    /// The credential was refused.
    Refused,
    /// The credential is used too often.
    Limited,
    /// The service is at fault, for the moment.
    Transient,
}

pub open spec fn reply_class(kind: CallKind, reply: ReplyView) -> ReplyClass {
    let s = reply.status;
    if 200 <= s < 300 {
        ReplyClass::Success
    } else if s == 402 && reply.monthly_limit {
        ReplyClass::Quota
    } else if s == 400 {
        ReplyClass::BadRequest
    } else if s == 401 || s == 403 {
        ReplyClass::Refused
    } else if s == 429 && kind is Api {
        ReplyClass::Limited
    } else if s == 408 || s == 429 || 500 <= s < 600 {
        ReplyClass::Transient
    } else if 400 <= s < 500 {
        ReplyClass::BadRequest
    } else {
        ReplyClass::Transient
    }
}

/// A reply is there.
pub open spec fn on_reply(st: RetryView, account: AccountView, reply: ReplyView) -> (
    RetryView,
    ActionView,
) {
    match reply_class(st.kind, reply) {
        ReplyClass::Success => over(
            st,
            ActionView::Succeed(
                CallSuccessView {
                    credential_id: account.id,
                    account_id: account_name(account),
                    account_label: account.title,
                    attempts: (st.attempt + 1) as u32,
                    http_status: reply.status,
                },
            ),
        ),
        ReplyClass::Quota => (
            RetryView {
                phase: PhaseView::Availability { account, reply, limited: false },
                ..st
            },
            ActionView::ReportQuotaExhausted { id: account.id },
        ),
        ReplyClass::BadRequest => over(
            st,
            ActionView::Fail(reply_error(st, account, ""@, reply)),
        ),
        ReplyClass::Refused => if reply.token_invalid && !st.force_refreshed.contains(account.id) {
            (
                RetryView {
                    phase: PhaseView::Refresh { account, reply },
                    force_refreshed: st.force_refreshed.insert(account.id),
                    ..st
                },
                ActionView::ForceRefresh { id: account.id },
            )
        } else {
            (
                RetryView {
                    phase: PhaseView::Availability { account, reply, limited: false },
                    ..st
                },
                ActionView::ReportFailure { id: account.id },
            )
        },
        ReplyClass::Limited => (
            RetryView {
                phase: PhaseView::Availability { account, reply, limited: true },
                ..st
            },
            ActionView::ReportRateLimited { id: account.id },
        ),
        ReplyClass::Transient => delayed_attempt(
            with_error(st, reply_error(st, account, ""@, reply)),
        ),
    }
}

/// The credential was reported: another one is tried where one is left.
pub open spec fn on_reported(
    st: RetryView,
    account: AccountView,
    reply: ReplyView,
    limited: bool,
    has_available: bool,
) -> (RetryView, ActionView) {
    if has_available {
        next_attempt(with_error(st, reply_error(st, account, ""@, reply)))
    } else {
        over(
            st,
            ActionView::Fail(
                reply_error(
                    st,
                    account,
                    if limited {
                        "（所有凭据已限流/禁用）"@
                    } else {
                        "（所有凭据已用尽）"@
                    },
                    reply,
                ),
            ),
        )
    }
}

/// The token of the credential was renewed, or not: then the credential counts as failed.
pub open spec fn on_refreshed(st: RetryView, account: AccountView, reply: ReplyView, ok: bool) -> (
    RetryView,
    ActionView,
) {
    if ok {
        next_attempt(st)
    } else {
        (
            RetryView {
                phase: PhaseView::Availability { account, reply, limited: false },
                ..st
            },
            ActionView::ReportFailure { id: account.id },
        )
    }
}

/// The event is one that is waited for.
pub open spec fn is_expected(phase: PhaseView, event: RetryEvent) -> bool {
    match phase {
        PhaseView::Credential => event is Acquired || event is AcquireFailed,
        PhaseView::Reply(_) => event is ClientFailed || event is SendFailed || event is Replied,
        PhaseView::Availability { .. } => event is Reported,
        PhaseView::Reported => event is Reported,
        PhaseView::Refresh { .. } => event is Refreshed,
        PhaseView::Delay => event is Waited,
        PhaseView::Over => false,
    }
}

/// What an event leads to. A call that is over stays so.
pub open spec fn retry_step(st: RetryView, event: RetryEvent) -> (RetryView, ActionView) {
    if st.phase is Over || st.attempt >= st.max_retries {
        over(RetryView { last_error: None, ..st }, ActionView::Fail(final_error(st)))
    } else {
        match (st.phase, event) {
            (PhaseView::Credential, RetryEvent::Acquired(a)) => on_acquired(st, a@),
            (PhaseView::Credential, RetryEvent::AcquireFailed(m)) => next_attempt(
                with_error(st, CallFailureView::Plain(m@)),
            ),
            (PhaseView::Reply(_), RetryEvent::ClientFailed(m)) => over(
                st,
                ActionView::Fail(CallFailureView::Plain(m@)),
            ),
            (PhaseView::Reply(a), RetryEvent::SendFailed(m)) => on_send_failed(st, a, m@),
            (PhaseView::Reply(a), RetryEvent::Replied(r)) => on_reply(st, a, r@),
            (
                PhaseView::Availability { account, reply, limited },
                RetryEvent::Reported { has_available },
            ) => on_reported(st, account, reply, limited, has_available),
            (PhaseView::Refresh { account, reply }, RetryEvent::Refreshed { ok }) => on_refreshed(
                st,
                account,
                reply,
                ok,
            ),
            _ => next_attempt(st),
        }
    }
}

fn copy_text(s: &Option<String>) -> (r: Option<String>)
    ensures
        text_of(r) == text_of(*s),
{
    match s {
        Some(t) => Some(t.clone()),
        None => None,
    }
}

/// How the account of a credential is named.
pub fn account_id(account: &Account) -> (r: String)
    ensures
        r@ == account_name(account@),
{
    match &account.email {
        Some(e) => e.clone(),
        None => {
            let number = text::decimal_text(account.id);
            "kiro-".to_owned().concat(number.as_str())
        },
    }
}

/// How the kind of a call is named in messages.
fn name_of_call(kind: CallKind) -> (r: String)
    ensures
        r@ == call_name(kind),
{
    match kind {
        CallKind::Api { stream } => if stream {
            "流式 API 请求失败".to_owned()
        } else {
            "非流式 API 请求失败".to_owned()
        },
        CallKind::Mcp => "MCP 请求失败".to_owned(),
    }
}

/// A message on a reply.
fn message_on_reply(kind: CallKind, remark: &str, reply: &Reply) -> (r: String)
    ensures
        r@ == reply_message(kind, remark@, reply@),
{
    let mut s = name_of_call(kind);
    s.append(remark);
    s.append(": ");
    s.append(reply.status_text.as_str());
    s.append(" ");
    s.append(reply.body.as_str());
    s
}

/// The error of an attempt with an account.
pub fn upstream_err(
    account: &Account,
    http_status: Option<u16>,
    attempts: u32,
    message: String,
) -> (r: UpstreamCallError)
    ensures
        r.credential_id == Some(account.id),
        text_of(r.account_id) == Some(account_name(account@)),
        text_of(r.account_label) == account@.title,
        r.http_status == http_status,
        r.attempts == attempts,
        r.message@ == message@,
{
    UpstreamCallError {
        credential_id: Some(account.id),
        account_id: Some(account_id(account)),
        account_label: copy_text(&account.subscription_title),
        http_status,
        attempts,
        message,
    }
}

impl RetryState {
    fn attempts(&self) -> (r: u32)
        requires
            self@.attempt < usize::MAX,
        ensures
            r == (self@.attempt + 1) as u32,
    {
        #[verifier::truncate]
        ((self.attempt + 1) as u32)
    }

    fn error_of_attempt(
        &self,
        account: &Account,
        http_status: Option<u16>,
        message: String,
    ) -> (r: CallFailure)
        requires
            self@.attempt < usize::MAX,
        ensures
            r@ == attempt_error(
                self@,
                account@,
                match http_status {
                    Some(n) => Some(n as int),
                    None => None,
                },
                message@,
            ),
    {
        match self.kind {
            CallKind::Api { .. } => CallFailure::Upstream(
                upstream_err(account, http_status, self.attempts(), message),
            ),
            CallKind::Mcp => CallFailure::Plain(message),
        }
    }

    fn error_of_reply(&self, account: &Account, remark: &str, reply: &Reply) -> (r: CallFailure)
        requires
            self@.attempt < usize::MAX,
        ensures
            r@ == reply_error(self@, account@, remark@, reply@),
    {
        let message = message_on_reply(self.kind, remark, reply);
        self.error_of_attempt(account, Some(reply.status), message)
    }

    /// The error with which the call ends when no attempt is left.
    fn take_final_error(&mut self) -> (r: CallFailure)
        ensures
            r@ == final_error(old(self)@),
            final(self)@ == (RetryView { last_error: None, ..old(self)@ }),
    {
        let mut last: Option<CallFailure> = None;
        core::mem::swap(&mut last, &mut self.last_error);
        match last {
            Some(e) => e,
            None => {
                let mut m = name_of_call(self.kind);
                m.append("：已达到最大重试次数（");
                let n = text::decimal_text(self.max_retries as u64);
                m.append(n.as_str());
                m.append("次）");
                CallFailure::Plain(m)
            },
        }
    }

    /// Goes on with the next attempt, or ends the call.
    fn go_on(&mut self) -> (r: RetryAction)
        requires
            old(self)@.attempt < old(self)@.max_retries,
        ensures
            (final(self)@, r@) == next_attempt(old(self)@),
    {
        if self.attempt + 1 < self.max_retries {
            self.attempt = self.attempt + 1;
            self.phase = RetryPhase::Credential;
            RetryAction::Acquire
        } else {
            self.attempt = self.max_retries;
            self.phase = RetryPhase::Over;
            let e = self.take_final_error();
            RetryAction::Fail(e)
        }
    }

    /// Goes on after a delay, or ends the call.
    fn go_on_delayed(&mut self) -> (r: RetryAction)
        requires
            old(self)@.attempt < old(self)@.max_retries,
        ensures
            (final(self)@, r@) == delayed_attempt(old(self)@),
    {
        if self.attempt + 1 < self.max_retries {
            self.phase = RetryPhase::Delay;
            RetryAction::Wait { attempt: self.attempt }
        } else {
            self.go_on()
        }
    }
}

/// The least of two numbers.
pub open spec fn least(a: int, b: int) -> int {
    if a < b {
        a
    } else {
        b
    }
}

/// The number of attempts of a call: per credential and in all as they are configured.
pub open spec fn attempts_allowed(total_credentials: int, config: RetryConfig) -> int {
    least(
        total_credentials * config.max_retries_per_credential,
        config.max_total_retries as int,
    )
}

/// The state before the first attempt, and the first action.
pub open spec fn call_started(
    kind: CallKind,
    max_retries: int,
    per_credential: int,
    endpoints: Seq<Seq<char>>,
    default_endpoint: Seq<char>,
) -> (RetryView, ActionView) {
    let st = RetryView {
        kind,
        max_retries,
        per_credential,
        attempt: 0,
        sent: Seq::empty(),
        endpoints,
        default_endpoint,
        force_refreshed: Set::empty(),
        last_error: None,
        phase: PhaseView::Credential,
    };
    if max_retries > 0 {
        (st, ActionView::Acquire)
    } else {
        over(st, ActionView::Fail(gave_up(st)))
    }
}

impl RetryState {
    /// Begins a call with as many attempts as the configuration allows.
    pub fn start(
        kind: CallKind,
        total_credentials: usize,
        config: &RetryConfig,
        endpoints: Vec<String>,
        default_endpoint: String,
    ) -> (r: (RetryState, RetryAction))
        requires
            total_credentials * config.max_retries_per_credential <= usize::MAX,
        ensures
            (r.0@, r.1@) == call_started(
                kind,
                attempts_allowed(total_credentials as int, *config),
                config.max_retries_per_credential as int,
                text::texts(endpoints@),
                default_endpoint@,
            ),
    {
        let by_credential: usize = total_credentials * config.max_retries_per_credential as usize;
        let in_all: usize = config.max_total_retries as usize;
        let max_retries: usize = if by_credential < in_all {
            by_credential
        } else {
            in_all
        };
        let mut state = RetryState {
            kind,
            max_retries,
            per_credential: config.max_retries_per_credential,
            attempt: 0,
            sent: Vec::new(),
            endpoints,
            default_endpoint,
            force_refreshed: HashSet::new(),
            last_error: None,
            phase: RetryPhase::Credential,
        };
        if max_retries > 0 {
            (state, RetryAction::Acquire)
        } else {
            let e = state.take_final_error();
            state.phase = RetryPhase::Over;
            (state, RetryAction::Fail(e))
        }
    }

    /// How often the credential `id` was used.
    fn uses(&self, id: u64) -> (r: usize)
        ensures
            r == times(self@.sent, id),
            r <= self@.sent.len(),
    {
        let mut n: usize = 0;
        proof {
            assert(self.sent@.take(0) =~= Seq::<u64>::empty());
        }
        for i in 0..self.sent.len()
            invariant
                n == times(self.sent@.take(i as int), id),
                n <= i,
        {
            proof {
                assert(self.sent@.take(i + 1).drop_last() =~= self.sent@.take(i as int));
            }
            if self.sent[i] == id {
                n = n + 1;
            }
        }
        proof {
            assert(self.sent@.take(self.sent@.len() as int) =~= self.sent@);
        }
        n
    }

    /// A credential is there.
    fn acquired(&mut self, account: Account) -> (r: RetryAction)
        requires
            old(self)@.attempt < old(self)@.max_retries,
        ensures
            (final(self)@, r@) == on_acquired(old(self)@, account@),
    {
        let name: String = match &account.endpoint {
            Some(e) => e.clone(),
            None => self.default_endpoint.clone(),
        };
        if text::contains_text(&self.endpoints, name.as_str()) {
            if self.uses(account.id) >= self.per_credential as usize {
                return self.go_on();
            }
            self.sent.push(account.id);
            self.phase = RetryPhase::Reply(account);
            RetryAction::Send { endpoint: name }
        } else {
            self.phase = RetryPhase::Reported;
            self.last_error = Some(
                CallFailure::Plain("未知端点: ".to_owned().concat(name.as_str())),
            );
            RetryAction::ReportFailure { id: account.id }
        }
    }

    /// The request could not be sent.
    fn send_failed(&mut self, account: Account, message: String) -> (r: RetryAction)
        requires
            old(self)@.attempt < old(self)@.max_retries <= usize::MAX,
        ensures
            (final(self)@, r@) == on_send_failed(old(self)@, account@, message@),
    {
        let e = match self.kind {
            CallKind::Api { .. } => self.error_of_attempt(
                &account,
                None,
                "API 请求发送失败: ".to_owned().concat(message.as_str()),
            ),
            CallKind::Mcp => CallFailure::Plain(message),
        };
        self.last_error = Some(e);
        self.go_on_delayed()
    }

    /// A reply is there.
    fn replied(&mut self, account: Account, reply: Reply) -> (r: RetryAction)
        requires
            old(self)@.attempt < old(self)@.max_retries <= usize::MAX,
        ensures
            (final(self)@, r@) == on_reply(old(self)@, account@, reply@),
    {
        let s: u16 = reply.status;
        let id: u64 = account.id;
        let is_api: bool = match self.kind {
            CallKind::Api { .. } => true,
            CallKind::Mcp => false,
        };
        if 200 <= s && s < 300 {
            let success = CallSuccess {
                credential_id: id,
                account_id: account_id(&account),
                account_label: account.subscription_title,
                attempts: self.attempts(),
                http_status: s,
            };
            self.phase = RetryPhase::Over;
            RetryAction::Succeed(success)
        } else if s == 402 && reply.monthly_limit {
            self.phase = RetryPhase::Availability { account, reply, limited: false };
            RetryAction::ReportQuotaExhausted { id }
        } else if s == 400 {
            let e = self.error_of_reply(&account, "", &reply);
            self.phase = RetryPhase::Over;
            RetryAction::Fail(e)
        } else if s == 401 || s == 403 {
            if reply.token_invalid && !self.force_refreshed.contains(&id) {
                self.force_refreshed.insert(id);
                self.phase = RetryPhase::Refresh { account, reply };
                RetryAction::ForceRefresh { id }
            } else {
                self.phase = RetryPhase::Availability { account, reply, limited: false };
                RetryAction::ReportFailure { id }
            }
        } else if s == 429 && is_api {
            self.phase = RetryPhase::Availability { account, reply, limited: true };
            RetryAction::ReportRateLimited { id }
        } else if s == 408 || s == 429 || (500 <= s && s < 600) || s < 400 || s >= 500 {
            let e = self.error_of_reply(&account, "", &reply);
            self.last_error = Some(e);
            self.go_on_delayed()
        } else {
            let e = self.error_of_reply(&account, "", &reply);
            self.phase = RetryPhase::Over;
            RetryAction::Fail(e)
        }
    }

    /// The credential was reported.
    fn reported(
        &mut self,
        account: Account,
        reply: Reply,
        limited: bool,
        has_available: bool,
    ) -> (r: RetryAction)
        requires
            old(self)@.attempt < old(self)@.max_retries <= usize::MAX,
        ensures
            (final(self)@, r@) == on_reported(
                old(self)@,
                account@,
                reply@,
                limited,
                has_available,
            ),
    {
        if has_available {
            let e = self.error_of_reply(&account, "", &reply);
            self.last_error = Some(e);
            self.go_on()
        } else {
            let remark: &str = if limited {
                "（所有凭据已限流/禁用）"
            } else {
                "（所有凭据已用尽）"
            };
            let e = self.error_of_reply(&account, remark, &reply);
            self.phase = RetryPhase::Over;
            RetryAction::Fail(e)
        }
    }

    /// Takes what came of the last action and decides on the next one.
    pub fn step(&mut self, event: RetryEvent) -> (r: RetryAction)
        ensures
            (final(self)@, r@) == retry_step(old(self)@, event),
    {
        let ended: bool = match self.phase {
            RetryPhase::Over => true,
            _ => self.attempt >= self.max_retries,
        };
        if ended {
            self.phase = RetryPhase::Over;
            let e = self.take_final_error();
            return RetryAction::Fail(e);
        }
        let mut phase = RetryPhase::Over;
        core::mem::swap(&mut phase, &mut self.phase);
        match (phase, event) {
            (RetryPhase::Credential, RetryEvent::Acquired(account)) => self.acquired(account),
            (RetryPhase::Credential, RetryEvent::AcquireFailed(message)) => {
                self.last_error = Some(CallFailure::Plain(message));
                self.go_on()
            },
            (RetryPhase::Reply(_account), RetryEvent::ClientFailed(message)) => {
                self.phase = RetryPhase::Over;
                RetryAction::Fail(CallFailure::Plain(message))
            },
            (RetryPhase::Reply(account), RetryEvent::SendFailed(message)) => self.send_failed(
                account,
                message,
            ),
            (RetryPhase::Reply(account), RetryEvent::Replied(reply)) => self.replied(
                account,
                reply,
            ),
            (
                RetryPhase::Availability { account, reply, limited },
                RetryEvent::Reported { has_available },
            ) => self.reported(account, reply, limited, has_available),
            (RetryPhase::Refresh { account, reply }, RetryEvent::Refreshed { ok }) => {
                if ok {
                    self.go_on()
                } else {
                    let id: u64 = account.id;
                    self.phase = RetryPhase::Availability { account, reply, limited: false };
                    RetryAction::ReportFailure { id }
                }
            },
            _ => self.go_on(),
        }
    }
}

/// The member that a path of keys leads to.
pub open spec fn member_at(v: JsonView, path: Seq<Seq<char>>) -> Option<JsonView>
    decreases path.len(),
{
    if path.len() == 0 {
        Some(v)
    } else {
        match v.member(path[0]) {
            Some(next) => member_at(next, path.subrange(1, path.len() as int)),
            None => None,
        }
    }
}

/// The text that a path of keys leads to in the document of a request.
pub open spec fn request_text(document: Option<JsonView>, path: Seq<Seq<char>>) -> Option<Seq<char>> {
    match document {
        Some(v) => match member_at(v, path) {
            Some(m) => m.text(),
            None => None,
        },
        None => None,
    }
}

/// Where a request names its model.
pub open spec fn model_path() -> Seq<Seq<char>> {
    seq!["conversationState"@, "currentMessage"@, "userInputMessage"@, "modelId"@]
}

/// Where a request names its conversation.
pub open spec fn conversation_path() -> Seq<Seq<char>> {
    seq!["conversationState"@, "conversationId"@]
}

/// The model that the document of a request names.
pub fn model_of_document(document: &Json) -> (r: Option<String>)
    ensures
        text_of(r) == request_text(Some(document@), model_path()),
{
    proof {
        lemma_path4(
            document@,
            "conversationState"@,
            "currentMessage"@,
            "userInputMessage"@,
            "modelId"@,
        );
    }
    let state = match document.get("conversationState") {
        Some(v) => v,
        None => {
            return None;
        },
    };
    let current = match state.get("currentMessage") {
        Some(v) => v,
        None => {
            return None;
        },
    };
    let input = match current.get("userInputMessage") {
        Some(v) => v,
        None => {
            return None;
        },
    };
    match input.get_text("modelId") {
        Some(s) => Some(s.clone()),
        None => None,
    }
}

/// The conversation that the document of a request names.
pub fn conversation_of_document(document: &Json) -> (r: Option<String>)
    ensures
        text_of(r) == request_text(Some(document@), conversation_path()),
{
    proof {
        lemma_path2(document@, "conversationState"@, "conversationId"@);
    }
    match document.get("conversationState") {
        Some(state) => match state.get_text("conversationId") {
            Some(s) => Some(s.clone()),
            None => None,
        },
        None => None,
    }
}

pub open spec fn then_member(v: Option<JsonView>, key: Seq<char>) -> Option<JsonView> {
    match v {
        Some(j) => j.member(key),
        None => None,
    }
}

proof fn lemma_path2(v: JsonView, a: Seq<char>, b: Seq<char>)
    ensures
        member_at(v, seq![a, b]) == then_member(v.member(a), b),
{
    reveal_with_fuel(member_at, 3);
    let p = seq![a, b];
    assert(p.subrange(1, 2) =~= seq![b]);
    assert(seq![b].subrange(1, 1) =~= Seq::<Seq<char>>::empty());
}

proof fn lemma_path4(v: JsonView, a: Seq<char>, b: Seq<char>, c: Seq<char>, d: Seq<char>)
    ensures
        member_at(v, seq![a, b, c, d]) == then_member(
            then_member(then_member(v.member(a), b), c),
            d,
        ),
{
    reveal_with_fuel(member_at, 5);
    assert(seq![a, b, c, d].subrange(1, 4) =~= seq![b, c, d]);
    assert(seq![b, c, d].subrange(1, 3) =~= seq![c, d]);
    assert(seq![c, d].subrange(1, 2) =~= seq![d]);
    assert(seq![d].subrange(1, 1) =~= Seq::<Seq<char>>::empty());
}

/// The model that a request names in its JSON text.
pub fn extract_model_from_request(request_body: &str) -> (r: Option<String>)
    ensures
        text_of(r) == request_text(json::json_of_text(request_body@), model_path()),
{
    match Json::parse(request_body) {
        Some(document) => model_of_document(&document),
        None => None,
    }
}

/// The conversation that a request names in its JSON text.
pub fn extract_conversation_id_from_request(request_body: &str) -> (r: Option<String>)
    ensures
        text_of(r) == request_text(json::json_of_text(request_body@), conversation_path()),
{
    match Json::parse(request_body) {
        Some(document) => conversation_of_document(&document),
        None => None,
    }
}

/// The factor of the delay of an attempt: it doubles, six times at most.
pub open spec fn doubling(attempt: int) -> int {
    if attempt <= 0 {
        1
    } else if attempt == 1 {
        2
    } else if attempt == 2 {
        4
    } else if attempt == 3 {
        8
    } else if attempt == 4 {
        16
    } else if attempt == 5 {
        32
    } else {
        64
    }
}

pub open spec fn greatest(a: int, b: int) -> int {
    if a < b {
        b
    } else {
        a
    }
}

/// The delay of an attempt without its random part, in milliseconds.
pub open spec fn backoff(config: RetryConfig, attempt: int) -> int {
    let base = greatest(config.backoff_base_ms as int, 1);
    let max = greatest(config.backoff_max_ms as int, base);
    least(base * doubling(attempt), max)
}

/// The greatest random part of a delay.
pub open spec fn jitter_limit(backoff: int) -> int {
    greatest(backoff / 4, 1)
}

/// The delay of an attempt whose random part is `jitter`.
pub open spec fn delay_with(config: RetryConfig, attempt: int, jitter: int) -> int {
    least(backoff(config, attempt) + jitter, u64::MAX as int)
}

/// `fastrand::u64` on a range from 0: a number in the range, left to chance.
#[verifier::external_body]
fn random_up_to(max: u64) -> (r: u64)
    ensures
        r <= max,
{
    fastrand::u64(0..=max)
}

/// The delay of an attempt without its random part.
pub fn backoff_ms(config: &RetryConfig, attempt: usize) -> (r: u64)
    ensures
        r == backoff(*config, attempt as int),
{
    let base: u64 = if config.backoff_base_ms < 1 {
        1
    } else {
        config.backoff_base_ms
    };
    let max: u64 = if config.backoff_max_ms < base {
        base
    } else {
        config.backoff_max_ms
    };
    let factor: u64 = if attempt == 0 {
        1
    } else if attempt == 1 {
        2
    } else if attempt == 2 {
        4
    } else if attempt == 3 {
        8
    } else if attempt == 4 {
        16
    } else if attempt == 5 {
        32
    } else {
        64
    };
    if base > max / factor {
        proof {
            assert(base * factor >= max) by (nonlinear_arith)
                requires
                    base > max / factor,
                    factor > 0,
            ;
        }
        max
    } else {
        proof {
            assert(base * factor <= max) by (nonlinear_arith)
                requires
                    base <= max / factor,
                    factor > 0,
            ;
        }
        base * factor
    }
}

/// The delay of an attempt whose random part is `jitter`.
pub fn delay_with_jitter(config: &RetryConfig, attempt: usize, jitter: u64) -> (r: u64)
    ensures
        r == delay_with(*config, attempt as int, jitter as int),
{
    backoff_ms(config, attempt).saturating_add(jitter)
}

/// The delay before the retry of an attempt, in milliseconds.
pub fn retry_delay(config: &RetryConfig, attempt: usize) -> (r: u64)
    ensures
        exists|jitter: int|
            0 <= jitter <= jitter_limit(backoff(*config, attempt as int)) && r
                == #[trigger] delay_with(*config, attempt as int, jitter),
{
    let base: u64 = backoff_ms(config, attempt);
    let limit: u64 = if base / 4 < 1 {
        1
    } else {
        base / 4
    };
    let jitter: u64 = random_up_to(limit);
    let delay: u64 = delay_with_jitter(config, attempt, jitter);
    assert(delay == delay_with(*config, attempt as int, jitter as int));
    delay
}

/// A delay is at least the backoff, and at most a quarter and one millisecond more.
pub proof fn delay_bounds(config: RetryConfig, attempt: int, jitter: int)
    requires
        0 <= attempt,
        0 <= jitter <= jitter_limit(backoff(config, attempt)),
    ensures
        backoff(config, attempt) <= delay_with(config, attempt, jitter) <= backoff(config, attempt)
            + backoff(config, attempt) / 4 + 1,
        1 <= backoff(config, attempt) <= greatest(
            greatest(config.backoff_max_ms as int, config.backoff_base_ms as int),
            1,
        ),
{
    let base = greatest(config.backoff_base_ms as int, 1);
    let d = doubling(attempt);
    assert(base * d >= base) by (nonlinear_arith)
        requires
            base >= 1,
            d >= 1,
    ;
}

/// Later attempts do not wait less.
pub proof fn backoff_grows(config: RetryConfig, earlier: int, later: int)
    requires
        0 <= earlier <= later,
    ensures
        backoff(config, earlier) <= backoff(config, later),
{
    let base = greatest(config.backoff_base_ms as int, 1);
    let a = doubling(earlier);
    let b = doubling(later);
    assert(base * a <= base * b) by (nonlinear_arith)
        requires
            base >= 1,
            a <= b,
    ;
}

/// How far a phase is from the end of its attempt.
pub open spec fn phase_rank(phase: PhaseView) -> int {
    match phase {
        PhaseView::Credential => 4,
        PhaseView::Reply(_) => 3,
        PhaseView::Refresh { .. } => 2,
        _ => 1,
    }
}

/// How far a call is from its end, at most.
pub open spec fn steps_left(st: RetryView) -> int {
    if st.phase is Over {
        0
    } else {
        (st.max_retries - st.attempt) * 5 + phase_rank(st.phase)
    }
}

/// Every step brings the end of the call nearer: whatever happens, a call ends.
pub proof fn every_step_makes_progress(st: RetryView, event: RetryEvent)
    requires
        is_expected(st.phase, event),
        st.attempt < st.max_retries,
    ensures
        0 <= steps_left(retry_step(st, event).0) < steps_left(st),
        !(retry_step(st, event).0.phase is Over) ==> retry_step(st, event).0.attempt
            < st.max_retries,
        retry_step(st, event).0.phase is Over <==> (retry_step(st, event).1 is Fail || retry_step(
            st,
            event,
        ).1 is Succeed),
{
}

/// Trouble of the network or of the service is not held against a credential.
pub proof fn transient_trouble_blames_no_credential(st: RetryView, account: AccountView, event: RetryEvent)
    requires
        st.phase == PhaseView::Reply(account),
        st.attempt < st.max_retries,
        event is SendFailed || (event matches RetryEvent::Replied(r) && reply_class(st.kind, r@)
            is Transient),
    ensures
        retry_step(st, event).1 is Wait || retry_step(st, event).1 is Acquire || retry_step(
            st,
            event,
        ).1 is Fail,
        retry_step(st, event).0.force_refreshed == st.force_refreshed,
{
}

/// A request that is itself at fault is not sent again.
pub proof fn bad_requests_end_the_call(st: RetryView, account: AccountView, reply: Reply)
    requires
        st.phase == PhaseView::Reply(account),
        st.attempt < st.max_retries,
        reply_class(st.kind, reply@) is BadRequest,
    ensures
        retry_step(st, RetryEvent::Replied(reply)).0.phase is Over,
        retry_step(st, RetryEvent::Replied(reply)).1 == ActionView::Fail(
            reply_error(st, account, ""@, reply@),
        ),
{
}

/// What a list of events leads to.
pub open spec fn retry_run(st: RetryView, events: Seq<RetryEvent>) -> (RetryView, Seq<ActionView>)
    decreases events.len(),
{
    if events.len() == 0 {
        (st, Seq::empty())
    } else {
        let (s, actions) = retry_run(st, events.drop_last());
        let (t, action) = retry_step(s, events.last());
        (t, actions.push(action))
    }
}

/// Each event is one that is waited for when it comes.
pub open spec fn is_expected_run(st: RetryView, events: Seq<RetryEvent>) -> bool
    decreases events.len(),
{
    events.len() == 0 || (is_expected_run(st, events.drop_last()) && is_expected(
        retry_run(st, events.drop_last()).0.phase,
        events.last(),
    ))
}

/// How often a request is sent.
pub open spec fn sends(actions: Seq<ActionView>) -> int
    decreases actions.len(),
{
    if actions.len() == 0 {
        0
    } else {
        sends(actions.drop_last()) + (if actions.last() is Send {
            1int
        } else {
            0
        })
    }
}

/// How often the token of the credential `id` is renewed.
pub open spec fn refreshes(actions: Seq<ActionView>, id: u64) -> int
    decreases actions.len(),
{
    if actions.len() == 0 {
        0
    } else {
        refreshes(actions.drop_last(), id) + (if actions.last() == (ActionView::ForceRefresh { id }) {
            1int
        } else {
            0
        })
    }
}

/// How often a request is sent with the credential `id`.
pub open spec fn sends_with(st: RetryView, events: Seq<RetryEvent>, id: u64) -> int
    decreases events.len(),
{
    if events.len() == 0 {
        0
    } else {
        let s = retry_run(st, events.drop_last()).0;
        sends_with(st, events.drop_last(), id) + (match events.last() {
            RetryEvent::Acquired(a) => if a.id == id && retry_step(s, events.last()).1 is Send {
                1int
            } else {
                0
            },
            _ => 0,
        })
    }
}

/// How often a request can have been sent in a state.
pub open spec fn sends_so_far(st: RetryView) -> int {
    if st.phase is Over {
        st.max_retries
    } else if st.phase is Credential {
        st.attempt
    } else {
        st.attempt + 1
    }
}

/// A call sends its request no more often than it has attempts, no more often with one credential
/// than each credential may be used, and renews the token of a credential once at most.
pub proof fn attempts_are_bounded(
    kind: CallKind,
    max_retries: int,
    per_credential: int,
    endpoints: Seq<Seq<char>>,
    default_endpoint: Seq<char>,
    events: Seq<RetryEvent>,
    id: u64,
)
    requires
        0 <= max_retries,
        0 <= per_credential,
    ensures
        ({
            let st = call_started(
                kind,
                max_retries,
                per_credential,
                endpoints,
                default_endpoint,
            ).0;
            let actions = retry_run(st, events).1;
            &&& sends(actions) <= max_retries
            &&& sends_with(st, events, id) <= per_credential
            &&& refreshes(actions, id) <= 1
        }),
{
    lemma_bounded_run(
        call_started(kind, max_retries, per_credential, endpoints, default_endpoint).0,
        events,
        id,
    );
}

proof fn lemma_bounded_run(st: RetryView, events: Seq<RetryEvent>, id: u64)
    requires
        0 <= st.attempt <= st.max_retries,
        0 <= st.per_credential,
        st.phase is Credential || st.phase is Over,
        st.phase is Credential ==> st.attempt == 0 && st.max_retries > 0,
        st.force_refreshed == Set::<u64>::empty(),
        st.sent == Seq::<u64>::empty(),
    ensures
        ({
            let (t, actions) = retry_run(st, events);
            &&& t.max_retries == st.max_retries
            &&& t.per_credential == st.per_credential
            &&& 0 <= t.attempt
            &&& !(t.phase is Over) ==> t.attempt < t.max_retries
            &&& 0 <= sends(actions) <= sends_so_far(t) <= st.max_retries
            &&& sends_with(st, events, id) == times(t.sent, id) <= st.per_credential
            &&& 0 <= refreshes(actions, id) <= (if t.force_refreshed.contains(id) {
                1int
            } else {
                0
            })
        }),
    decreases events.len(),
{
    if events.len() > 0 {
        lemma_bounded_run(st, events.drop_last(), id);
        let (s, actions) = retry_run(st, events.drop_last());
        let (t, action) = retry_step(s, events.last());
        assert(actions.push(action).drop_last() =~= actions);
        if let RetryEvent::Acquired(a) = events.last() {
            assert(s.sent.push(a.id).drop_last() =~= s.sent);
        }
    }
}

/// A call that succeeds says with which credential, after how many attempts, of which it had so
/// many, and with which status of success.
pub proof fn successes_are_accounted_for(st: RetryView, account: AccountView, reply: Reply)
    requires
        st.phase == PhaseView::Reply(account),
        0 <= st.attempt < st.max_retries <= u32::MAX,
    ensures
        (retry_step(st, RetryEvent::Replied(reply)).1 matches ActionView::Succeed(s) ==> {
            &&& s.credential_id == account.id
            &&& 1 <= s.attempts <= st.max_retries
            &&& s.attempts == st.attempt + 1
            &&& 200 <= s.http_status < 300
        }),
        retry_step(st, RetryEvent::Replied(reply)).1 is Succeed <==> 200 <= reply.status < 300,
{
}

/// A call that is over asks for nothing more.
pub proof fn ended_calls_stay_over(st: RetryView, event: RetryEvent)
    requires
        st.phase is Over,
    ensures
        retry_step(st, event).0.phase is Over,
        retry_step(st, event).1 is Fail,
{
}

/// A credential that the service refuses, with 401 or with 403: its token is renewed first, where
/// it is the token that is not valid and it was not renewed yet; else the credential is reported.
/// Neither ends the call.
pub proof fn refused_credentials_are_renewed_or_reported(
    st: RetryView,
    account: AccountView,
    reply: Reply,
)
    requires
        st.phase == PhaseView::Reply(account),
        st.attempt < st.max_retries,
        reply.status == 401 || reply.status == 403,
    ensures
        ({
            let (t, action) = retry_step(st, RetryEvent::Replied(reply));
            let renew = reply.token_invalid && !st.force_refreshed.contains(account.id);
            &&& renew ==> {
                &&& action == (ActionView::ForceRefresh { id: account.id })
                &&& t.phase == (PhaseView::Refresh { account, reply: reply@ })
                &&& t.force_refreshed == st.force_refreshed.insert(account.id)
            }
            &&& !renew ==> {
                &&& action == (ActionView::ReportFailure { id: account.id })
                &&& t.phase == (PhaseView::Availability { account, reply: reply@, limited: false })
                &&& t.force_refreshed == st.force_refreshed
            }
            &&& t.attempt == st.attempt && t.max_retries == st.max_retries && t.sent == st.sent
        }),
{
}

/// After a refused credential the call goes on with another attempt: at once where its token could
/// be renewed, and else after it was reported, as long as credentials and attempts are left.
pub proof fn calls_go_on_after_a_refusal(
    st: RetryView,
    account: AccountView,
    reply: Reply,
    renewed: bool,
    has_available: bool,
)
    requires
        st.phase == PhaseView::Reply(account),
        0 <= st.attempt,
        st.attempt + 1 < st.max_retries,
        reply.status == 401 || reply.status == 403,
    ensures
        ({
            let (s1, a1) = retry_step(st, RetryEvent::Replied(reply));
            let (s2, a2) = retry_step(s1, RetryEvent::Refreshed { ok: renewed });
            let (s3, a3) = if a1 is ForceRefresh && !renewed {
                retry_step(s2, RetryEvent::Reported { has_available })
            } else {
                retry_step(s1, RetryEvent::Reported { has_available })
            };
            &&& a1 is ForceRefresh && renewed ==> a2 is Acquire && s2.phase is Credential
                && s2.attempt == st.attempt + 1
            &&& a1 is ForceRefresh && !renewed ==> a2 == (ActionView::ReportFailure {
                id: account.id,
            })
            &&& a1 is ReportFailure || !renewed ==> {
                &&& has_available ==> a3 is Acquire && s3.phase is Credential && s3.attempt
                    == st.attempt + 1
                &&& !has_available ==> a3 is Fail && s3.phase is Over
            }
        }),
{
}

/// What follows a reply, by its status: success ends the call; a used up quota and too many
/// requests are reported; a request that is at fault ends the call; what is wrong for the moment,
/// and what is no error of the client, is tried again after a delay while attempts are left.
pub proof fn each_status_has_its_consequence(st: RetryView, account: AccountView, reply: Reply)
    requires
        st.phase == PhaseView::Reply(account),
        0 <= st.attempt,
        st.attempt + 1 < st.max_retries,
    ensures
        ({
            let (t, action) = retry_step(st, RetryEvent::Replied(reply));
            let s = reply.status;
            let id = account.id;
            let asks_model = st.kind is Api;
            &&& 200 <= s <= 299 ==> action is Succeed && t.phase is Over
            &&& s == 402 && reply.monthly_limit ==> action == (ActionView::ReportQuotaExhausted {
                id,
            }) && t.phase == (PhaseView::Availability { account, reply: reply@, limited: false })
            &&& s == 402 && !reply.monthly_limit ==> action is Fail && t.phase is Over
            &&& s == 400 ==> action is Fail && t.phase is Over
            &&& s == 401 || s == 403 ==> action == (ActionView::ForceRefresh { id }) || action == (
            ActionView::ReportFailure { id })
            &&& s == 429 && asks_model ==> action == (ActionView::ReportRateLimited { id })
                && t.phase == (PhaseView::Availability { account, reply: reply@, limited: true })
            &&& s == 429 && !asks_model ==> action == (ActionView::Wait { attempt: st.attempt })
            &&& s == 408 ==> action == (ActionView::Wait { attempt: st.attempt })
            &&& 500 <= s <= 599 ==> action == (ActionView::Wait { attempt: st.attempt })
            &&& s < 200 || 300 <= s <= 399 || s >= 600 ==> action == (ActionView::Wait {
                attempt: st.attempt,
            })
            &&& 404 <= s <= 407 || 409 <= s <= 428 || 430 <= s <= 499 ==> action is Fail
                && t.phase is Over
            &&& action is Wait ==> t.phase is Delay && t.attempt == st.attempt
            &&& !(action is ForceRefresh) ==> t.force_refreshed == st.force_refreshed
        }),
{
}

/// What an error says of the attempt that it came from: for a call of the model the credential,
/// its account, the number of the attempt and the status; and always the text of the status and
/// the whole body.
pub proof fn errors_say_what_came_back(st: RetryView, account: AccountView, remark: Seq<char>, reply: Reply)
    requires
        0 <= st.attempt < u32::MAX,
    ensures
        ({
            let e = reply_error(st, account, remark, reply@);
            let message = match e {
                CallFailureView::Upstream(u) => u.message,
                CallFailureView::Plain(m) => m,
            };
            let tail = remark + ": "@ + reply.status_text@ + " "@ + reply.body@;
            &&& message.len() >= tail.len()
            &&& message.skip(message.len() - tail.len()) == tail
            &&& st.kind is Api <==> e is Upstream
            &&& e matches CallFailureView::Upstream(u) ==> {
                &&& u.credential_id == Some(account.id)
                &&& u.account_label == account.title
                &&& u.http_status == Some(reply.status as int)
                &&& u.attempts == st.attempt + 1
                &&& account.email matches Some(mail) ==> u.account_id == Some(mail)
                &&& account.email is None ==> u.account_id == Some(
                    "kiro-"@ + text::decimal(account.id as nat),
                )
            }
        }),
{
    let name = call_name(st.kind);
    let tail = remark + ": "@ + reply.status_text@ + " "@ + reply.body@;
    let message = reply_message(st.kind, remark, reply@);
    assert(message =~= name + tail);
    assert(message.skip(message.len() - tail.len()) =~= tail);
}

/// Where a request goes: to the endpoint that the credential asks for, else to the default one,
/// while the credential may be used; an endpoint that is not known is held against it.
pub proof fn requests_go_where_the_credential_asks(st: RetryView, account: Account)
    requires
        st.phase is Credential,
        0 <= st.attempt < st.max_retries,
    ensures
        ({
            let (t, action) = retry_step(st, RetryEvent::Acquired(account));
            let name = match account.endpoint {
                Some(e) => e@,
                None => st.default_endpoint,
            };
            let known = exists|i: int| 0 <= i < st.endpoints.len() && st.endpoints[i] == name;
            &&& action matches ActionView::Send { endpoint } ==> known && endpoint == name
                && t.phase == PhaseView::Reply(account@) && t.sent == st.sent.push(account.id)
                && times(st.sent, account.id) < st.per_credential
            &&& known && times(st.sent, account.id) < st.per_credential ==> action is Send
            &&& !known ==> action == (ActionView::ReportFailure { id: account.id })
            &&& known && times(st.sent, account.id) >= st.per_credential ==> action is Acquire
                || action is Fail
            &&& !(action is Send) ==> t.sent == st.sent
        }),
{
    let name = match account.endpoint {
        Some(e) => e@,
        None => st.default_endpoint,
    };
    if st.endpoints.contains(name) {
        let i = st.endpoints.index_of(name);
        assert(st.endpoints[i] == name);
    }
}

/// A request that could not be sent is tried again after a delay, with what went wrong kept as the
/// error; where no HTTP client can be made the call ends with that error.
pub proof fn failed_sends_are_tried_again(st: RetryView, account: AccountView, message: String)
    requires
        st.phase == PhaseView::Reply(account),
        0 <= st.attempt,
        st.attempt + 1 < st.max_retries,
    ensures
        ({
            let (t, action) = retry_step(st, RetryEvent::SendFailed(message));
            let (u, end) = retry_step(st, RetryEvent::ClientFailed(message));
            &&& action == (ActionView::Wait { attempt: st.attempt })
            &&& t.phase is Delay
            &&& t.last_error matches Some(CallFailureView::Upstream(e)) ==> {
                &&& st.kind is Api
                &&& e.credential_id == Some(account.id)
                &&& e.http_status is None
                &&& e.message.len() >= message@.len()
                &&& e.message.skip(e.message.len() - message@.len()) == message@
            }
            &&& st.kind is Mcp ==> t.last_error == Some(CallFailureView::Plain(message@))
            &&& st.kind is Api ==> (t.last_error matches Some(CallFailureView::Upstream(_)))
            &&& end == ActionView::Fail(CallFailureView::Plain(message@))
            &&& u.phase is Over
        }),
{
    let m = "API 请求发送失败: "@ + message@;
    assert(m.skip(m.len() - message@.len()) =~= message@);
}

/// Attempts go on one after the other: after a delay, after a failed acquisition and after a report
/// the next one acquires a credential, and behind the last one the call ends with the last error.
pub proof fn attempts_follow_each_other(st: RetryView, event: RetryEvent)
    requires
        0 <= st.attempt < st.max_retries,
        (st.phase is Delay && event is Waited) || (st.phase is Reported && event is Reported) || (
        st.phase is Credential && event is AcquireFailed),
    ensures
        ({
            let (t, action) = retry_step(st, event);
            &&& st.attempt + 1 < st.max_retries ==> action is Acquire && t.phase is Credential
                && t.attempt == st.attempt + 1
            &&& st.attempt + 1 == st.max_retries ==> action is Fail && t.phase is Over
            &&& event matches RetryEvent::AcquireFailed(m) ==> {
                &&& st.attempt + 1 < st.max_retries ==> t.last_error == Some(
                    CallFailureView::Plain(m@),
                )
                &&& st.attempt + 1 == st.max_retries ==> action == ActionView::Fail(
                    CallFailureView::Plain(m@),
                )
            }
            &&& !(event is AcquireFailed) && st.attempt + 1 == st.max_retries ==> {
                st.last_error matches Some(e) ==> action == ActionView::Fail(e)
            }
        }),
{
}

/// A call has as many attempts as its credentials may be used in all, up to the total that is
/// configured.
pub proof fn attempts_are_as_configured(total_credentials: int, config: RetryConfig)
    requires
        0 <= total_credentials,
    ensures
        ({
            let n = attempts_allowed(total_credentials, config);
            &&& n <= total_credentials * config.max_retries_per_credential
            &&& n <= config.max_total_retries
            &&& n == total_credentials * config.max_retries_per_credential || n
                == config.max_total_retries
        }),
{
}

/// The delay of an attempt is the base, doubled with each attempt up to the sixth, and never more
/// than the greatest delay.
pub proof fn delays_double(config: RetryConfig, attempt: int)
    requires
        0 <= attempt,
        1 <= config.backoff_base_ms <= config.backoff_max_ms,
    ensures
        backoff(config, 0) == config.backoff_base_ms,
        attempt < 6 && 2 * backoff(config, attempt) <= config.backoff_max_ms ==> backoff(
            config,
            attempt + 1,
        ) == 2 * backoff(config, attempt),
        attempt < 6 && 2 * backoff(config, attempt) > config.backoff_max_ms ==> backoff(
            config,
            attempt + 1,
        ) == config.backoff_max_ms,
        attempt >= 6 ==> backoff(config, attempt + 1) == backoff(config, attempt),
{
    let base = config.backoff_base_ms as int;
    let d = doubling(attempt);
    assert(base * doubling(0) == base);
    if attempt < 6 {
        assert(doubling(attempt + 1) == 2 * d);
        assert(base * (2 * d) == 2 * (base * d)) by (nonlinear_arith);
        assert(base * d >= 0) by (nonlinear_arith)
            requires
                base >= 0,
                d >= 0,
        ;
    }
}

/// A call that ends because no credential or no attempt is left says what came back last, with a
/// remark where no credential is left: another one for credentials that are used too often.
pub proof fn the_last_reply_is_the_error(
    st: RetryView,
    account: AccountView,
    reply: Reply,
    limited: bool,
    has_available: bool,
)
    requires
        st.phase == (PhaseView::Availability { account, reply: reply@, limited }),
        0 <= st.attempt < st.max_retries,
    ensures
        ({
            let (t, action) = retry_step(st, RetryEvent::Reported { has_available });
            let plain = reply_error(st, account, ""@, reply@);
            &&& has_available && st.attempt + 1 < st.max_retries ==> t.last_error == Some(plain)
                && action is Acquire
            &&& has_available && st.attempt + 1 == st.max_retries ==> action == ActionView::Fail(
                plain,
            )
            &&& !has_available && limited ==> action == ActionView::Fail(
                reply_error(st, account, "（所有凭据已限流/禁用）"@, reply@),
            )
            &&& !has_available && !limited ==> action == ActionView::Fail(
                reply_error(st, account, "（所有凭据已用尽）"@, reply@),
            )
        }),
{
}

/// Trouble of the moment is kept as the error of its attempt, and is what a call ends with that has
/// no attempt left; a request that is at fault ends the call with its own reply.
pub proof fn replies_are_kept_as_errors(st: RetryView, account: AccountView, reply: Reply)
    requires
        st.phase == PhaseView::Reply(account),
        0 <= st.attempt < st.max_retries,
    ensures
        ({
            let (t, action) = retry_step(st, RetryEvent::Replied(reply));
            let plain = reply_error(st, account, ""@, reply@);
            let s = reply.status;
            &&& s == 408 || 500 <= s <= 599 ==> {
                &&& st.attempt + 1 < st.max_retries ==> t.last_error == Some(plain)
                &&& st.attempt + 1 == st.max_retries ==> action == ActionView::Fail(plain)
            }
            &&& s == 400 || 404 <= s <= 407 || (s == 402 && !reply.monthly_limit) ==> action
                == ActionView::Fail(plain)
        }),
{
}

/// A call that succeeds names the account of its credential.
pub proof fn successes_name_the_account(st: RetryView, account: AccountView, reply: Reply)
    requires
        st.phase == PhaseView::Reply(account),
        0 <= st.attempt < st.max_retries,
        200 <= reply.status <= 299,
    ensures
        (retry_step(st, RetryEvent::Replied(reply)).1 matches ActionView::Succeed(s) && {
            &&& s.credential_id == account.id
            &&& s.account_label == account.title
            &&& s.http_status == reply.status
            &&& account.email matches Some(mail) ==> s.account_id == mail
            &&& account.email is None ==> s.account_id == "kiro-"@ + text::decimal(
                account.id as nat,
            )
        }),
{
}

/// A new call asks for a credential first; one without attempts fails at once.
pub proof fn calls_begin_with_a_credential(
    kind: CallKind,
    max_retries: int,
    per_credential: int,
    endpoints: Seq<Seq<char>>,
    default_endpoint: Seq<char>,
)
    ensures
        ({
            let (st, action) = call_started(
                kind,
                max_retries,
                per_credential,
                endpoints,
                default_endpoint,
            );
            &&& max_retries > 0 ==> action is Acquire && st.phase is Credential && st.attempt == 0
            &&& max_retries <= 0 ==> action is Fail && st.phase is Over
            &&& st.kind == kind && st.max_retries == max_retries && st.per_credential
                == per_credential
            &&& st.endpoints == endpoints && st.default_endpoint == default_endpoint
            &&& st.sent.len() == 0 && forall|id: u64| !st.force_refreshed.contains(id)
            &&& st.last_error is None
        }),
{
}

/// The model and the conversation of a request are what its document holds at their places.
pub proof fn requests_name_model_and_conversation(
    document: JsonView,
    state: JsonView,
    current: JsonView,
    input: JsonView,
)
    requires
        document.member("conversationState"@) == Some(state),
    ensures
        state.member("currentMessage"@) == Some(current) && current.member("userInputMessage"@)
            == Some(input) ==> request_text(Some(document), model_path()) == (
        match input.member("modelId"@) {
            Some(JsonView::Text(s)) => Some(s),
            _ => None,
        }),
        request_text(Some(document), conversation_path()) == (match state.member(
            "conversationId"@,
        ) {
            Some(JsonView::Text(s)) => Some(s),
            _ => None,
        }),
{
    lemma_path4(
        document,
        "conversationState"@,
        "currentMessage"@,
        "userInputMessage"@,
        "modelId"@,
    );
    lemma_path2(document, "conversationState"@, "conversationId"@);
}

/// A delay is what doubling gives and the whole of its random part, which is a quarter of it at
/// most, or one. A base of nothing counts as one, and a limit below the base counts for nothing.
pub proof fn delays_add_their_random_part(config: RetryConfig, attempt: int, jitter: int)
    requires
        0 <= attempt,
        0 <= jitter,
    ensures
        backoff(config, attempt) + jitter <= u64::MAX ==> delay_with(config, attempt, jitter)
            == backoff(config, attempt) + jitter,
        backoff(config, attempt) >= 4 ==> 4 * jitter_limit(backoff(config, attempt)) <= backoff(
            config,
            attempt,
        ) < 4 * jitter_limit(backoff(config, attempt)) + 4,
        backoff(config, attempt) < 4 ==> jitter_limit(backoff(config, attempt)) == 1,
        config.backoff_base_ms == 0 ==> backoff(config, 0) == 1,
        config.backoff_max_ms < config.backoff_base_ms ==> backoff(config, attempt)
            == config.backoff_base_ms,
{
    let base = greatest(config.backoff_base_ms as int, 1);
    let d = doubling(attempt);
    assert(base * d >= base) by (nonlinear_arith)
        requires
            base >= 1,
            d >= 1,
    ;
    assert(base * doubling(0) == base);
}

} // verus!
