//! The replies of the administration interface.

use vstd::prelude::*;
use vstd::string::*;

use crate::text;

verus! {

/// A reply: what was done, or what stood in the way.
#[derive(Debug, Clone)]
pub enum AdminReply {
    Success { message: String },
    /// The HTTP status and the error.
    Failure { status: u16, error: String },
}

/// What a reply says.
pub enum ReplyView {
    Success { message: Seq<char> },
    Failure { status: int, error: Seq<char> },
}

impl View for AdminReply {
    type V = ReplyView;

    open spec fn view(&self) -> ReplyView {
        match self {
            AdminReply::Success { message } => ReplyView::Success { message: message@ },
            AdminReply::Failure { status, error } => ReplyView::Failure {
                status: *status as int,
                error: error@,
            },
        }
    }
}

impl AdminReply {
    /// Whether something was done.
    pub fn is_success(&self) -> (r: bool)
        ensures
            r == (self@ is Success),
    {
        match self {
            AdminReply::Success { .. } => true,
            AdminReply::Failure { .. } => false,
        }
    }
}

/// What came of a task on the database.
#[derive(Debug, Clone)]
pub enum TaskOutcome<T> {
    Done(T),
    /// The task failed, with this error.
    Failed(String),
    /// The task did not run to its end.
    Panicked(String),
}

pub open spec fn success_view(message: Seq<char>) -> ReplyView {
    ReplyView::Success { message }
}

pub open spec fn failure_view(status: int, error: Seq<char>) -> ReplyView {
    ReplyView::Failure { status, error }
}

/// The reply to a task that did not run to its end.
pub open spec fn panic_view(message: Seq<char>) -> ReplyView {
    failure_view(500, "task panic: "@ + message)
}

/// The error comes from a rule that values are unique.
pub open spec fn is_conflict(error: Seq<char>) -> bool {
    ||| text::contains_bytes(text::bytes_of(error), text::bytes_of("UNIQUE"@))
    ||| text::contains_bytes(text::bytes_of(error), text::bytes_of("constraint"@))
}

/// The error comes from a rule that what is referred to exists.
pub open spec fn is_dangling(error: Seq<char>) -> bool {
    ||| text::contains_bytes(text::bytes_of(error), text::bytes_of("FOREIGN KEY"@))
    ||| text::contains_bytes(text::bytes_of(error), text::bytes_of("constraint"@))
}

/// The error is a refusal to leave no key.
pub open spec fn is_refusal(error: Seq<char>) -> bool {
    text::contains_bytes(text::bytes_of(error), text::bytes_of("至少保留"@))
}

pub(crate) fn success(message: &str) -> (r: AdminReply)
    ensures
        r@ == success_view(message@),
{
    AdminReply::Success { message: message.to_string() }
}

pub(crate) fn failure(status: u16, error: &str) -> (r: AdminReply)
    ensures
        r@ == failure_view(status as int, error@),
{
    AdminReply::Failure { status, error: error.to_string() }
}

pub(crate) fn panicked(message: &str) -> (r: AdminReply)
    ensures
        r@ == panic_view(message@),
{
    let mut error = "task panic: ".to_string();
    error.append(message);
    AdminReply::Failure { status: 500, error }
}

pub(crate) fn conflicts(error: &str) -> (r: bool)
    ensures
        r == is_conflict(error@),
{
    text::text_contains(error, "UNIQUE") || text::text_contains(error, "constraint")
}

pub(crate) fn dangles(error: &str) -> (r: bool)
    ensures
        r == is_dangling(error@),
{
    text::text_contains(error, "FOREIGN KEY") || text::text_contains(error, "constraint")
}

pub(crate) fn refuses(error: &str) -> (r: bool)
    ensures
        r == is_refusal(error@),
{
    text::text_contains(error, "至少保留")
}

/// `head`, a number and `tail`.
pub(crate) fn numbered(head: &str, n: i64, tail: &str) -> (r: String)
    ensures
        r@ == head@ + text::signed_decimal(n as int) + tail@,
{
    let mut s = head.to_string();
    s.append(text::signed_decimal_text(n).as_str());
    s.append(tail);
    s
}

/// `head`, a number and `tail`.
pub(crate) fn numbered_unsigned(head: &str, n: u64, tail: &str) -> (r: String)
    ensures
        r@ == head@ + text::decimal(n as nat) + tail@,
{
    let mut s = head.to_string();
    s.append(text::decimal_text(n).as_str());
    s.append(tail);
    s
}

} // verus!
