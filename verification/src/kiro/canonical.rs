//! What the texts under which messages are compared tell of the messages.

use vstd::prelude::*;

use crate::json;
use crate::kiro::cache_sim;
use crate::kiro::cache_sim::MsgFingerprint;
use crate::kiro::model::requests::{
    AssistantMessage, ConversationState, HistoryMessage, ToolResult, ToolUseEntry, UserInputMessage,
};
use crate::text;

verus! {

/// The character separates the parts of a text.
pub open spec fn is_separator(c: char) -> bool {
    c == '\u{1f}' || c == '\u{1e}'
}

/// The text holds no separator.
pub open spec fn is_plain(s: Seq<char>) -> bool {
    forall|i: int| 0 <= i < s.len() ==> !is_separator(#[trigger] s[i])
}

/// The text is empty or starts with a separator.
pub open spec fn is_rest(s: Seq<char>) -> bool {
    s.len() > 0 ==> is_separator(s[0])
}

/// What is told of a tool result or of a tool call.
pub struct Part {
    pub id: Seq<char>,
    /// The status of a result, empty where it has none, or the name of a tool.
    pub label: Seq<char>,
    /// The JSON text of the content or of the arguments.
    pub content: Seq<char>,
}

/// Nothing that is told holds a separator.
pub open spec fn is_plain_part(p: Part) -> bool {
    is_plain(p.id) && is_plain(p.label) && is_plain(p.content)
}

pub open spec fn are_plain(parts: Seq<Part>) -> bool {
    forall|i: int| 0 <= i < parts.len() ==> is_plain_part(#[trigger] parts[i])
}

/// What is told of a tool result.
pub open spec fn result_part(r: ToolResult) -> Part {
    Part {
        id: r.tool_use_id@,
        label: match r.status {
            Some(s) => s@,
            None => Seq::empty(),
        },
        content: json::json_text(r.content@),
    }
}

/// What is told of a tool call.
pub open spec fn use_part(u: ToolUseEntry) -> Part {
    Part { id: u.tool_use_id@, label: u.name@, content: json::json_text(u.input@) }
}

/// What is told of the tool results of a message.
pub open spec fn result_parts(m: UserInputMessage) -> Seq<Part> {
    m.user_input_message_context.tool_results@.map_values(|r: ToolResult| result_part(r))
}

/// What is told of the tool calls of a message.
pub open spec fn use_parts(m: AssistantMessage) -> Seq<Part> {
    match m.tool_uses {
        Some(uses) => uses@.map_values(|u: ToolUseEntry| use_part(u)),
        None => Seq::empty(),
    }
}

/// The text of one part, behind a mark.
pub open spec fn part_text(mark: Seq<char>, p: Part) -> Seq<char> {
    mark + (p.id + (seq!['\u{1e}'] + (p.label + (seq!['\u{1e}'] + p.content))))
}

/// The texts of the parts, one after the other.
pub open spec fn parts_text(mark: Seq<char>, parts: Seq<Part>) -> Seq<char>
    decreases parts.len(),
{
    if parts.len() == 0 {
        Seq::empty()
    } else {
        part_text(mark, parts[0]) + parts_text(mark, parts.skip(1))
    }
}

proof fn lemma_parts_push(mark: Seq<char>, parts: Seq<Part>, p: Part)
    ensures
        parts_text(mark, parts.push(p)) == parts_text(mark, parts) + part_text(mark, p),
    decreases parts.len(),
{
    if parts.len() == 0 {
        reveal_with_fuel(parts_text, 2);
        assert(parts.push(p).skip(1) =~= Seq::<Part>::empty());
        assert(parts_text(mark, parts.push(p)) =~= parts_text(mark, parts) + part_text(mark, p));
    } else {
        lemma_parts_push(mark, parts.skip(1), p);
        assert(parts.push(p).skip(1) =~= parts.skip(1).push(p));
        assert(parts_text(mark, parts.push(p)) =~= parts_text(mark, parts) + part_text(mark, p));
    }
}

proof fn lemma_results_text(results: Seq<ToolResult>)
    ensures
        cache_sim::results_text(results) == parts_text(
            "\u{1f}tr:"@,
            results.map_values(|r: ToolResult| result_part(r)),
        ),
    decreases results.len(),
{
    let parts = results.map_values(|r: ToolResult| result_part(r));
    if results.len() > 0 {
        let front = results.drop_last();
        let r = results.last();
        lemma_results_text(front);
        let front_parts = front.map_values(|r: ToolResult| result_part(r));
        assert(parts =~= front_parts.push(result_part(r)));
        lemma_parts_push("\u{1f}tr:"@, front_parts, result_part(r));
        reveal_strlit("\u{1e}");
        assert("\u{1e}"@ =~= seq!['\u{1e}']);
        assert(cache_sim::results_text(results) =~= parts_text("\u{1f}tr:"@, parts));
    }
}

proof fn lemma_uses_text(uses: Seq<ToolUseEntry>)
    ensures
        cache_sim::uses_text(uses) == parts_text(
            "\u{1f}tu:"@,
            uses.map_values(|u: ToolUseEntry| use_part(u)),
        ),
    decreases uses.len(),
{
    let parts = uses.map_values(|u: ToolUseEntry| use_part(u));
    if uses.len() > 0 {
        let front = uses.drop_last();
        let u = uses.last();
        lemma_uses_text(front);
        let front_parts = front.map_values(|u: ToolUseEntry| use_part(u));
        assert(parts =~= front_parts.push(use_part(u)));
        lemma_parts_push("\u{1f}tu:"@, front_parts, use_part(u));
        reveal_strlit("\u{1e}");
        assert("\u{1e}"@ =~= seq!['\u{1e}']);
        assert(cache_sim::uses_text(uses) =~= parts_text("\u{1f}tu:"@, parts));
    }
}

/// Two texts that are the same fall apart at the first separator in the same way.
proof fn lemma_cut(a: Seq<char>, x: Seq<char>, b: Seq<char>, y: Seq<char>)
    requires
        a + x == b + y,
        is_plain(a),
        is_plain(b),
        is_rest(x),
        is_rest(y),
    ensures
        a == b,
        x == y,
{
    let all = a + x;
    assert(all.len() == b.len() + y.len());
    if a.len() < b.len() {
        assert(all[a.len() as int] == x[0]);
        assert((b + y)[a.len() as int] == b[a.len() as int]);
    }
    if b.len() < a.len() {
        assert((b + y)[b.len() as int] == y[0]);
        assert(all[b.len() as int] == a[b.len() as int]);
    }
    assert(a =~= all.take(a.len() as int));
    assert(b =~= (b + y).take(b.len() as int));
    assert(x =~= all.skip(a.len() as int));
    assert(y =~= (b + y).skip(b.len() as int));
}

/// Texts that are the same and start alike go on alike.
proof fn lemma_same_front(front: Seq<char>, x: Seq<char>, y: Seq<char>)
    requires
        front + x == front + y,
    ensures
        x == y,
{
    assert(x =~= (front + x).skip(front.len() as int));
    assert(y =~= (front + y).skip(front.len() as int));
}

/// The text is empty or starts with a separator and then another character than `c`.
pub open spec fn is_rest_but(s: Seq<char>, c: char) -> bool {
    s.len() > 0 ==> s.len() > 1 && is_separator(s[0]) && s[1] != c
}

proof fn lemma_parts_are_rest(mark: Seq<char>, parts: Seq<Part>, x: Seq<char>)
    requires
        mark.len() > 1,
        is_separator(mark[0]),
        is_rest(x),
    ensures
        is_rest(parts_text(mark, parts) + x),
        parts.len() > 0 ==> (parts_text(mark, parts) + x).len() > 1 && (parts_text(mark, parts)
            + x)[1] == mark[1],
        parts.len() == 0 ==> parts_text(mark, parts) + x == x,
{
    if parts.len() == 0 {
        assert(parts_text(mark, parts) + x =~= x);
    }
}

proof fn lemma_one_part(mark: Seq<char>, p: Part, x: Seq<char>, q: Part, y: Seq<char>)
    requires
        part_text(mark, p) + x == part_text(mark, q) + y,
        is_plain_part(p),
        is_plain_part(q),
        is_rest(x),
        is_rest(y),
    ensures
        p == q,
        x == y,
{
    let e = seq!['\u{1e}'];
    let p3 = p.content + x;
    let q3 = q.content + y;
    let p2 = p.label + (e + p3);
    let q2 = q.label + (e + q3);
    assert(part_text(mark, p) + x =~= mark + (p.id + (e + p2)));
    assert(part_text(mark, q) + y =~= mark + (q.id + (e + q2)));
    lemma_same_front(mark, p.id + (e + p2), q.id + (e + q2));
    lemma_cut(p.id, e + p2, q.id, e + q2);
    lemma_same_front(e, p2, q2);
    lemma_cut(p.label, e + p3, q.label, e + q3);
    lemma_same_front(e, p3, q3);
    lemma_cut(p.content, x, q.content, y);
}

proof fn lemma_parts_apart(mark: Seq<char>, a: Seq<Part>, x: Seq<char>, b: Seq<Part>, y: Seq<char>)
    requires
        mark.len() > 1,
        is_separator(mark[0]),
        parts_text(mark, a) + x == parts_text(mark, b) + y,
        are_plain(a),
        are_plain(b),
        is_rest_but(x, mark[1]),
        is_rest_but(y, mark[1]),
    ensures
        a == b,
        x == y,
    decreases a.len(),
{
    lemma_parts_are_rest(mark, a, x);
    lemma_parts_are_rest(mark, b, y);
    if a.len() == 0 || b.len() == 0 {
        assert(a.len() == 0 && b.len() == 0);
        assert(a =~= b);
    } else {
        let ax = parts_text(mark, a.skip(1)) + x;
        let by = parts_text(mark, b.skip(1)) + y;
        assert(parts_text(mark, a) + x =~= part_text(mark, a[0]) + ax);
        assert(parts_text(mark, b) + y =~= part_text(mark, b[0]) + by);
        lemma_parts_are_rest(mark, a.skip(1), x);
        lemma_parts_are_rest(mark, b.skip(1), y);
        lemma_one_part(mark, a[0], ax, b[0], by);
        assert(are_plain(a.skip(1))) by {
            assert forall|i: int| 0 <= i < a.skip(1).len() implies is_plain_part(
                #[trigger] a.skip(1)[i],
            ) by {
                assert(a.skip(1)[i] == a[i + 1]);
            }
        }
        assert(are_plain(b.skip(1))) by {
            assert forall|i: int| 0 <= i < b.skip(1).len() implies is_plain_part(
                #[trigger] b.skip(1)[i],
            ) by {
                assert(b.skip(1)[i] == b[i + 1]);
            }
        }
        lemma_parts_apart(mark, a.skip(1), x, b.skip(1), y);
        assert(a =~= seq![a[0]] + a.skip(1));
        assert(b =~= seq![b[0]] + b.skip(1));
    }
}

proof fn lemma_marks()
    ensures
        "\u{1f}tr:"@ == seq!['\u{1f}', 't', 'r', ':'],
        "\u{1f}tu:"@ == seq!['\u{1f}', 't', 'u', ':'],
        "\u{1f}img:"@ == seq!['\u{1f}', 'i', 'm', 'g', ':'],
        "\u{1f}doc:"@ == seq!['\u{1f}', 'd', 'o', 'c', ':'],
        "U\u{1f}"@ == seq!['U', '\u{1f}'],
        "A\u{1f}"@ == seq!['A', '\u{1f}'],
{
    reveal_strlit("\u{1f}tr:");
    reveal_strlit("\u{1f}tu:");
    reveal_strlit("\u{1f}img:");
    reveal_strlit("\u{1f}doc:");
    reveal_strlit("U\u{1f}");
    reveal_strlit("A\u{1f}");
    assert("\u{1f}tr:"@ =~= seq!['\u{1f}', 't', 'r', ':']);
    assert("\u{1f}tu:"@ =~= seq!['\u{1f}', 't', 'u', ':']);
    assert("\u{1f}img:"@ =~= seq!['\u{1f}', 'i', 'm', 'g', ':']);
    assert("\u{1f}doc:"@ =~= seq!['\u{1f}', 'd', 'o', 'c', ':']);
    assert("U\u{1f}"@ =~= seq!['U', '\u{1f}']);
    assert("A\u{1f}"@ =~= seq!['A', '\u{1f}']);
}

proof fn lemma_decimal_is_plain(n: nat)
    ensures
        is_plain(text::decimal(n)),
{
    text::decimals_are_digits(n);
}

proof fn lemma_counts_apart(label: Seq<char>, a: nat, x: Seq<char>, b: nat, y: Seq<char>)
    requires
        label.len() > 1,
        is_separator(label[0]),
        cache_sim::count_text(label, a) + x == cache_sim::count_text(label, b) + y,
        is_rest_but(x, label[1]),
        is_rest_but(y, label[1]),
    ensures
        a == b,
        x == y,
{
    let ta = cache_sim::count_text(label, a);
    let tb = cache_sim::count_text(label, b);
    assert(ta.len() == 0 ==> ta + x =~= x);
    assert(tb.len() == 0 ==> tb + y =~= y);
    if a > 0 && b > 0 {
        assert(ta + x =~= label + (text::decimal(a) + x));
        assert(tb + y =~= label + (text::decimal(b) + y));
        lemma_same_front(label, text::decimal(a) + x, text::decimal(b) + y);
        lemma_decimal_is_plain(a);
        lemma_decimal_is_plain(b);
        lemma_cut(text::decimal(a), x, text::decimal(b), y);
        text::decimals_tell_numbers_apart(a, b);
    } else if a > 0 {
        assert((ta + x)[1] == label[1]);
    } else if b > 0 {
        assert((tb + y)[1] == label[1]);
    }
}

/// What follows the tool results of a message.
pub open spec fn attached_text(m: UserInputMessage) -> Seq<char> {
    cache_sim::count_text("\u{1f}img:"@, m.images@.len()) + (cache_sim::count_text(
        "\u{1f}doc:"@,
        m.documents@.len(),
    ) + Seq::empty())
}

proof fn lemma_user_text(m: UserInputMessage)
    ensures
        cache_sim::user_text(m) == "U\u{1f}"@ + (m.content@ + (parts_text(
            "\u{1f}tr:"@,
            result_parts(m),
        ) + attached_text(m))),
        is_rest_but(attached_text(m), 't'),
        is_rest_but(
            cache_sim::count_text("\u{1f}doc:"@, m.documents@.len()) + Seq::<char>::empty(),
            'i',
        ),
{
    lemma_marks();
    lemma_results_text(m.user_input_message_context.tool_results@);
    assert(cache_sim::user_text(m) =~= "U\u{1f}"@ + (m.content@ + (parts_text(
        "\u{1f}tr:"@,
        result_parts(m),
    ) + attached_text(m))));
}

/// The texts of messages of users tell the messages apart: those that differ in their content, in
/// the identifier, the status or the content of a tool result, or in the number of attachments have
/// different texts. Nothing of the messages may hold a separator: a content that does can look like
/// a tool result.
pub proof fn user_texts_tell_messages_apart(a: UserInputMessage, b: UserInputMessage)
    requires
        is_plain(a.content@),
        is_plain(b.content@),
        are_plain(result_parts(a)),
        are_plain(result_parts(b)),
        cache_sim::user_text(a) == cache_sim::user_text(b),
    ensures
        a.content@ == b.content@,
        a.user_input_message_context.tool_results@.len()
            == b.user_input_message_context.tool_results@.len(),
        forall|i: int|
            0 <= i < a.user_input_message_context.tool_results@.len() ==> {
                let x = #[trigger] a.user_input_message_context.tool_results@[i];
                let y = b.user_input_message_context.tool_results@[i];
                &&& x.tool_use_id@ == y.tool_use_id@
                &&& x.status is Some && y.status is Some ==> x.status->0@ == y.status->0@
                &&& x.status is Some && y.status is None ==> x.status->0@.len() == 0
                &&& x.status is None && y.status is Some ==> y.status->0@.len() == 0
                &&& json::json_text(x.content@) == json::json_text(y.content@)
            },
        a.images@.len() == b.images@.len(),
        a.documents@.len() == b.documents@.len(),
{
    lemma_marks();
    lemma_user_text(a);
    lemma_user_text(b);
    let mark = "\u{1f}tr:"@;
    let ra = parts_text(mark, result_parts(a)) + attached_text(a);
    let rb = parts_text(mark, result_parts(b)) + attached_text(b);
    lemma_same_front("U\u{1f}"@, a.content@ + ra, b.content@ + rb);
    lemma_parts_are_rest(mark, result_parts(a), attached_text(a));
    lemma_parts_are_rest(mark, result_parts(b), attached_text(b));
    lemma_cut(a.content@, ra, b.content@, rb);
    lemma_parts_apart(
        mark,
        result_parts(a),
        attached_text(a),
        result_parts(b),
        attached_text(b),
    );
    let da = cache_sim::count_text("\u{1f}doc:"@, a.documents@.len());
    let db = cache_sim::count_text("\u{1f}doc:"@, b.documents@.len());
    lemma_counts_apart(
        "\u{1f}img:"@,
        a.images@.len(),
        da + Seq::empty(),
        b.images@.len(),
        db + Seq::empty(),
    );
    lemma_counts_apart(
        "\u{1f}doc:"@,
        a.documents@.len(),
        Seq::empty(),
        b.documents@.len(),
        Seq::empty(),
    );
    assert(result_parts(a).len() == result_parts(b).len());
    assert forall|i: int| 0 <= i < a.user_input_message_context.tool_results@.len() implies {
        let x = #[trigger] a.user_input_message_context.tool_results@[i];
        let y = b.user_input_message_context.tool_results@[i];
        &&& x.tool_use_id@ == y.tool_use_id@
        &&& x.status is Some && y.status is Some ==> x.status->0@ == y.status->0@
        &&& x.status is Some && y.status is None ==> x.status->0@.len() == 0
        &&& x.status is None && y.status is Some ==> y.status->0@.len() == 0
        &&& json::json_text(x.content@) == json::json_text(y.content@)
    } by {
        assert(result_parts(a)[i] == result_part(a.user_input_message_context.tool_results@[i]));
        assert(result_parts(b)[i] == result_part(b.user_input_message_context.tool_results@[i]));
    }
}

/// The texts of answers tell the answers apart: those that differ in their content, or in the
/// identifier, the name or the arguments of a tool call have different texts, where nothing of them
/// holds a separator.
pub proof fn assistant_texts_tell_messages_apart(a: AssistantMessage, b: AssistantMessage)
    requires
        is_plain(a.content@),
        is_plain(b.content@),
        are_plain(use_parts(a)),
        are_plain(use_parts(b)),
        cache_sim::assistant_text(a) == cache_sim::assistant_text(b),
    ensures
        a.content@ == b.content@,
        use_parts(a) == use_parts(b),
        a.tool_uses is Some && b.tool_uses is Some ==> a.tool_uses->0@.len() == b.tool_uses->0@.len()
            && forall|i: int|
            0 <= i < a.tool_uses->0@.len() ==> {
                let x = #[trigger] a.tool_uses->0@[i];
                let y = b.tool_uses->0@[i];
                &&& x.tool_use_id@ == y.tool_use_id@
                &&& x.name@ == y.name@
                &&& json::json_text(x.input@) == json::json_text(y.input@)
            },
{
    lemma_marks();
    lemma_assistant_text(a);
    lemma_assistant_text(b);
    let mark = "\u{1f}tu:"@;
    let ra = parts_text(mark, use_parts(a)) + Seq::empty();
    let rb = parts_text(mark, use_parts(b)) + Seq::empty();
    lemma_same_front("A\u{1f}"@, a.content@ + ra, b.content@ + rb);
    lemma_parts_are_rest(mark, use_parts(a), Seq::empty());
    lemma_parts_are_rest(mark, use_parts(b), Seq::empty());
    lemma_cut(a.content@, ra, b.content@, rb);
    lemma_parts_apart(mark, use_parts(a), Seq::empty(), use_parts(b), Seq::empty());
    if a.tool_uses is Some && b.tool_uses is Some {
        assert(use_parts(a).len() == use_parts(b).len());
        assert forall|i: int| 0 <= i < a.tool_uses->0@.len() implies {
            let x = #[trigger] a.tool_uses->0@[i];
            let y = b.tool_uses->0@[i];
            &&& x.tool_use_id@ == y.tool_use_id@
            &&& x.name@ == y.name@
            &&& json::json_text(x.input@) == json::json_text(y.input@)
        } by {
            assert(use_parts(a)[i] == use_part(a.tool_uses->0@[i]));
            assert(use_parts(b)[i] == use_part(b.tool_uses->0@[i]));
        }
    }
}

proof fn lemma_assistant_text(m: AssistantMessage)
    ensures
        cache_sim::assistant_text(m) == "A\u{1f}"@ + (m.content@ + (parts_text(
            "\u{1f}tu:"@,
            use_parts(m),
        ) + Seq::empty())),
{
    if let Some(uses) = m.tool_uses {
        lemma_uses_text(uses@);
    }
    assert(cache_sim::assistant_text(m) =~= "A\u{1f}"@ + (m.content@ + (parts_text(
        "\u{1f}tu:"@,
        use_parts(m),
    ) + Seq::empty())));
}

/// A message of a user never has the text of an answer.
pub proof fn roles_have_different_texts(a: UserInputMessage, b: AssistantMessage)
    ensures
        cache_sim::user_text(a) != cache_sim::assistant_text(b),
{
    lemma_marks();
    lemma_user_text(a);
    lemma_assistant_text(b);
    assert(cache_sim::user_text(a)[0] == 'U');
    assert(cache_sim::assistant_text(b)[0] == 'A');
}

/// A message of a user that has nothing but its content has that content as its text, behind its
/// mark.
pub proof fn content_stands_in_the_text(m: UserInputMessage)
    requires
        m.user_input_message_context.tool_results@.len() == 0,
        m.images@.len() == 0,
        m.documents@.len() == 0,
    ensures
        cache_sim::user_text(m) == seq!['U', '\u{1f}'] + m.content@,
{
    lemma_marks();
    lemma_user_text(m);
    assert(cache_sim::user_text(m) =~= seq!['U', '\u{1f}'] + m.content@);
}

/// One more tool result adds its mark, its identifier, its status and the JSON text of its content
/// to the text, whatever they hold.
pub proof fn a_result_adds_its_text(before: UserInputMessage, r: ToolResult, after: UserInputMessage)
    requires
        after.content@ == before.content@,
        after.user_input_message_context.tool_results@
            == before.user_input_message_context.tool_results@.push(r),
        before.images@.len() == 0,
        before.documents@.len() == 0,
        after.images@.len() == 0,
        after.documents@.len() == 0,
    ensures
        cache_sim::user_text(after) == cache_sim::user_text(before) + (seq![
            '\u{1f}',
            't',
            'r',
            ':',
        ] + r.tool_use_id@ + seq!['\u{1e}'] + (match r.status {
            Some(s) => s@,
            None => Seq::empty(),
        }) + seq!['\u{1e}'] + json::json_text(r.content@)),
{
    lemma_marks();
    lemma_user_text(before);
    lemma_user_text(after);
    let mark = "\u{1f}tr:"@;
    assert(result_parts(after) =~= result_parts(before).push(result_part(r)));
    lemma_parts_push(mark, result_parts(before), result_part(r));
    assert(attached_text(before) =~= Seq::<char>::empty());
    assert(attached_text(after) =~= Seq::<char>::empty());
    assert(cache_sim::user_text(after) =~= cache_sim::user_text(before) + (seq![
        '\u{1f}',
        't',
        'r',
        ':',
    ] + r.tool_use_id@ + seq!['\u{1e}'] + (match r.status {
        Some(s) => s@,
        None => Seq::empty(),
    }) + seq!['\u{1e}'] + json::json_text(r.content@)));
}

/// Attachments add their numbers to the text, images first, each where there are any.
pub proof fn attachments_add_their_number(bare: UserInputMessage, m: UserInputMessage)
    requires
        m.content@ == bare.content@,
        m.user_input_message_context.tool_results@
            == bare.user_input_message_context.tool_results@,
        bare.images@.len() == 0,
        bare.documents@.len() == 0,
    ensures
        ({
            let images = if m.images@.len() > 0 {
                "\u{1f}img:"@ + text::decimal(m.images@.len())
            } else {
                Seq::empty()
            };
            let documents = if m.documents@.len() > 0 {
                "\u{1f}doc:"@ + text::decimal(m.documents@.len())
            } else {
                Seq::empty()
            };
            cache_sim::user_text(m) == cache_sim::user_text(bare) + images + documents
        }),
{
    lemma_user_text(m);
    lemma_user_text(bare);
    assert(attached_text(bare) =~= Seq::<char>::empty());
    let images = cache_sim::count_text("\u{1f}img:"@, m.images@.len());
    let documents = cache_sim::count_text("\u{1f}doc:"@, m.documents@.len());
    assert(cache_sim::user_text(m) =~= cache_sim::user_text(bare) + images + documents);
}

/// One more tool call adds its mark, its identifier, the name of its tool and the JSON text of its
/// arguments to the text of an answer; an answer without calls has its content behind its mark.
pub proof fn a_call_adds_its_text(before: AssistantMessage, u: ToolUseEntry, after: AssistantMessage)
    requires
        after.content@ == before.content@,
        after.tool_uses matches Some(uses) && uses@ == (match before.tool_uses {
            Some(earlier) => earlier@,
            None => Seq::empty(),
        }).push(u),
    ensures
        cache_sim::assistant_text(after) == cache_sim::assistant_text(before) + (seq![
            '\u{1f}',
            't',
            'u',
            ':',
        ] + u.tool_use_id@ + seq!['\u{1e}'] + u.name@ + seq!['\u{1e}'] + json::json_text(u.input@)),
        before.tool_uses is None ==> cache_sim::assistant_text(before) == seq!['A', '\u{1f}']
            + before.content@,
{
    lemma_marks();
    lemma_assistant_text(before);
    lemma_assistant_text(after);
    let mark = "\u{1f}tu:"@;
    assert(use_parts(after) =~= use_parts(before).push(use_part(u)));
    lemma_parts_push(mark, use_parts(before), use_part(u));
    assert(cache_sim::assistant_text(after) =~= cache_sim::assistant_text(before) + (seq![
        '\u{1f}',
        't',
        'u',
        ':',
    ] + u.tool_use_id@ + seq!['\u{1e}'] + u.name@ + seq!['\u{1e}'] + json::json_text(u.input@)));
    if before.tool_uses is None {
        assert(cache_sim::assistant_text(before) =~= seq!['A', '\u{1f}'] + before.content@);
    }
}

/// Two messages that are alike but for the content of one of their tool results have the same text
/// where the JSON texts of these contents are the same, and only there.
pub proof fn another_result_is_another_text(a: UserInputMessage, b: UserInputMessage, i: int)
    requires
        a.content@ == b.content@,
        a.images@.len() == b.images@.len(),
        a.documents@.len() == b.documents@.len(),
        0 <= i < a.user_input_message_context.tool_results@.len(),
        result_parts(a).len() == result_parts(b).len(),
        forall|j: int|
            0 <= j < result_parts(a).len() && j != i ==> #[trigger] result_parts(a)[j]
                == result_parts(b)[j],
        result_parts(a)[i].id == result_parts(b)[i].id,
        result_parts(a)[i].label == result_parts(b)[i].label,
    ensures
        cache_sim::user_text(a) == cache_sim::user_text(b) <==> json::json_text(
            a.user_input_message_context.tool_results@[i].content@,
        ) == json::json_text(b.user_input_message_context.tool_results@[i].content@),
{
    lemma_user_text(a);
    lemma_user_text(b);
    let mark = "\u{1f}tr:"@;
    let pa = result_parts(a);
    let pb = result_parts(b);
    assert(pa[i] == result_part(a.user_input_message_context.tool_results@[i]));
    assert(pb[i] == result_part(b.user_input_message_context.tool_results@[i]));
    assert(attached_text(a) =~= attached_text(b));
    if pa[i].content == pb[i].content {
        assert(pa =~= pb);
    } else if cache_sim::user_text(a) == cache_sim::user_text(b) {
        let ra = parts_text(mark, pa) + attached_text(a);
        let rb = parts_text(mark, pb) + attached_text(b);
        lemma_same_front("U\u{1f}"@, a.content@ + ra, b.content@ + rb);
        lemma_same_front(a.content@, ra, rb);
        lemma_same_back(parts_text(mark, pa), parts_text(mark, pb), attached_text(a));
        lemma_parts_around(mark, pa, i);
        lemma_parts_around(mark, pb, i);
        assert(pa.take(i) =~= pb.take(i));
        assert(pa.skip(i + 1) =~= pb.skip(i + 1));
        let front = parts_text(mark, pa.take(i));
        let back = parts_text(mark, pa.skip(i + 1));
        lemma_same_front(front, part_text(mark, pa[i]) + back, part_text(mark, pb[i]) + back);
        lemma_same_back(part_text(mark, pa[i]), part_text(mark, pb[i]), back);
        let head = mark + pa[i].id + seq!['\u{1e}'] + pa[i].label + seq!['\u{1e}'];
        assert(part_text(mark, pa[i]) =~= head + pa[i].content);
        assert(part_text(mark, pb[i]) =~= head + pb[i].content);
        lemma_same_front(head, pa[i].content, pb[i].content);
    }
}

proof fn lemma_same_back(x: Seq<char>, y: Seq<char>, back: Seq<char>)
    requires
        x + back == y + back,
    ensures
        x == y,
{
    assert((x + back).len() == (y + back).len());
    assert(x =~= (x + back).take(x.len() as int));
    assert(y =~= (y + back).take(y.len() as int));
}

proof fn lemma_parts_around(mark: Seq<char>, parts: Seq<Part>, i: int)
    requires
        0 <= i < parts.len(),
    ensures
        parts_text(mark, parts) == parts_text(mark, parts.take(i)) + (part_text(mark, parts[i])
            + parts_text(mark, parts.skip(i + 1))),
    decreases i,
{
    if i == 0 {
        assert(parts.take(0) =~= Seq::<Part>::empty());
        assert(parts_text(mark, parts) =~= parts_text(mark, parts.take(i)) + (part_text(
            mark,
            parts[i],
        ) + parts_text(mark, parts.skip(i + 1))));
    } else {
        lemma_parts_around(mark, parts.skip(1), i - 1);
        assert(parts.skip(1).take(i - 1) =~= parts.take(i).skip(1));
        assert(parts.skip(1).skip(i) =~= parts.skip(i + 1));
        assert(parts.take(i)[0] == parts[0]);
        assert(parts_text(mark, parts) =~= parts_text(mark, parts.take(i)) + (part_text(
            mark,
            parts[i],
        ) + parts_text(mark, parts.skip(i + 1))));
    }
}

/// The texts of a conversation: one for each message, the history in its order and then the current
/// message.
pub proof fn every_message_has_its_text(state: ConversationState, i: int)
    ensures
        ({
            let all = cache_sim::state_texts(state);
            let n = state.history@.len() as int;
            &&& all.len() == n + 1
            &&& all[n] == cache_sim::user_text(state.current_message)
            &&& 0 <= i < n ==> all[i] == match state.history@[i] {
                HistoryMessage::User(u) => cache_sim::user_text(u),
                HistoryMessage::Assistant(a) => cache_sim::assistant_text(a),
            }
        }),
{
}

/// The fingerprint of a message holds the hash of the bytes of its text, and its tokens as far as
/// they fit.
pub proof fn fingerprints_hold_hash_and_tokens(state: ConversationState, tokens: Seq<u64>, i: int)
    requires
        0 <= i <= state.history@.len(),
        tokens.len() == state.history@.len() + 1,
    ensures
        ({
            let f = cache_sim::state_fingerprints(state, tokens);
            &&& f.len() == state.history@.len() + 1
            &&& f[i].hash == cache_sim::fnv1a_hash(
                text::bytes_of(cache_sim::state_texts(state)[i]),
            )
            &&& tokens[i] <= u32::MAX ==> f[i].tokens == tokens[i]
            &&& tokens[i] > u32::MAX ==> f[i].tokens == u32::MAX
        }),
{
}

/// What a request has in common with the last one: the tokens that it counts for its messages, from
/// the first one on, up to the first whose hash differs.
pub proof fn the_common_front_is_counted(
    prev: Seq<MsgFingerprint>,
    curr: Seq<MsgFingerprint>,
    n: int,
)
    requires
        0 <= n <= prev.len(),
        n <= curr.len(),
        forall|i: int| 0 <= i < n ==> (#[trigger] prev[i]).hash == curr[i].hash,
        n < prev.len() && n < curr.len() ==> prev[n].hash != curr[n].hash,
    ensures
        cache_sim::prefix_hit(prev, curr) == cache_sim::token_sum(curr.take(n)),
        n < curr.len() ==> cache_sim::token_sum(curr.take(n + 1)) == cache_sim::token_sum(
            curr.take(n),
        ) + curr[n].tokens,
        n == 0 ==> cache_sim::prefix_hit(prev, curr) == 0,
{
    assert(cache_sim::is_common_length(prev, curr, n));
    cache_sim::lemma_common_length(prev, curr, n);
    if n < curr.len() {
        assert(curr.take(n + 1).drop_last() =~= curr.take(n));
    }
}

} // verus!
