//! Edits that shorten the history of a conversation before it is sent on.

use vstd::prelude::*;
use vstd::string::*;

use crate::anthropic::types;
use crate::anthropic::types::{Message, MessageView, MessagesRequest};
use crate::json;
use crate::json::{Json, JsonView};
use crate::text;

verus! {

/// What the edits of a request removed.
#[derive(Debug, Clone, Copy)]
pub struct AppliedResult {
    pub cleared_tool_uses: usize,
    pub cleared_tool_results: usize,
    pub cleared_thinking: usize,
    /// Something was removed.
    pub applied: bool,
}

/// The text under `key`, empty where there is none.
pub open spec fn text_or_empty(v: JsonView, key: Seq<char>) -> Seq<char> {
    match v.member_text(key) {
        Some(s) => s,
        None => Seq::empty(),
    }
}

/// The content blocks of a message, none where its content is no list.
pub open spec fn blocks_of(m: MessageView) -> Seq<JsonView> {
    match m.content.items() {
        Some(s) => s,
        None => Seq::empty(),
    }
}

/// The number of content blocks of a conversation.
pub open spec fn block_count(messages: Seq<MessageView>) -> nat
    decreases messages.len(),
{
    if messages.len() == 0 {
        0
    } else {
        block_count(messages.drop_last()) + blocks_of(messages.last()).len()
    }
}

/// A tool call that may be removed: it has an identifier and its tool is not protected.
pub open spec fn is_clearable(b: JsonView, protected: Seq<Seq<char>>) -> bool {
    &&& text_or_empty(b, "type"@) == "tool_use"@
    &&& text_or_empty(b, "id"@).len() > 0
    &&& !protected.contains(text_or_empty(b, "name"@))
}

/// The identifiers of the tool calls among `blocks` that may be removed, in order.
pub open spec fn clearable_in(blocks: Seq<JsonView>, protected: Seq<Seq<char>>) -> Seq<Seq<char>>
    decreases blocks.len(),
{
    if blocks.len() == 0 {
        Seq::empty()
    } else if is_clearable(blocks.last(), protected) {
        clearable_in(blocks.drop_last(), protected).push(text_or_empty(blocks.last(), "id"@))
    } else {
        clearable_in(blocks.drop_last(), protected)
    }
}

/// The identifiers of all tool calls of a conversation that may be removed, in order.
pub open spec fn clearable_ids(messages: Seq<MessageView>, protected: Seq<Seq<char>>) -> Seq<Seq<char>>
    decreases messages.len(),
{
    if messages.len() == 0 {
        Seq::empty()
    } else {
        clearable_ids(messages.drop_last(), protected) + clearable_in(
            blocks_of(messages.last()),
            protected,
        )
    }
}

/// What is in front of the last `keep` of `n` things.
pub open spec fn all_but_last(n: int, keep: int) -> int {
    if n > keep {
        n - keep
    } else {
        0
    }
}

/// The block is the result of a tool call whose identifier is in `cleared`.
pub open spec fn is_cleared_result(b: JsonView, cleared: Seq<Seq<char>>) -> bool {
    text_or_empty(b, "type"@) == "tool_result"@ && cleared.contains(
        text_or_empty(b, "tool_use_id"@),
    )
}

/// What is left of a list of blocks, the numbers of calls and results that are gone, and how many
/// calls are still to go.
pub struct Cleared {
    pub kept: Seq<JsonView>,
    pub uses: nat,
    pub results: nat,
    pub left: nat,
}

/// The blocks without the first `n` tool calls that may be removed, and without the results of the
/// calls in `cleared`.
pub open spec fn clear_blocks(
    blocks: Seq<JsonView>,
    n: nat,
    cleared: Seq<Seq<char>>,
    protected: Seq<Seq<char>>,
) -> Cleared
    decreases blocks.len(),
{
    if blocks.len() == 0 {
        Cleared { kept: Seq::empty(), uses: 0, results: 0, left: n }
    } else {
        let front = clear_blocks(blocks.drop_last(), n, cleared, protected);
        let b = blocks.last();
        if front.left > 0 && is_clearable(b, protected) {
            Cleared { uses: front.uses + 1, left: (front.left - 1) as nat, ..front }
        } else if is_cleared_result(b, cleared) {
            Cleared { results: front.results + 1, ..front }
        } else {
            Cleared { kept: front.kept.push(b), ..front }
        }
    }
}

/// The message has content.
pub open spec fn is_nonempty(m: MessageView) -> bool {
    match m.content {
        JsonView::Array(items) => items.len() > 0,
        JsonView::Text(s) => s.len() > 0,
        _ => true,
    }
}

/// The messages that have content.
pub open spec fn nonempty(messages: Seq<MessageView>) -> Seq<MessageView>
    decreases messages.len(),
{
    if messages.len() == 0 {
        Seq::empty()
    } else if is_nonempty(messages.last()) {
        nonempty(messages.drop_last()).push(messages.last())
    } else {
        nonempty(messages.drop_last())
    }
}

/// A message with other content blocks; one without a list of blocks stays as it is.
pub open spec fn with_blocks(m: MessageView, blocks: Seq<JsonView>) -> MessageView {
    match m.content {
        JsonView::Array(_) => MessageView { role: m.role, content: JsonView::Array(blocks) },
        _ => m,
    }
}

/// A conversation, and the numbers of tool calls, tool results and thinking blocks that were
/// removed from it.
pub struct Edited {
    pub messages: Seq<MessageView>,
    pub uses: nat,
    pub results: nat,
    pub thinking: nat,
}

/// The messages without the first `n` tool calls that may be removed, and without the results of
/// the calls in `cleared`; and how many calls are still to go.
pub open spec fn clear_messages(
    messages: Seq<MessageView>,
    n: nat,
    cleared: Seq<Seq<char>>,
    protected: Seq<Seq<char>>,
) -> (Edited, nat)
    decreases messages.len(),
{
    if messages.len() == 0 {
        (Edited { messages: Seq::empty(), uses: 0, results: 0, thinking: 0 }, n)
    } else {
        let (front, left) = clear_messages(messages.drop_last(), n, cleared, protected);
        let m = messages.last();
        let c = clear_blocks(blocks_of(m), left, cleared, protected);
        (
            Edited {
                messages: front.messages.push(with_blocks(m, c.kept)),
                uses: front.uses + c.uses,
                results: front.results + c.results,
                thinking: 0,
            },
            c.left,
        )
    }
}

/// A conversation without its tool calls but the last `keep` and those of protected tools, and
/// without the results of what was removed. Messages that have no content then go too.
pub open spec fn tool_uses_cleared(
    messages: Seq<MessageView>,
    keep: int,
    protected: Seq<Seq<char>>,
) -> Edited {
    let ids = clearable_ids(messages, protected);
    let n = all_but_last(ids.len() as int, keep);
    if n == 0 {
        Edited { messages, uses: 0, results: 0, thinking: 0 }
    } else {
        let e = clear_messages(messages, n as nat, ids.take(n), protected).0;
        Edited { messages: nonempty(e.messages), ..e }
    }
}

/// The text under `key`, empty where there is none.
fn get_text_or_empty(v: &Json, key: &str) -> (r: String)
    ensures
        r@ == text_or_empty(v@, key@),
{
    match v.get_text(key) {
        Some(s) => s.clone(),
        None => String::new(),
    }
}

/// Adds the identifiers of the tool calls among `blocks` that may be removed.
fn collect_clearable(blocks: &Vec<Json>, protected: &Vec<String>, ids: &mut Vec<String>)
    ensures
        text::texts(final(ids)@) == text::texts(old(ids)@) + clearable_in(
            json::json_models(blocks@),
            text::texts(protected@),
        ),
{
    let ghost models = json::json_models(blocks@);
    let ghost first = text::texts(ids@);
    let ghost names = text::texts(protected@);
    proof {
        json::lemma_json_models(blocks@);
        assert(models.take(0) =~= Seq::<JsonView>::empty());
        assert(first + clearable_in(models.take(0), names) =~= first);
    }
    let mut i: usize = 0;
    while i < blocks.len()
        invariant
            i <= blocks@.len(),
            models.len() == blocks@.len(),
            forall|j: int| 0 <= j < blocks@.len() ==> #[trigger] models[j] == blocks@[j]@,
            names == text::texts(protected@),
            text::texts(ids@) == first + clearable_in(models.take(i as int), names),
        decreases blocks@.len() - i,
    {
        let ghost before = ids@;
        proof {
            assert(models.take(i + 1).drop_last() =~= models.take(i as int));
            assert(models.take(i + 1).last() == blocks@[i as int]@);
        }
        let kind = get_text_or_empty(&blocks[i], "type");
        if text::same_text(kind.as_str(), "tool_use") {
            let id = get_text_or_empty(&blocks[i], "id");
            let name = get_text_or_empty(&blocks[i], "name");
            if !id.as_str().is_empty() && !text::contains_text(protected, name.as_str()) {
                let ghost id_text = id@;
                ids.push(id);
                proof {
                    assert(text::texts(ids@) =~= text::texts(before).push(id_text));
                    assert(text::texts(ids@) =~= first + clearable_in(models.take(i + 1), names));
                }
            }
        }
        i = i + 1;
    }
    proof {
        assert(models.take(i as int) =~= models);
    }
}

/// Removes the first `left` tool calls that may be removed, and the results of the calls in
/// `cleared`.
fn filter_blocks(
    blocks: Vec<Json>,
    left: usize,
    cleared: &Vec<String>,
    protected: &Vec<String>,
) -> (r: (Vec<Json>, usize, usize, usize))
    ensures
        ({
            let c = clear_blocks(
                json::json_models(blocks@),
                left as nat,
                text::texts(cleared@),
                text::texts(protected@),
            );
            &&& json::json_models(r.0@) == c.kept
            &&& r.1 == c.uses
            &&& r.2 == c.results
            &&& r.3 == c.left
        }),
        r.0@.len() + r.1 + r.2 == blocks@.len(),
{
    let ghost all = blocks@;
    let ghost models = json::json_models(all);
    let ghost ids = text::texts(cleared@);
    let ghost names = text::texts(protected@);
    let _len: usize = blocks.len();
    proof {
        json::lemma_json_models(all);
        assert(models.take(0) =~= Seq::<JsonView>::empty());
    }
    let mut kept: Vec<Json> = Vec::new();
    let mut uses: usize = 0;
    let mut results: usize = 0;
    let mut still: usize = left;
    for block in it: blocks
        invariant
            it.seq() == all,
            all.len() <= usize::MAX,
            models.len() == all.len(),
            forall|j: int| 0 <= j < all.len() ==> #[trigger] models[j] == all[j]@,
            ids == text::texts(cleared@),
            names == text::texts(protected@),
            ({
                let c = clear_blocks(models.take(it.index() as int), left as nat, ids, names);
                &&& json::json_models(kept@) == c.kept
                &&& uses == c.uses
                &&& results == c.results
                &&& still == c.left
            }),
            kept@.len() + uses + results == it.index(),
    {
        let ghost i = it.index() as int;
        let ghost before = kept@;
        proof {
            assert(models.take(i + 1).drop_last() =~= models.take(i));
            assert(models.take(i + 1).last() == block@);
        }
        let kind = get_text_or_empty(&block, "type");
        let id = get_text_or_empty(&block, "id");
        let name = get_text_or_empty(&block, "name");
        let result_of = get_text_or_empty(&block, "tool_use_id");
        if still > 0 && text::same_text(kind.as_str(), "tool_use") && !id.as_str().is_empty()
            && !text::contains_text(protected, name.as_str()) {
            uses = uses + 1;
            still = still - 1;
        } else if text::same_text(kind.as_str(), "tool_result") && text::contains_text(
            cleared,
            result_of.as_str(),
        ) {
            results = results + 1;
        } else {
            kept.push(block);
            proof {
                assert(kept@.drop_last() =~= before);
            }
        }
    }
    proof {
        assert(models.take(all.len() as int) =~= models);
    }
    (kept, uses, results, still)
}

proof fn lemma_views_push(messages: Seq<Message>, m: Message)
    ensures
        types::message_views(messages.push(m)) == types::message_views(messages).push(m@),
{
    assert(types::message_views(messages.push(m)) =~= types::message_views(messages).push(m@));
}

proof fn lemma_block_count_prefix(messages: Seq<MessageView>, n: int)
    requires
        0 <= n < messages.len(),
    ensures
        block_count(messages.take(n)) + blocks_of(messages[n]).len() == block_count(
            messages.take(n + 1),
        ),
        block_count(messages.take(n + 1)) <= block_count(messages),
    decreases messages.len() - n,
{
    assert(messages.take(n + 1).drop_last() =~= messages.take(n));
    assert(messages.take(n + 1).last() == messages[n]);
    if n + 1 < messages.len() {
        lemma_block_count_prefix(messages, n + 1);
    } else {
        assert(messages.take(n + 1) =~= messages);
    }
}

/// The identifiers of all tool calls that may be removed, in order.
fn collect_ids(messages: &Vec<Message>, protected: &Vec<String>) -> (r: Vec<String>)
    ensures
        text::texts(r@) == clearable_ids(
            types::message_views(messages@),
            text::texts(protected@),
        ),
{
    let ghost views = types::message_views(messages@);
    let ghost names = text::texts(protected@);
    let mut ids: Vec<String> = Vec::new();
    let mut i: usize = 0;
    proof {
        assert(views.take(0) =~= Seq::<MessageView>::empty());
        assert(text::texts(ids@) =~= Seq::<Seq<char>>::empty());
    }
    while i < messages.len()
        invariant
            i <= messages@.len(),
            views == types::message_views(messages@),
            names == text::texts(protected@),
            text::texts(ids@) == clearable_ids(views.take(i as int), names),
        decreases messages@.len() - i,
    {
        proof {
            assert(views.take(i + 1).drop_last() =~= views.take(i as int));
            assert(views.take(i + 1).last() == messages@[i as int]@);
        }
        let ghost before = text::texts(ids@);
        match messages[i].content.as_array() {
            Some(blocks) => {
                collect_clearable(blocks, protected, &mut ids);
            },
            None => {
                proof {
                    assert(blocks_of(messages@[i as int]@) =~= Seq::<JsonView>::empty());
                    assert(before + Seq::<Seq<char>>::empty() =~= before);
                }
            },
        }
        i = i + 1;
    }
    proof {
        assert(views.take(i as int) =~= views);
    }
    ids
}

/// Removes the first `count` tool calls that may be removed, and the results of the calls in
/// `cleared`, from the messages.
fn filter_messages(
    messages: Vec<Message>,
    count: usize,
    cleared: &Vec<String>,
    protected: &Vec<String>,
) -> (r: (Vec<Message>, usize, usize))
    requires
        block_count(types::message_views(messages@)) <= usize::MAX,
    ensures
        ({
            let e = clear_messages(
                types::message_views(messages@),
                count as nat,
                text::texts(cleared@),
                text::texts(protected@),
            ).0;
            &&& types::message_views(r.0@) == e.messages
            &&& r.1 == e.uses
            &&& r.2 == e.results
        }),
        block_count(types::message_views(r.0@)) + r.1 + r.2 == block_count(
            types::message_views(messages@),
        ),
{
    let ghost all = messages@;
    let ghost views = types::message_views(all);
    let ghost ids = text::texts(cleared@);
    let ghost names = text::texts(protected@);
    let mut out: Vec<Message> = Vec::new();
    let mut uses: usize = 0;
    let mut results: usize = 0;
    let mut left: usize = count;
    proof {
        assert(views.take(0) =~= Seq::<MessageView>::empty());
        assert(types::message_views(out@) =~= Seq::<MessageView>::empty());
    }
    for message in it: messages
        invariant
            it.seq() == all,
            views == types::message_views(all),
            ids == text::texts(cleared@),
            names == text::texts(protected@),
            block_count(views) <= usize::MAX,
            ({
                let (e, still) = clear_messages(
                    views.take(it.index() as int),
                    count as nat,
                    ids,
                    names,
                );
                &&& types::message_views(out@) == e.messages
                &&& uses == e.uses
                &&& results == e.results
                &&& left == still
            }),
            block_count(types::message_views(out@)) + uses + results == block_count(
                views.take(it.index() as int),
            ),
    {
        let ghost i = it.index() as int;
        let ghost before = out@;
        proof {
            assert(views[i] == message@);
            lemma_block_count_prefix(views, i);
            assert(views.take(i + 1).drop_last() =~= views.take(i));
            assert(views.take(i + 1).last() == message@);
        }
        let Message { role, content } = message;
        let (new_content, u, c, still): (Json, usize, usize, usize) = match content {
            Json::Array(blocks) => {
                proof {
                    json::lemma_json_models(blocks@);
                }
                let (kept, u, c, still) = filter_blocks(blocks, left, cleared, protected);
                proof {
                    json::lemma_json_models(kept@);
                }
                (Json::Array(kept), u, c, still)
            },
            other => {
                proof {
                    assert(blocks_of(message@) =~= Seq::<JsonView>::empty());
                }
                (other, 0, 0, left)
            },
        };
        uses = uses + u;
        results = results + c;
        left = still;
        let new_message = Message { role, content: new_content };
        out.push(new_message);
        proof {
            lemma_views_push(before, new_message);
            assert(types::message_views(out@).drop_last() =~= types::message_views(before));
        }
    }
    proof {
        assert(views.take(all.len() as int) =~= views);
    }
    (out, uses, results)
}

/// Drops the messages that have no content.
fn drop_empty(messages: Vec<Message>) -> (r: Vec<Message>)
    ensures
        types::message_views(r@) == nonempty(types::message_views(messages@)),
        block_count(types::message_views(r@)) == block_count(types::message_views(messages@)),
{
    let ghost all = messages@;
    let ghost views = types::message_views(all);
    let mut out: Vec<Message> = Vec::new();
    proof {
        assert(views.take(0) =~= Seq::<MessageView>::empty());
        assert(types::message_views(out@) =~= Seq::<MessageView>::empty());
    }
    for message in it: messages
        invariant
            it.seq() == all,
            views == types::message_views(all),
            types::message_views(out@) == nonempty(views.take(it.index() as int)),
            block_count(types::message_views(out@)) == block_count(
                views.take(it.index() as int),
            ),
    {
        let ghost i = it.index() as int;
        let ghost before = out@;
        proof {
            assert(views[i] == message@);
            lemma_block_count_prefix(views, i);
            assert(views.take(i + 1).drop_last() =~= views.take(i));
            assert(views.take(i + 1).last() == message@);
        }
        let keep: bool = match &message.content {
            Json::Array(items) => {
                proof {
                    json::lemma_json_models(items@);
                }
                items.len() > 0
            },
            Json::Text(s) => !s.as_str().is_empty(),
            _ => true,
        };
        assert(keep == is_nonempty(message@));
        if keep {
            out.push(message);
            proof {
                lemma_views_push(before, message);
                assert(types::message_views(out@).drop_last() =~= types::message_views(before));
            }
        }
    }
    proof {
        assert(views.take(all.len() as int) =~= views);
    }
    out
}

/// Removes the tool calls but the last `keep` and those of protected tools, and the results of
/// what it removes.
pub fn clear_tool_uses(
    messages: &mut Vec<Message>,
    keep: u64,
    exclude_tools: &Vec<String>,
) -> (r: AppliedResult)
    requires
        block_count(types::message_views(old(messages)@)) <= usize::MAX,
    ensures
        ({
            let e = tool_uses_cleared(
                types::message_views(old(messages)@),
                keep as int,
                text::texts(exclude_tools@),
            );
            &&& types::message_views(final(messages)@) == e.messages
            &&& r.cleared_tool_uses == e.uses
            &&& r.cleared_tool_results == e.results
            &&& r.cleared_thinking == 0
            &&& r.applied == (e.uses + e.results > 0)
        }),
        block_count(types::message_views(final(messages)@)) + r.cleared_tool_uses
            + r.cleared_tool_results == block_count(types::message_views(old(messages)@)),
{
    let mut ids = collect_ids(messages, exclude_tools);
    let ghost all_ids = text::texts(ids@);
    if ids.len() as u64 <= keep {
        return AppliedResult {
            cleared_tool_uses: 0,
            cleared_tool_results: 0,
            cleared_thinking: 0,
            applied: false,
        };
    }
    let count: usize = ids.len() - keep as usize;
    ids.truncate(count);
    proof {
        assert(text::texts(ids@) =~= all_ids.take(count as int));
    }
    let mut taken: Vec<Message> = Vec::new();
    core::mem::swap(&mut taken, messages);
    let (filtered, uses, results) = filter_messages(taken, count, &ids, exclude_tools);
    *messages = drop_empty(filtered);
    AppliedResult {
        cleared_tool_uses: uses,
        cleared_tool_results: results,
        cleared_thinking: 0,
        applied: uses > 0 || results > 0,
    }
}

/// The block holds thinking.
pub open spec fn is_thinking(b: JsonView) -> bool {
    b.member_text("type"@) == Some("thinking"@)
}

/// The number of blocks that hold thinking.
pub open spec fn thinking_in(blocks: Seq<JsonView>) -> nat
    decreases blocks.len(),
{
    if blocks.len() == 0 {
        0
    } else {
        thinking_in(blocks.drop_last()) + (if is_thinking(blocks.last()) {
            1nat
        } else {
            0
        })
    }
}

/// The blocks of a message in which thinking is looked for: those of an assistant.
pub open spec fn assistant_blocks(m: MessageView) -> Seq<JsonView> {
    if m.role == "assistant"@ {
        blocks_of(m)
    } else {
        Seq::empty()
    }
}

/// The number of thinking blocks of a conversation.
pub open spec fn thinking_count(messages: Seq<MessageView>) -> nat
    decreases messages.len(),
{
    if messages.len() == 0 {
        0
    } else {
        thinking_count(messages.drop_last()) + thinking_in(assistant_blocks(messages.last()))
    }
}

/// The blocks without the first `n` that hold thinking, and how many of these `n` were not found.
pub open spec fn without_thinking(blocks: Seq<JsonView>, n: nat) -> (Seq<JsonView>, nat)
    decreases blocks.len(),
{
    if blocks.len() == 0 {
        (Seq::empty(), n)
    } else {
        let (front, left) = without_thinking(blocks.drop_last(), n);
        if left > 0 && is_thinking(blocks.last()) {
            (front, (left - 1) as nat)
        } else {
            (front.push(blocks.last()), left)
        }
    }
}

/// The messages without the first `n` thinking blocks, and how many of these were not found.
pub open spec fn messages_without_thinking(messages: Seq<MessageView>, n: nat) -> (
    Seq<MessageView>,
    nat,
)
    decreases messages.len(),
{
    if messages.len() == 0 {
        (Seq::empty(), n)
    } else {
        let (front, left) = messages_without_thinking(messages.drop_last(), n);
        let m = messages.last();
        if m.role == "assistant"@ {
            let (kept, left2) = without_thinking(blocks_of(m), left);
            (front.push(with_blocks(m, kept)), left2)
        } else {
            (front.push(m), left)
        }
    }
}

/// A conversation without its thinking but the last `keep` blocks. Messages that have no content
/// then go too.
pub open spec fn thinking_cleared(messages: Seq<MessageView>, keep: int) -> Edited {
    let n = all_but_last(thinking_count(messages) as int, keep);
    if n == 0 {
        Edited { messages, uses: 0, results: 0, thinking: 0 }
    } else {
        Edited {
            messages: nonempty(messages_without_thinking(messages, n as nat).0),
            uses: 0,
            results: 0,
            thinking: n as nat,
        }
    }
}

proof fn lemma_without_thinking(blocks: Seq<JsonView>, n: nat)
    ensures
        without_thinking(blocks, n).1 == (if n > thinking_in(blocks) {
            (n - thinking_in(blocks)) as nat
        } else {
            0
        }),
        without_thinking(blocks, n).0.len() + n == blocks.len() + without_thinking(blocks, n).1,
        thinking_in(without_thinking(blocks, n).0) + n == thinking_in(blocks) + without_thinking(
            blocks,
            n,
        ).1,
        thinking_in(blocks) <= blocks.len(),
    decreases blocks.len(),
{
    if blocks.len() > 0 {
        lemma_without_thinking(blocks.drop_last(), n);
        let (front, left) = without_thinking(blocks.drop_last(), n);
        assert(front.push(blocks.last()).drop_last() =~= front);
    }
}

/// The number of blocks that hold thinking.
fn count_thinking(blocks: &Vec<Json>) -> (r: usize)
    ensures
        r == thinking_in(json::json_models(blocks@)),
        r <= blocks@.len(),
{
    let ghost models = json::json_models(blocks@);
    proof {
        json::lemma_json_models(blocks@);
        assert(models.take(0) =~= Seq::<JsonView>::empty());
    }
    let mut count: usize = 0;
    let mut i: usize = 0;
    while i < blocks.len()
        invariant
            i <= blocks@.len(),
            models.len() == blocks@.len(),
            forall|j: int| 0 <= j < blocks@.len() ==> #[trigger] models[j] == blocks@[j]@,
            count == thinking_in(models.take(i as int)),
            count <= i,
        decreases blocks@.len() - i,
    {
        proof {
            assert(models.take(i + 1).drop_last() =~= models.take(i as int));
            assert(models.take(i + 1).last() == blocks@[i as int]@);
        }
        if block_is_thinking(&blocks[i]) {
            count = count + 1;
        }
        i = i + 1;
    }
    proof {
        assert(models.take(i as int) =~= models);
    }
    count
}

fn block_is_thinking(block: &Json) -> (r: bool)
    ensures
        r == is_thinking(block@),
{
    match block.get_text("type") {
        Some(kind) => text::same_text(kind.as_str(), "thinking"),
        None => false,
    }
}

/// The number of thinking blocks of a conversation.
fn count_all_thinking(messages: &Vec<Message>) -> (r: usize)
    requires
        block_count(types::message_views(messages@)) <= usize::MAX,
    ensures
        r == thinking_count(types::message_views(messages@)),
{
    let ghost views = types::message_views(messages@);
    let mut count: usize = 0;
    let mut i: usize = 0;
    proof {
        assert(views.take(0) =~= Seq::<MessageView>::empty());
    }
    while i < messages.len()
        invariant
            i <= messages@.len(),
            views == types::message_views(messages@),
            block_count(views) <= usize::MAX,
            count == thinking_count(views.take(i as int)),
            count <= block_count(views.take(i as int)),
        decreases messages@.len() - i,
    {
        proof {
            lemma_block_count_prefix(views, i as int);
            assert(views.take(i + 1).drop_last() =~= views.take(i as int));
            assert(views.take(i + 1).last() == messages@[i as int]@);
            assert(views[i as int] == messages@[i as int]@);
        }
        if text::same_text(messages[i].role.as_str(), "assistant") {
            match messages[i].content.as_array() {
                Some(blocks) => {
                    proof {
                        json::lemma_json_models(blocks@);
                    }
                    count = count + count_thinking(blocks);
                },
                None => {
                    proof {
                        assert(blocks_of(messages@[i as int]@) =~= Seq::<JsonView>::empty());
                    }
                },
            }
        }
        i = i + 1;
    }
    proof {
        assert(views.take(i as int) =~= views);
    }
    count
}

/// Removes the first `n` blocks that hold thinking; also says how many of these were not found.
fn filter_thinking(blocks: Vec<Json>, n: usize) -> (r: (Vec<Json>, usize))
    ensures
        (json::json_models(r.0@), r.1 as nat) == without_thinking(
            json::json_models(blocks@),
            n as nat,
        ),
{
    let ghost all = blocks@;
    let ghost models = json::json_models(all);
    proof {
        json::lemma_json_models(all);
        assert(models.take(0) =~= Seq::<JsonView>::empty());
    }
    let mut kept: Vec<Json> = Vec::new();
    let mut left: usize = n;
    for block in it: blocks
        invariant
            it.seq() == all,
            models.len() == all.len(),
            forall|j: int| 0 <= j < all.len() ==> #[trigger] models[j] == all[j]@,
            (json::json_models(kept@), left as nat) == without_thinking(
                models.take(it.index() as int),
                n as nat,
            ),
    {
        let ghost i = it.index() as int;
        let ghost before = kept@;
        proof {
            assert(models.take(i + 1).drop_last() =~= models.take(i));
            assert(models.take(i + 1).last() == block@);
        }
        if left > 0 && block_is_thinking(&block) {
            left = left - 1;
        } else {
            kept.push(block);
            proof {
                assert(kept@.drop_last() =~= before);
            }
        }
    }
    proof {
        assert(models.take(all.len() as int) =~= models);
    }
    (kept, left)
}

/// Removes the first `n` thinking blocks of a conversation.
fn filter_all_thinking(messages: Vec<Message>, n: usize) -> (r: Vec<Message>)
    requires
        n <= thinking_count(types::message_views(messages@)),
    ensures
        types::message_views(r@) == messages_without_thinking(
            types::message_views(messages@),
            n as nat,
        ).0,
        block_count(types::message_views(r@)) + n == block_count(types::message_views(messages@)),
{
    let ghost all = messages@;
    let ghost views = types::message_views(all);
    let mut out: Vec<Message> = Vec::new();
    let mut left: usize = n;
    proof {
        assert(views.take(0) =~= Seq::<MessageView>::empty());
        assert(types::message_views(out@) =~= Seq::<MessageView>::empty());
    }
    for message in it: messages
        invariant
            it.seq() == all,
            views == types::message_views(all),
            (types::message_views(out@), left as nat) == messages_without_thinking(
                views.take(it.index() as int),
                n as nat,
            ),
            block_count(types::message_views(out@)) + n == block_count(
                views.take(it.index() as int),
            ) + left,
            left == (if n > thinking_count(views.take(it.index() as int)) {
                n - thinking_count(views.take(it.index() as int))
            } else {
                0
            }),
    {
        let ghost i = it.index() as int;
        let ghost before = out@;
        proof {
            assert(views[i] == message@);
            lemma_block_count_prefix(views, i);
            assert(views.take(i + 1).drop_last() =~= views.take(i));
            assert(views.take(i + 1).last() == message@);
        }
        let Message { role, content } = message;
        let assistant: bool = text::same_text(role.as_str(), "assistant");
        let new_content: Json = match content {
            Json::Array(blocks) => if assistant {
                let ghost models = json::json_models(blocks@);
                let (kept, rest) = filter_thinking(blocks, left);
                proof {
                    lemma_without_thinking(models, left as nat);
                }
                left = rest;
                Json::Array(kept)
            } else {
                Json::Array(blocks)
            },
            other => {
                proof {
                    assert(blocks_of(message@) =~= Seq::<JsonView>::empty());
                }
                other
            },
        };
        let new_message = Message { role, content: new_content };
        out.push(new_message);
        proof {
            lemma_views_push(before, new_message);
            assert(types::message_views(out@).drop_last() =~= types::message_views(before));
        }
    }
    proof {
        assert(views.take(all.len() as int) =~= views);
    }
    out
}

/// Removes the thinking of a conversation but its last `keep` blocks; says how much it removed.
pub fn clear_thinking(messages: &mut Vec<Message>, keep: u64) -> (r: usize)
    requires
        block_count(types::message_views(old(messages)@)) <= usize::MAX,
    ensures
        ({
            let e = thinking_cleared(types::message_views(old(messages)@), keep as int);
            types::message_views(final(messages)@) == e.messages && r == e.thinking
        }),
        block_count(types::message_views(final(messages)@)) + r == block_count(
            types::message_views(old(messages)@),
        ),
{
    let total: usize = count_all_thinking(messages);
    if total as u64 <= keep {
        return 0;
    }
    let count: usize = total - keep as usize;
    let mut taken: Vec<Message> = Vec::new();
    core::mem::swap(&mut taken, messages);
    let filtered = filter_all_thinking(taken, count);
    *messages = drop_empty(filtered);
    count
}

/// What the edit says under `key` and `value`.
pub open spec fn setting(edit: JsonView, key: Seq<char>) -> Option<JsonView> {
    match edit.member(key) {
        Some(v) => v.member("value"@),
        None => None,
    }
}

/// From how many input tokens on the edit applies; 0 where it always does.
pub open spec fn trigger_of(edit: JsonView) -> int {
    match setting(edit, "trigger"@) {
        Some(v) => match v.unsigned() {
            Some(n) => n,
            None => 0,
        },
        None => 0,
    }
}

/// How many the edit keeps: three where it does not say.
pub open spec fn keep_of(edit: JsonView) -> int {
    match setting(edit, "keep"@) {
        Some(v) => match v.unsigned() {
            Some(n) => n,
            None => 3,
        },
        None => 3,
    }
}

/// The texts of a list, without its other items.
pub open spec fn texts_in(items: Seq<JsonView>) -> Seq<Seq<char>>
    decreases items.len(),
{
    if items.len() == 0 {
        Seq::empty()
    } else {
        match items.last().text() {
            Some(s) => texts_in(items.drop_last()).push(s),
            None => texts_in(items.drop_last()),
        }
    }
}

/// The tools that the edit protects.
pub open spec fn protected_by(edit: JsonView) -> Seq<Seq<char>> {
    match edit.member("exclude_tools"@) {
        Some(v) => match v.items() {
            Some(items) => texts_in(items),
            None => Seq::empty(),
        },
        None => Seq::empty(),
    }
}

/// The edit applies to a request of this size.
pub open spec fn is_triggered(edit: JsonView, input_tokens: int) -> bool {
    trigger_of(edit) == 0 || input_tokens >= trigger_of(edit)
}

/// What one edit does. Edits of other types do nothing.
pub open spec fn edit_applied(e: Edited, edit: JsonView, input_tokens: int) -> Edited {
    let kind = text_or_empty(edit, "type"@);
    if kind == "clear_tool_uses_20250605"@ && is_triggered(edit, input_tokens) {
        let r = tool_uses_cleared(e.messages, keep_of(edit), protected_by(edit));
        Edited {
            messages: r.messages,
            uses: e.uses + r.uses,
            results: e.results + r.results,
            thinking: e.thinking,
        }
    } else if kind == "clear_thinking_20251015"@ && is_triggered(edit, input_tokens) {
        let r = thinking_cleared(e.messages, keep_of(edit));
        Edited { messages: r.messages, thinking: e.thinking + r.thinking, ..e }
    } else {
        e
    }
}

/// What a list of edits does, one after another.
pub open spec fn edits_applied(messages: Seq<MessageView>, edits: Seq<JsonView>, input_tokens: int) -> Edited
    decreases edits.len(),
{
    if edits.len() == 0 {
        Edited { messages, uses: 0, results: 0, thinking: 0 }
    } else {
        edit_applied(
            edits_applied(messages, edits.drop_last(), input_tokens),
            edits.last(),
            input_tokens,
        )
    }
}

/// The edits that a request asks for.
pub open spec fn edits_of(context_management: Option<Json>) -> Seq<JsonView> {
    match context_management {
        Some(cm) => match cm@.member("edits"@) {
            Some(v) => match v.items() {
                Some(items) => items,
                None => Seq::empty(),
            },
            None => Seq::empty(),
        },
        None => Seq::empty(),
    }
}

fn read_setting<'a>(edit: &'a Json, key: &str) -> (r: Option<&'a Json>)
    ensures
        match r {
            Some(v) => setting(edit@, key@) == Some(v@),
            None => setting(edit@, key@) is None,
        },
{
    match edit.get(key) {
        Some(v) => v.get("value"),
        None => None,
    }
}

fn read_trigger(edit: &Json) -> (r: u64)
    ensures
        r == trigger_of(edit@),
{
    match read_setting(edit, "trigger") {
        Some(v) => match v.as_u64() {
            Some(n) => n,
            None => 0,
        },
        None => 0,
    }
}

fn read_keep(edit: &Json) -> (r: u64)
    ensures
        r == keep_of(edit@),
{
    match read_setting(edit, "keep") {
        Some(v) => match v.as_u64() {
            Some(n) => n,
            None => 3,
        },
        None => 3,
    }
}

fn read_protected(edit: &Json) -> (r: Vec<String>)
    ensures
        text::texts(r@) == protected_by(edit@),
{
    let mut names: Vec<String> = Vec::new();
    proof {
        assert(text::texts(names@) =~= Seq::<Seq<char>>::empty());
    }
    if let Some(v) = edit.get("exclude_tools") {
        if let Some(items) = v.as_array() {
            let ghost models = json::json_models(items@);
            proof {
                json::lemma_json_models(items@);
                assert(models.take(0) =~= Seq::<JsonView>::empty());
            }
            let mut i: usize = 0;
            while i < items.len()
                invariant
                    i <= items@.len(),
                    models.len() == items@.len(),
                    forall|j: int| 0 <= j < items@.len() ==> #[trigger] models[j] == items@[j]@,
                    text::texts(names@) == texts_in(models.take(i as int)),
                decreases items@.len() - i,
            {
                let ghost before = names@;
                proof {
                    assert(models.take(i + 1).drop_last() =~= models.take(i as int));
                    assert(models.take(i + 1).last() == items@[i as int]@);
                }
                if let Some(name) = items[i].as_text() {
                    names.push(name.clone());
                    proof {
                        assert(text::texts(names@) =~= text::texts(before).push(name@));
                    }
                }
                i = i + 1;
            }
            proof {
                assert(models.take(i as int) =~= models);
            }
        }
    }
    names
}

/// What has been edited so far.
pub open spec fn edited_so_far(messages: Seq<Message>, r: AppliedResult) -> Edited {
    Edited {
        messages: types::message_views(messages),
        uses: r.cleared_tool_uses as nat,
        results: r.cleared_tool_results as nat,
        thinking: r.cleared_thinking as nat,
    }
}

/// Applies one edit.
fn apply_edit(
    messages: &mut Vec<Message>,
    result: AppliedResult,
    edit: &Json,
    current_input_tokens: i32,
) -> (r: AppliedResult)
    requires
        block_count(types::message_views(old(messages)@)) + result.cleared_tool_uses
            + result.cleared_tool_results + result.cleared_thinking <= usize::MAX,
        result.applied == (result.cleared_tool_uses + result.cleared_tool_results
            + result.cleared_thinking > 0),
    ensures
        edited_so_far(final(messages)@, r) == edit_applied(
            edited_so_far(old(messages)@, result),
            edit@,
            current_input_tokens as int,
        ),
        block_count(types::message_views(final(messages)@)) + r.cleared_tool_uses
            + r.cleared_tool_results + r.cleared_thinking == block_count(
            types::message_views(old(messages)@),
        ) + result.cleared_tool_uses + result.cleared_tool_results + result.cleared_thinking,
        r.applied == (r.cleared_tool_uses + r.cleared_tool_results + r.cleared_thinking > 0),
{
    proof {
        reveal_strlit("clear_tool_uses_20250605");
        reveal_strlit("clear_thinking_20251015");
        assert("clear_tool_uses_20250605"@.len() == 24);
        assert("clear_thinking_20251015"@.len() == 23);
    }
    let kind = get_text_or_empty(edit, "type");
    let trigger: u64 = read_trigger(edit);
    if trigger > 0 && (current_input_tokens as i128) < trigger as i128 {
        return result;
    }
    if text::same_text(kind.as_str(), "clear_tool_uses_20250605") {
        let keep: u64 = read_keep(edit);
        let protected = read_protected(edit);
        let cleared = clear_tool_uses(messages, keep, &protected);
        return AppliedResult {
            cleared_tool_uses: result.cleared_tool_uses + cleared.cleared_tool_uses,
            cleared_tool_results: result.cleared_tool_results + cleared.cleared_tool_results,
            cleared_thinking: result.cleared_thinking,
            applied: result.applied || cleared.applied,
        };
    }
    if text::same_text(kind.as_str(), "clear_thinking_20251015") {
        let keep: u64 = read_keep(edit);
        let cleared: usize = clear_thinking(messages, keep);
        return AppliedResult {
            cleared_tool_uses: result.cleared_tool_uses,
            cleared_tool_results: result.cleared_tool_results,
            cleared_thinking: result.cleared_thinking + cleared,
            applied: result.applied || cleared > 0,
        };
    }
    result
}

/// Applies the edits that a request asks for to its messages.
pub fn apply(payload: &mut MessagesRequest, current_input_tokens: i32) -> (r: AppliedResult)
    requires
        block_count(types::message_views(old(payload).messages@)) <= usize::MAX,
    ensures
        edited_so_far(final(payload).messages@, r) == edits_applied(
            types::message_views(old(payload).messages@),
            edits_of(old(payload).context_management),
            current_input_tokens as int,
        ),
        r.applied == (r.cleared_tool_uses + r.cleared_tool_results + r.cleared_thinking > 0),
        *final(payload) == (MessagesRequest {
            messages: final(payload).messages,
            ..*old(payload)
        }),
{
    let mut result = AppliedResult {
        cleared_tool_uses: 0,
        cleared_tool_results: 0,
        cleared_thinking: 0,
        applied: false,
    };
    let edits: Vec<Json> = match &payload.context_management {
        Some(cm) => match cm.get("edits") {
            Some(v) => match v.as_array() {
                Some(items) => copy_items(items),
                None => Vec::new(),
            },
            None => Vec::new(),
        },
        None => Vec::new(),
    };
    let ghost models = json::json_models(edits@);
    let ghost first = types::message_views(payload.messages@);
    proof {
        json::lemma_json_models(edits@);
        assert(models =~= edits_of(payload.context_management));
        assert(models.take(0) =~= Seq::<JsonView>::empty());
    }
    let ghost start = *payload;
    let mut i: usize = 0;
    while i < edits.len()
        invariant
            i <= edits@.len(),
            models.len() == edits@.len(),
            forall|j: int| 0 <= j < edits@.len() ==> #[trigger] models[j] == edits@[j]@,
            first == types::message_views(start.messages@),
            block_count(first) <= usize::MAX,
            *payload == (MessagesRequest { messages: payload.messages, ..start }),
            block_count(types::message_views(payload.messages@)) + result.cleared_tool_uses
                + result.cleared_tool_results + result.cleared_thinking == block_count(first),
            result.applied == (result.cleared_tool_uses + result.cleared_tool_results
                + result.cleared_thinking > 0),
            edited_so_far(payload.messages@, result) == edits_applied(
                first,
                models.take(i as int),
                current_input_tokens as int,
            ),
        decreases edits@.len() - i,
    {
        proof {
            assert(models.take(i + 1).drop_last() =~= models.take(i as int));
            assert(models.take(i + 1).last() == edits@[i as int]@);
        }
        result = apply_edit(&mut payload.messages, result, &edits[i], current_input_tokens);
        i = i + 1;
    }
    proof {
        assert(models.take(i as int) =~= models);
    }
    result
}

/// A copy of a list of documents.
fn copy_items(items: &Vec<Json>) -> (r: Vec<Json>)
    ensures
        json::json_models(r@) == json::json_models(items@),
{
    let mut out: Vec<Json> = Vec::new();
    let mut i: usize = 0;
    while i < items.len()
        invariant
            i <= items@.len(),
            out@.len() == i,
            json::json_models(out@) == json::json_models(items@.take(i as int)),
        decreases items@.len() - i,
    {
        let ghost before = out@;
        out.push(items[i].clone());
        proof {
            assert(out@.drop_last() =~= before);
            assert(items@.take(i + 1).drop_last() =~= items@.take(i as int));
        }
        i = i + 1;
    }
    proof {
        assert(items@.take(i as int) =~= items@);
    }
    out
}

/// How many of `n` things are among `total`.
pub open spec fn up_to(n: nat, total: nat) -> int {
    if n < total {
        n as int
    } else {
        total as int
    }
}

proof fn lemma_clearable_after(
    blocks: Seq<JsonView>,
    n: nat,
    cleared: Seq<Seq<char>>,
    protected: Seq<Seq<char>>,
)
    ensures
        ({
            let ids = clearable_in(blocks, protected);
            let c = clear_blocks(blocks, n, cleared, protected);
            &&& clearable_in(c.kept, protected) == ids.skip(up_to(n, ids.len()))
            &&& c.left + up_to(n, ids.len()) == n
            &&& c.uses == up_to(n, ids.len())
        }),
    decreases blocks.len(),
{
    reveal_strlit("tool_use");
    reveal_strlit("tool_result");
    assert("tool_use"@.len() != "tool_result"@.len());
    let ids = clearable_in(blocks, protected);
    let c = clear_blocks(blocks, n, cleared, protected);
    if blocks.len() > 0 {
        lemma_clearable_after(blocks.drop_last(), n, cleared, protected);
        let front = clear_blocks(blocks.drop_last(), n, cleared, protected);
        let front_ids = clearable_in(blocks.drop_last(), protected);
        let b = blocks.last();
        assert(front.kept.push(b).drop_last() =~= front.kept);
        if is_clearable(b, protected) {
            let id = text_or_empty(b, "id"@);
            if front.left > 0 {
                assert(ids.skip(up_to(n, ids.len())) =~= Seq::<Seq<char>>::empty());
                assert(front_ids.skip(up_to(n, front_ids.len())) =~= Seq::<Seq<char>>::empty());
            } else {
                assert(ids.skip(up_to(n, ids.len())) =~= front_ids.skip(
                    up_to(n, front_ids.len()),
                ).push(id));
            }
        }
    } else {
        assert(ids.skip(0) =~= ids);
    }
}

proof fn lemma_clearable_ids_after(
    messages: Seq<MessageView>,
    n: nat,
    cleared: Seq<Seq<char>>,
    protected: Seq<Seq<char>>,
)
    ensures
        ({
            let ids = clearable_ids(messages, protected);
            let (e, left) = clear_messages(messages, n, cleared, protected);
            &&& clearable_ids(nonempty(e.messages), protected) == ids.skip(up_to(n, ids.len()))
            &&& left + up_to(n, ids.len()) == n
            &&& e.uses == up_to(n, ids.len())
        }),
    decreases messages.len(),
{
    let ids = clearable_ids(messages, protected);
    if messages.len() > 0 {
        let front = messages.drop_last();
        let m = messages.last();
        lemma_clearable_ids_after(front, n, cleared, protected);
        let (e, left) = clear_messages(front, n, cleared, protected);
        let c = clear_blocks(blocks_of(m), left, cleared, protected);
        let new_m = with_blocks(m, c.kept);
        assert(e.messages.push(new_m).drop_last() =~= e.messages);
        lemma_clearable_after(blocks_of(m), left, cleared, protected);
        let front_ids = clearable_ids(front, protected);
        let last_ids = clearable_in(blocks_of(m), protected);
        assert(ids.skip(up_to(n, ids.len())) =~= front_ids.skip(up_to(n, front_ids.len()))
            + last_ids.skip(up_to(left, last_ids.len())));
        let kept = nonempty(e.messages);
        assert(kept.push(new_m).drop_last() =~= kept);
        assert(blocks_of(m).len() == 0 ==> c.kept.len() == 0);
        assert(blocks_of(new_m) =~= c.kept);
        if !is_nonempty(new_m) {
            assert(clearable_in(c.kept, protected) =~= Seq::<Seq<char>>::empty());
            assert(clearable_ids(kept, protected) =~= clearable_ids(kept, protected)
                + Seq::<Seq<char>>::empty());
        }
    } else {
        assert(ids.skip(0) =~= ids);
    }
}

/// Exactly the last `keep` of the tool calls that may be removed stay, in their order, and as many
/// are counted as are gone.
pub proof fn last_tool_uses_stay(
    messages: Seq<MessageView>,
    keep: int,
    protected: Seq<Seq<char>>,
)
    requires
        0 <= keep,
    ensures
        ({
            let ids = clearable_ids(messages, protected);
            let e = tool_uses_cleared(messages, keep, protected);
            let n = all_but_last(ids.len() as int, keep);
            clearable_ids(e.messages, protected) == ids.skip(n) && e.uses == n
        }),
{
    let ids = clearable_ids(messages, protected);
    let n = all_but_last(ids.len() as int, keep);
    if n == 0 {
        assert(ids.skip(0) =~= ids);
    } else {
        lemma_clearable_ids_after(messages, n as nat, ids.take(n), protected);
    }
}

/// A call of a protected tool.
pub open spec fn is_protected_call(b: JsonView, protected: Seq<Seq<char>>) -> bool {
    text_or_empty(b, "type"@) == "tool_use"@ && protected.contains(text_or_empty(b, "name"@))
}

/// The calls of protected tools among `blocks`, in order.
pub open spec fn protected_in(blocks: Seq<JsonView>, protected: Seq<Seq<char>>) -> Seq<JsonView>
    decreases blocks.len(),
{
    if blocks.len() == 0 {
        Seq::empty()
    } else if is_protected_call(blocks.last(), protected) {
        protected_in(blocks.drop_last(), protected).push(blocks.last())
    } else {
        protected_in(blocks.drop_last(), protected)
    }
}

/// The calls of protected tools of a conversation, in order.
pub open spec fn protected_calls(messages: Seq<MessageView>, protected: Seq<Seq<char>>) -> Seq<
    JsonView,
>
    decreases messages.len(),
{
    if messages.len() == 0 {
        Seq::empty()
    } else {
        protected_calls(messages.drop_last(), protected) + protected_in(
            blocks_of(messages.last()),
            protected,
        )
    }
}

proof fn lemma_protected_in(
    blocks: Seq<JsonView>,
    n: nat,
    cleared: Seq<Seq<char>>,
    protected: Seq<Seq<char>>,
)
    ensures
        protected_in(clear_blocks(blocks, n, cleared, protected).kept, protected) == protected_in(
            blocks,
            protected,
        ),
    decreases blocks.len(),
{
    reveal_strlit("tool_use");
    reveal_strlit("tool_result");
    assert("tool_use"@.len() != "tool_result"@.len());
    if blocks.len() > 0 {
        lemma_protected_in(blocks.drop_last(), n, cleared, protected);
        let front = clear_blocks(blocks.drop_last(), n, cleared, protected);
        assert(front.kept.push(blocks.last()).drop_last() =~= front.kept);
    }
}

proof fn lemma_protected_calls(
    messages: Seq<MessageView>,
    n: nat,
    cleared: Seq<Seq<char>>,
    protected: Seq<Seq<char>>,
)
    ensures
        protected_calls(
            nonempty(clear_messages(messages, n, cleared, protected).0.messages),
            protected,
        ) == protected_calls(messages, protected),
    decreases messages.len(),
{
    if messages.len() > 0 {
        let front = messages.drop_last();
        let m = messages.last();
        lemma_protected_calls(front, n, cleared, protected);
        let (e, left) = clear_messages(front, n, cleared, protected);
        let c = clear_blocks(blocks_of(m), left, cleared, protected);
        let new_m = with_blocks(m, c.kept);
        assert(e.messages.push(new_m).drop_last() =~= e.messages);
        lemma_protected_in(blocks_of(m), left, cleared, protected);
        let kept = nonempty(e.messages);
        assert(kept.push(new_m).drop_last() =~= kept);
        assert(blocks_of(m).len() == 0 ==> c.kept.len() == 0);
        assert(blocks_of(new_m) =~= c.kept);
        if !is_nonempty(new_m) {
            assert(protected_in(c.kept, protected) =~= Seq::<JsonView>::empty());
            assert(protected_calls(kept, protected) =~= protected_calls(kept, protected)
                + Seq::<JsonView>::empty());
        }
    }
}

/// No call of a protected tool is removed, whatever its identifier.
pub proof fn protected_calls_stay(
    messages: Seq<MessageView>,
    keep: int,
    protected: Seq<Seq<char>>,
)
    ensures
        protected_calls(tool_uses_cleared(messages, keep, protected).messages, protected)
            == protected_calls(messages, protected),
{
    let ids = clearable_ids(messages, protected);
    let n = all_but_last(ids.len() as int, keep);
    if n != 0 {
        lemma_protected_calls(messages, n as nat, ids.take(n), protected);
    }
}

proof fn lemma_kept_blocks(
    blocks: Seq<JsonView>,
    n: nat,
    cleared: Seq<Seq<char>>,
    protected: Seq<Seq<char>>,
)
    ensures
        forall|i: int|
            0 <= i < clear_blocks(blocks, n, cleared, protected).kept.len() ==> !is_cleared_result(
                #[trigger] clear_blocks(blocks, n, cleared, protected).kept[i],
                cleared,
            ),
    decreases blocks.len(),
{
    if blocks.len() > 0 {
        lemma_kept_blocks(blocks.drop_last(), n, cleared, protected);
        let front = clear_blocks(blocks.drop_last(), n, cleared, protected);
        let all = clear_blocks(blocks, n, cleared, protected);
        reveal_strlit("tool_use");
        reveal_strlit("tool_result");
        assert("tool_use"@.len() != "tool_result"@.len());
        assert forall|i: int| 0 <= i < all.kept.len() implies !is_cleared_result(
            #[trigger] all.kept[i],
            cleared,
        ) by {
            if i < front.kept.len() {
                assert(all.kept[i] == front.kept[i]);
            }
        }
    }
}

/// No call that was removed leaves its result behind, in any message.
pub proof fn removed_calls_leave_no_results(
    messages: Seq<MessageView>,
    n: nat,
    cleared: Seq<Seq<char>>,
    protected: Seq<Seq<char>>,
    at: int,
    i: int,
)
    requires
        0 <= at < clear_messages(messages, n, cleared, protected).0.messages.len(),
        0 <= i < blocks_of(clear_messages(messages, n, cleared, protected).0.messages[at]).len(),
    ensures
        !is_cleared_result(
            blocks_of(clear_messages(messages, n, cleared, protected).0.messages[at])[i],
            cleared,
        ),
    decreases messages.len(),
{
    if messages.len() > 0 {
        let (front, left) = clear_messages(messages.drop_last(), n, cleared, protected);
        let all = clear_messages(messages, n, cleared, protected).0;
        let m = messages.last();
        if at < front.messages.len() {
            assert(all.messages[at] == front.messages[at]);
            removed_calls_leave_no_results(messages.drop_last(), n, cleared, protected, at, i);
        } else {
            lemma_kept_blocks(blocks_of(m), left, cleared, protected);
            let kept = clear_blocks(blocks_of(m), left, cleared, protected).kept;
            assert(all.messages[at] == with_blocks(m, kept));
            assert(m.content is Array);
            assert(blocks_of(all.messages[at]) =~= kept);
        }
    }
}

/// The blocks that hold thinking, in order.
pub open spec fn thinking_blocks_in(blocks: Seq<JsonView>) -> Seq<JsonView>
    decreases blocks.len(),
{
    if blocks.len() == 0 {
        Seq::empty()
    } else if is_thinking(blocks.last()) {
        thinking_blocks_in(blocks.drop_last()).push(blocks.last())
    } else {
        thinking_blocks_in(blocks.drop_last())
    }
}

/// The thinking blocks of a conversation, in order.
pub open spec fn thinking_blocks(messages: Seq<MessageView>) -> Seq<JsonView>
    decreases messages.len(),
{
    if messages.len() == 0 {
        Seq::empty()
    } else {
        thinking_blocks(messages.drop_last()) + thinking_blocks_in(
            assistant_blocks(messages.last()),
        )
    }
}

proof fn lemma_thinking_in(blocks: Seq<JsonView>, n: nat)
    ensures
        ({
            let all = thinking_blocks_in(blocks);
            let (kept, left) = without_thinking(blocks, n);
            &&& all.len() == thinking_in(blocks)
            &&& thinking_blocks_in(kept) == all.skip(up_to(n, all.len()))
            &&& left + up_to(n, all.len()) == n
        }),
    decreases blocks.len(),
{
    let all = thinking_blocks_in(blocks);
    if blocks.len() > 0 {
        lemma_thinking_in(blocks.drop_last(), n);
        let (front, left) = without_thinking(blocks.drop_last(), n);
        let front_all = thinking_blocks_in(blocks.drop_last());
        let b = blocks.last();
        assert(front.push(b).drop_last() =~= front);
        if is_thinking(b) {
            if left > 0 {
                assert(all.skip(up_to(n, all.len())) =~= Seq::<JsonView>::empty());
                assert(front_all.skip(up_to(n, front_all.len())) =~= Seq::<JsonView>::empty());
            } else {
                assert(all.skip(up_to(n, all.len())) =~= front_all.skip(
                    up_to(n, front_all.len()),
                ).push(b));
            }
        }
    } else {
        assert(all.skip(0) =~= all);
    }
}

proof fn lemma_thinking_of_messages(messages: Seq<MessageView>, n: nat)
    ensures
        ({
            let all = thinking_blocks(messages);
            let (kept, left) = messages_without_thinking(messages, n);
            &&& all.len() == thinking_count(messages)
            &&& thinking_blocks(nonempty(kept)) == all.skip(up_to(n, all.len()))
            &&& left + up_to(n, all.len()) == n
        }),
    decreases messages.len(),
{
    let all = thinking_blocks(messages);
    if messages.len() > 0 {
        let m = messages.last();
        lemma_thinking_of_messages(messages.drop_last(), n);
        let (front, left) = messages_without_thinking(messages.drop_last(), n);
        let front_all = thinking_blocks(messages.drop_last());
        let last_all = thinking_blocks_in(assistant_blocks(m));
        lemma_thinking_in(assistant_blocks(m), left);
        let new_m = if m.role == "assistant"@ {
            with_blocks(m, without_thinking(blocks_of(m), left).0)
        } else {
            m
        };
        assert(front.push(new_m).drop_last() =~= front);
        let kept = nonempty(front);
        assert(kept.push(new_m).drop_last() =~= kept);
        assert(all.skip(up_to(n, all.len())) =~= front_all.skip(up_to(n, front_all.len()))
            + last_all.skip(up_to(left, last_all.len())));
        if m.role == "assistant"@ {
            if m.content is Array {
                assert(blocks_of(new_m) =~= without_thinking(blocks_of(m), left).0);
            } else {
                assert(blocks_of(m) =~= Seq::<JsonView>::empty());
            }
        }
        assert(thinking_blocks_in(assistant_blocks(new_m)) =~= last_all.skip(
            up_to(left, last_all.len()),
        ));
        if !is_nonempty(new_m) {
            assert(assistant_blocks(new_m) =~= Seq::<JsonView>::empty());
            assert(thinking_blocks(kept) =~= thinking_blocks(kept) + Seq::<JsonView>::empty());
        }
    } else {
        assert(all.skip(0) =~= all);
    }
}

/// The thinking blocks that stay are the last `keep`, in their order, and as many are counted as
/// are gone.
pub proof fn last_thinking_stays(messages: Seq<MessageView>, keep: int)
    requires
        0 <= keep,
    ensures
        ({
            let all = thinking_blocks(messages);
            let n = all_but_last(all.len() as int, keep);
            &&& thinking_blocks(thinking_cleared(messages, keep).messages) == all.skip(n)
            &&& thinking_cleared(messages, keep).thinking == n
        }),
{
    let n = all_but_last(thinking_count(messages) as int, keep);
    lemma_thinking_of_messages(messages, n as nat);
    let all = thinking_blocks(messages);
    if n == 0 {
        assert(all.skip(0) =~= all);
    }
}

} // verus!
