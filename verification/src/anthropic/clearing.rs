//! What the edits of a conversation leave of it, block by block.

use vstd::prelude::*;

use crate::anthropic::context_management;
use crate::anthropic::types::MessageView;
use crate::json::{Json, JsonView};

verus! {

/// The positions are in order, and within `n`.
pub open spec fn is_pick(at: Seq<int>, n: int) -> bool {
    &&& forall|i: int| 0 <= i < at.len() ==> 0 <= #[trigger] at[i] < n
    &&& forall|i: int, j: int| 0 <= i < j < at.len() ==> #[trigger] at[i] < #[trigger] at[j]
}

/// The position is among those that were picked.
pub open spec fn is_picked(at: Seq<int>, i: int) -> bool {
    exists|j: int| 0 <= j < at.len() && #[trigger] at[j] == i
}

/// The block is of one of the kinds.
pub open spec fn is_of(b: JsonView, kinds: Set<Seq<char>>) -> bool {
    b.member("type"@) matches Some(JsonView::Text(k)) && kinds.contains(k)
}

/// `after` are the blocks at these positions of `before`, and the others are of the kinds.
pub open spec fn thins(
    before: Seq<JsonView>,
    after: Seq<JsonView>,
    at: Seq<int>,
    kinds: Set<Seq<char>>,
) -> bool {
    &&& is_pick(at, before.len() as int)
    &&& after.len() == at.len()
    &&& forall|j: int| 0 <= j < at.len() ==> #[trigger] after[j] == before[at[j]]
    &&& forall|i: int|
        0 <= i < before.len() && !is_picked(at, i) ==> is_of(#[trigger] before[i], kinds)
}

/// `after` is `before` without some blocks of the kinds.
pub open spec fn is_thinned(
    before: Seq<JsonView>,
    after: Seq<JsonView>,
    kinds: Set<Seq<char>>,
) -> bool {
    exists|at: Seq<int>| #[trigger] thins(before, after, at, kinds)
}

/// The message is what it was, but that its list of blocks may lack some of the kinds.
pub open spec fn is_left_of(before: MessageView, after: MessageView, kinds: Set<Seq<char>>) -> bool {
    &&& after.role == before.role
    &&& match before.content {
        JsonView::Array(blocks) => after.content matches JsonView::Array(left) && is_thinned(
            blocks,
            left,
            kinds,
        ),
        _ => after == before,
    }
}

/// The message holds nothing but blocks of the kinds: an empty text, or a list of such blocks.
pub open spec fn holds_only(m: MessageView, kinds: Set<Seq<char>>) -> bool {
    match m.content {
        JsonView::Array(blocks) => forall|i: int|
            0 <= i < blocks.len() ==> is_of(#[trigger] blocks[i], kinds),
        JsonView::Text(s) => s.len() == 0,
        _ => false,
    }
}

/// `after` are the messages at these positions of `before`, as far as they are left, and the others
/// held nothing that had to stay.
pub open spec fn shortens(
    before: Seq<MessageView>,
    after: Seq<MessageView>,
    at: Seq<int>,
    kinds: Set<Seq<char>>,
) -> bool {
    &&& is_pick(at, before.len() as int)
    &&& after.len() == at.len()
    &&& forall|j: int| 0 <= j < at.len() ==> is_left_of(before[at[j]], #[trigger] after[j], kinds)
    &&& forall|i: int|
        0 <= i < before.len() && !is_picked(at, i) ==> holds_only(#[trigger] before[i], kinds)
}

/// The conversation `after` is `before` without some blocks of the kinds, and without messages that
/// held nothing else. All that is left is in its old order.
pub open spec fn is_shortened(
    before: Seq<MessageView>,
    after: Seq<MessageView>,
    kinds: Set<Seq<char>>,
) -> bool {
    exists|at: Seq<int>| #[trigger] shortens(before, after, at, kinds)
}

/// The first `n` positions.
pub open spec fn all_of(n: nat) -> Seq<int> {
    Seq::new(n, |i: int| i)
}

proof fn lemma_all_picked(n: nat)
    ensures
        is_pick(all_of(n), n as int),
        forall|i: int| 0 <= i < n ==> #[trigger] is_picked(all_of(n), i),
{
    assert forall|i: int| 0 <= i < n implies #[trigger] is_picked(all_of(n), i) by {
        assert(all_of(n)[i] == i);
    }
}

proof fn lemma_thinned_same(blocks: Seq<JsonView>, kinds: Set<Seq<char>>)
    ensures
        is_thinned(blocks, blocks, kinds),
{
    lemma_all_picked(blocks.len());
    let at = all_of(blocks.len());
    assert forall|i: int| 0 <= i < blocks.len() && !is_picked(at, i) implies is_of(
        #[trigger] blocks[i],
        kinds,
    ) by {
        assert(is_picked(at, i));
    }
    assert(thins(blocks, blocks, at, kinds));
}

proof fn lemma_left_same(m: MessageView, kinds: Set<Seq<char>>)
    ensures
        is_left_of(m, m, kinds),
{
    if let JsonView::Array(blocks) = m.content {
        lemma_thinned_same(blocks, kinds);
    }
}

proof fn lemma_shortened_same(messages: Seq<MessageView>, kinds: Set<Seq<char>>)
    ensures
        is_shortened(messages, messages, kinds),
{
    lemma_all_picked(messages.len());
    let at = all_of(messages.len());
    assert forall|j: int| 0 <= j < at.len() implies is_left_of(
        messages[at[j]],
        #[trigger] messages[j],
        kinds,
    ) by {
        lemma_left_same(messages[j], kinds);
    }
    assert forall|i: int| 0 <= i < messages.len() && !is_picked(at, i) implies holds_only(
        #[trigger] messages[i],
        kinds,
    ) by {
        assert(is_picked(at, i));
    }
    assert(shortens(messages, messages, at, kinds));
}

/// The positions in the whole of positions in a part.
pub open spec fn through(outer: Seq<int>, inner: Seq<int>) -> Seq<int> {
    Seq::new(inner.len(), |j: int| outer[inner[j]])
}

proof fn lemma_through(outer: Seq<int>, inner: Seq<int>, n: int, i: int)
    requires
        is_pick(outer, n),
        is_pick(inner, outer.len() as int),
    ensures
        is_pick(through(outer, inner), n),
        0 <= i < n && !is_picked(through(outer, inner), i) ==> !is_picked(outer, i) || exists|j: int|
            0 <= j < outer.len() && #[trigger] outer[j] == i && !is_picked(inner, j),
{
    let both = through(outer, inner);
    assert forall|a: int, b: int| 0 <= a < b < both.len() implies #[trigger] both[a]
        < #[trigger] both[b] by {
        assert(inner[a] < inner[b]);
        assert(outer[inner[a]] < outer[inner[b]]);
    }
    assert forall|a: int| 0 <= a < both.len() implies 0 <= #[trigger] both[a] < n by {
        assert(0 <= inner[a] < outer.len());
        assert(0 <= outer[inner[a]] < n);
    }
    if 0 <= i < n && !is_picked(both, i) && is_picked(outer, i) {
        let j = choose|j: int| 0 <= j < outer.len() && #[trigger] outer[j] == i;
        if is_picked(inner, j) {
            let k = choose|k: int| 0 <= k < inner.len() && #[trigger] inner[k] == j;
            assert(both[k] == i);
        }
    }
}

proof fn lemma_thinned_twice(
    a: Seq<JsonView>,
    b: Seq<JsonView>,
    c: Seq<JsonView>,
    kinds: Set<Seq<char>>,
)
    requires
        is_thinned(a, b, kinds),
        is_thinned(b, c, kinds),
    ensures
        is_thinned(a, c, kinds),
{
    let outer = choose|at: Seq<int>| #[trigger] thins(a, b, at, kinds);
    let inner = choose|at: Seq<int>| #[trigger] thins(b, c, at, kinds);
    let at = through(outer, inner);
    lemma_through(outer, inner, a.len() as int, 0);
    assert forall|j: int| 0 <= j < at.len() implies #[trigger] c[j] == a[at[j]] by {
        assert(0 <= inner[j] < b.len());
        assert(b[inner[j]] == a[outer[inner[j]]]);
    }
    assert forall|i: int| 0 <= i < a.len() && !is_picked(at, i) implies is_of(
        #[trigger] a[i],
        kinds,
    ) by {
        lemma_through(outer, inner, a.len() as int, i);
        if is_picked(outer, i) {
            let j = choose|j: int|
                0 <= j < outer.len() && #[trigger] outer[j] == i && !is_picked(inner, j);
            assert(is_of(b[j], kinds));
        }
    }
    assert(thins(a, c, at, kinds));
}

proof fn lemma_holds_only_before(a: MessageView, b: MessageView, kinds: Set<Seq<char>>)
    requires
        is_left_of(a, b, kinds),
        holds_only(b, kinds),
    ensures
        holds_only(a, kinds),
{
    if let JsonView::Array(blocks) = a.content {
        let left = b.content->Array_0;
        let at = choose|at: Seq<int>| #[trigger] thins(blocks, left, at, kinds);
        assert forall|i: int| 0 <= i < blocks.len() implies is_of(#[trigger] blocks[i], kinds) by {
            if is_picked(at, i) {
                let j = choose|j: int| 0 <= j < at.len() && #[trigger] at[j] == i;
                assert(is_of(left[j], kinds));
            }
        }
    }
}

proof fn lemma_shortened_twice(
    a: Seq<MessageView>,
    b: Seq<MessageView>,
    c: Seq<MessageView>,
    kinds: Set<Seq<char>>,
)
    requires
        is_shortened(a, b, kinds),
        is_shortened(b, c, kinds),
    ensures
        is_shortened(a, c, kinds),
{
    let outer = choose|at: Seq<int>| #[trigger] shortens(a, b, at, kinds);
    let inner = choose|at: Seq<int>| #[trigger] shortens(b, c, at, kinds);
    let at = through(outer, inner);
    lemma_through(outer, inner, a.len() as int, 0);
    assert forall|j: int| 0 <= j < at.len() implies is_left_of(
        a[at[j]],
        #[trigger] c[j],
        kinds,
    ) by {
        let m = inner[j];
        assert(0 <= m < b.len());
        assert(is_left_of(a[outer[m]], b[m], kinds));
        assert(is_left_of(b[m], c[j], kinds));
        if let JsonView::Array(blocks) = a[outer[m]].content {
            lemma_thinned_twice(blocks, b[m].content->Array_0, c[j].content->Array_0, kinds);
        }
    }
    assert forall|i: int| 0 <= i < a.len() && !is_picked(at, i) implies holds_only(
        #[trigger] a[i],
        kinds,
    ) by {
        lemma_through(outer, inner, a.len() as int, i);
        if is_picked(outer, i) {
            let j = choose|j: int|
                0 <= j < outer.len() && #[trigger] outer[j] == i && !is_picked(inner, j);
            assert(holds_only(b[j], kinds));
            assert(is_left_of(a[outer[j]], b[j], kinds));
            lemma_holds_only_before(a[i], b[j], kinds);
        }
    }
    assert(shortens(a, c, at, kinds));
}

proof fn lemma_thinned_wider(
    a: Seq<JsonView>,
    b: Seq<JsonView>,
    few: Set<Seq<char>>,
    many: Set<Seq<char>>,
)
    requires
        is_thinned(a, b, few),
        few.subset_of(many),
    ensures
        is_thinned(a, b, many),
{
    let at = choose|at: Seq<int>| #[trigger] thins(a, b, at, few);
    assert forall|i: int| 0 <= i < a.len() && !is_picked(at, i) implies is_of(
        #[trigger] a[i],
        many,
    ) by {
        assert(is_of(a[i], few));
    }
    assert(thins(a, b, at, many));
}

proof fn lemma_shortened_wider(
    a: Seq<MessageView>,
    b: Seq<MessageView>,
    few: Set<Seq<char>>,
    many: Set<Seq<char>>,
)
    requires
        is_shortened(a, b, few),
        few.subset_of(many),
    ensures
        is_shortened(a, b, many),
{
    let at = choose|at: Seq<int>| #[trigger] shortens(a, b, at, few);
    assert forall|j: int| 0 <= j < at.len() implies is_left_of(
        a[at[j]],
        #[trigger] b[j],
        many,
    ) by {
        assert(is_left_of(a[at[j]], b[j], few));
        if let JsonView::Array(blocks) = a[at[j]].content {
            lemma_thinned_wider(blocks, b[j].content->Array_0, few, many);
        }
    }
    assert forall|i: int| 0 <= i < a.len() && !is_picked(at, i) implies holds_only(
        #[trigger] a[i],
        many,
    ) by {
        assert(holds_only(a[i], few));
        if let JsonView::Array(blocks) = a[i].content {
            assert forall|k: int| 0 <= k < blocks.len() implies is_of(#[trigger] blocks[k], many) by {
                assert(is_of(blocks[k], few));
            }
        }
    }
    assert(shortens(a, b, at, many));
}

/// One more block stays.
proof fn lemma_thins_push(
    blocks: Seq<JsonView>,
    left: Seq<JsonView>,
    kinds: Set<Seq<char>>,
    b: JsonView,
    stays: bool,
)
    requires
        is_thinned(blocks, left, kinds),
        !stays ==> is_of(b, kinds),
    ensures
        is_thinned(
            blocks.push(b),
            if stays {
                left.push(b)
            } else {
                left
            },
            kinds,
        ),
{
    let at = choose|at: Seq<int>| #[trigger] thins(blocks, left, at, kinds);
    let all = blocks.push(b);
    let n = blocks.len() as int;
    let more = if stays {
        at.push(n)
    } else {
        at
    };
    let after = if stays {
        left.push(b)
    } else {
        left
    };
    assert forall|j: int| 0 <= j < more.len() implies #[trigger] after[j] == all[more[j]] by {
        if j < at.len() {
            assert(left[j] == blocks[at[j]]);
        }
    }
    assert forall|i: int| 0 <= i < all.len() && !is_picked(more, i) implies is_of(
        #[trigger] all[i],
        kinds,
    ) by {
        if i < n {
            if is_picked(at, i) {
                let j = choose|j: int| 0 <= j < at.len() && #[trigger] at[j] == i;
                assert(more[j] == i);
            }
            assert(is_of(blocks[i], kinds));
        } else if stays {
            assert(more[at.len() as int] == n);
        }
    }
    assert(thins(all, after, more, kinds));
}

/// The kinds of blocks that belong to tool calls.
pub open spec fn call_kinds() -> Set<Seq<char>> {
    set!["tool_use"@, "tool_result"@]
}

/// The kind of blocks that hold thinking.
pub open spec fn thinking_kinds() -> Set<Seq<char>> {
    set!["thinking"@]
}

proof fn lemma_literals()
    ensures
        "tool_use"@.len() == 8,
        "tool_result"@.len() == 11,
        "tool_use"@ != "tool_result"@,
{
    reveal_strlit("tool_use");
    reveal_strlit("tool_result");
}

proof fn lemma_blocks_thinned(
    blocks: Seq<JsonView>,
    n: nat,
    cleared: Seq<Seq<char>>,
    protected: Seq<Seq<char>>,
)
    ensures
        is_thinned(
            blocks,
            context_management::clear_blocks(blocks, n, cleared, protected).kept,
            call_kinds(),
        ),
    decreases blocks.len(),
{
    lemma_literals();
    if blocks.len() == 0 {
        lemma_thinned_same(blocks, call_kinds());
        assert(context_management::clear_blocks(blocks, n, cleared, protected).kept =~= blocks);
    } else {
        let front = blocks.drop_last();
        let b = blocks.last();
        lemma_blocks_thinned(front, n, cleared, protected);
        let c = context_management::clear_blocks(front, n, cleared, protected);
        let goes = (c.left > 0 && context_management::is_clearable(b, protected))
            || context_management::is_cleared_result(b, cleared);
        lemma_thins_push(front, c.kept, call_kinds(), b, !goes);
        assert(front.push(b) =~= blocks);
    }
}

proof fn lemma_thinking_thinned(blocks: Seq<JsonView>, n: nat)
    ensures
        is_thinned(blocks, context_management::without_thinking(blocks, n).0, thinking_kinds()),
    decreases blocks.len(),
{
    if blocks.len() == 0 {
        lemma_thinned_same(blocks, thinking_kinds());
        assert(context_management::without_thinking(blocks, n).0 =~= blocks);
    } else {
        let front = blocks.drop_last();
        let b = blocks.last();
        lemma_thinking_thinned(front, n);
        let (kept, left) = context_management::without_thinking(front, n);
        let goes = left > 0 && context_management::is_thinking(b);
        lemma_thins_push(front, kept, thinking_kinds(), b, !goes);
        assert(front.push(b) =~= blocks);
    }
}

/// Each message is left in part.
pub open spec fn are_left(before: Seq<MessageView>, after: Seq<MessageView>, kinds: Set<Seq<char>>) -> bool {
    &&& after.len() == before.len()
    &&& forall|i: int| 0 <= i < before.len() ==> is_left_of(before[i], #[trigger] after[i], kinds)
}

proof fn lemma_messages_left(
    messages: Seq<MessageView>,
    n: nat,
    cleared: Seq<Seq<char>>,
    protected: Seq<Seq<char>>,
)
    ensures
        are_left(
            messages,
            context_management::clear_messages(messages, n, cleared, protected).0.messages,
            call_kinds(),
        ),
    decreases messages.len(),
{
    if messages.len() > 0 {
        let front = messages.drop_last();
        let m = messages.last();
        lemma_messages_left(front, n, cleared, protected);
        let (e, left) = context_management::clear_messages(front, n, cleared, protected);
        let after = context_management::clear_messages(messages, n, cleared, protected).0.messages;
        lemma_blocks_thinned(context_management::blocks_of(m), left, cleared, protected);
        assert forall|i: int| 0 <= i < messages.len() implies is_left_of(
            messages[i],
            #[trigger] after[i],
            call_kinds(),
        ) by {
            if i < front.len() {
                assert(after[i] == e.messages[i]);
                assert(front[i] == messages[i]);
            }
        }
    }
}

proof fn lemma_thinking_left(messages: Seq<MessageView>, n: nat)
    ensures
        are_left(
            messages,
            context_management::messages_without_thinking(messages, n).0,
            thinking_kinds(),
        ),
        forall|i: int|
            0 <= i < messages.len() && messages[i].role != "assistant"@
                ==> #[trigger] context_management::messages_without_thinking(messages, n).0[i]
                == messages[i],
    decreases messages.len(),
{
    if messages.len() > 0 {
        let front = messages.drop_last();
        let m = messages.last();
        lemma_thinking_left(front, n);
        let (e, left) = context_management::messages_without_thinking(front, n);
        let after = context_management::messages_without_thinking(messages, n).0;
        lemma_thinking_thinned(context_management::blocks_of(m), left);
        lemma_left_same(m, thinking_kinds());
        assert forall|i: int| 0 <= i < messages.len() implies is_left_of(
            messages[i],
            #[trigger] after[i],
            thinking_kinds(),
        ) by {
            if i < front.len() {
                assert(after[i] == e[i]);
                assert(front[i] == messages[i]);
            }
        }
        assert forall|i: int|
            0 <= i < messages.len() && messages[i].role != "assistant"@ implies #[trigger] after[i]
            == messages[i] by {
            if i < front.len() {
                assert(after[i] == e[i]);
                assert(front[i] == messages[i]);
            }
        }
    }
}

/// The message has content: a list or a text that is not empty, or something else.
pub open spec fn has_content(m: MessageView) -> bool {
    match m.content {
        JsonView::Array(blocks) => blocks.len() > 0,
        JsonView::Text(s) => s.len() > 0,
        _ => true,
    }
}

/// Dropping the messages without content leaves those that have some.
proof fn lemma_nonempty(messages: Seq<MessageView>) -> (at: Seq<int>)
    ensures
        is_pick(at, messages.len() as int),
        context_management::nonempty(messages).len() == at.len(),
        forall|j: int|
            0 <= j < at.len() ==> #[trigger] context_management::nonempty(messages)[j]
                == messages[at[j]] && has_content(messages[at[j]]),
        forall|i: int|
            0 <= i < messages.len() && !is_picked(at, i) ==> !has_content(#[trigger] messages[i]),
    decreases messages.len(),
{
    if messages.len() == 0 {
        Seq::empty()
    } else {
        let front = messages.drop_last();
        let m = messages.last();
        let n = front.len() as int;
        let at = lemma_nonempty(front);
        let kept = context_management::nonempty(messages);
        let more = if has_content(m) {
            at.push(n)
        } else {
            at
        };
        assert forall|j: int| 0 <= j < more.len() implies #[trigger] kept[j] == messages[more[j]]
            && has_content(messages[more[j]]) by {
            if j < at.len() {
                assert(kept[j] == context_management::nonempty(front)[j]);
                assert(front[at[j]] == messages[at[j]]);
            }
        }
        assert forall|i: int| 0 <= i < messages.len() && !is_picked(more, i) implies !has_content(
            #[trigger] messages[i],
        ) by {
            if i < n {
                if is_picked(at, i) {
                    let j = choose|j: int| 0 <= j < at.len() && #[trigger] at[j] == i;
                    assert(more[j] == i);
                }
                assert(!has_content(front[i]));
            } else if has_content(m) {
                assert(more[at.len() as int] == n);
            }
        }
        more
    }
}

proof fn lemma_shortened(before: Seq<MessageView>, left: Seq<MessageView>, kinds: Set<Seq<char>>)
    requires
        are_left(before, left, kinds),
    ensures
        is_shortened(before, context_management::nonempty(left), kinds),
        forall|j: int|
            0 <= j < context_management::nonempty(left).len() ==> has_content(
                #[trigger] context_management::nonempty(left)[j],
            ),
{
    let at = lemma_nonempty(left);
    let after = context_management::nonempty(left);
    assert forall|j: int| 0 <= j < at.len() implies is_left_of(
        before[at[j]],
        #[trigger] after[j],
        kinds,
    ) by {
        assert(after[j] == left[at[j]]);
    }
    assert forall|i: int| 0 <= i < before.len() && !is_picked(at, i) implies holds_only(
        #[trigger] before[i],
        kinds,
    ) by {
        assert(!has_content(left[i]));
        assert(is_left_of(before[i], left[i], kinds));
        lemma_holds_only_before(before[i], left[i], kinds);
    }
    assert(shortens(before, after, at, kinds));
}

/// Clearing tool calls takes nothing out of a conversation but blocks of tool calls and of their
/// results, and messages that held nothing else. What has content stays: a text that is not empty,
/// and a list in which a block is left. Where anything is cleared, no message without content is
/// left.
pub proof fn clearing_calls_leaves_the_rest(
    messages: Seq<MessageView>,
    keep: int,
    protected: Seq<Seq<char>>,
)
    ensures
        ({
            let e = context_management::tool_uses_cleared(messages, keep, protected);
            &&& is_shortened(messages, e.messages, set!["tool_use"@, "tool_result"@])
            &&& e.uses > 0 ==> forall|j: int|
                0 <= j < e.messages.len() ==> has_content(#[trigger] e.messages[j])
            &&& e.thinking == 0
        }),
{
    let ids = context_management::clearable_ids(messages, protected);
    let n = context_management::all_but_last(ids.len() as int, keep);
    if n == 0 {
        lemma_shortened_same(messages, call_kinds());
    } else {
        lemma_messages_left(messages, n as nat, ids.take(n), protected);
        lemma_shortened(
            messages,
            context_management::clear_messages(messages, n as nat, ids.take(n), protected).0.messages,
            call_kinds(),
        );
    }
}

/// Clearing thinking takes nothing out of a conversation but blocks of thinking, and messages that
/// held nothing else. Where anything is cleared, no message without content is left.
pub proof fn clearing_thinking_leaves_the_rest(messages: Seq<MessageView>, keep: int)
    ensures
        ({
            let e = context_management::thinking_cleared(messages, keep);
            &&& is_shortened(messages, e.messages, set!["thinking"@])
            &&& e.thinking > 0 ==> forall|j: int|
                0 <= j < e.messages.len() ==> has_content(#[trigger] e.messages[j])
            &&& e.uses == 0 && e.results == 0
        }),
{
    let n = context_management::all_but_last(
        context_management::thinking_count(messages) as int,
        keep,
    );
    if n == 0 {
        lemma_shortened_same(messages, thinking_kinds());
    } else {
        lemma_thinking_left(messages, n as nat);
        lemma_shortened(
            messages,
            context_management::messages_without_thinking(messages, n as nat).0,
            thinking_kinds(),
        );
    }
}

/// Whatever edits a request asks for, the edited conversation is the old one without some blocks of
/// tool calls, results and thinking, and without messages that held nothing else.
pub proof fn edits_leave_the_rest(
    messages: Seq<MessageView>,
    edits: Seq<JsonView>,
    input_tokens: int,
)
    ensures
        is_shortened(
            messages,
            context_management::edits_applied(messages, edits, input_tokens).messages,
            set!["tool_use"@, "tool_result"@, "thinking"@],
        ),
    decreases edits.len(),
{
    let kinds = set!["tool_use"@, "tool_result"@, "thinking"@];
    if edits.len() == 0 {
        lemma_shortened_same(messages, kinds);
    } else {
        let front = edits.drop_last();
        let edit = edits.last();
        edits_leave_the_rest(messages, front, input_tokens);
        let e = context_management::edits_applied(messages, front, input_tokens);
        let after = context_management::edits_applied(messages, edits, input_tokens).messages;
        let keep = context_management::keep_of(edit);
        let protected = context_management::protected_by(edit);
        clearing_calls_leaves_the_rest(e.messages, keep, protected);
        clearing_thinking_leaves_the_rest(e.messages, keep);
        lemma_shortened_wider(
            e.messages,
            context_management::tool_uses_cleared(e.messages, keep, protected).messages,
            set!["tool_use"@, "tool_result"@],
            kinds,
        );
        lemma_shortened_wider(
            e.messages,
            context_management::thinking_cleared(e.messages, keep).messages,
            set!["thinking"@],
            kinds,
        );
        lemma_shortened_same(e.messages, kinds);
        lemma_shortened_twice(messages, e.messages, after, kinds);
    }
}

/// A message with other content than blocks of the kinds is left of a conversation that is
/// shortened, in part at least; one that is no list of blocks is left as it was.
pub proof fn other_content_stays(
    before: Seq<MessageView>,
    after: Seq<MessageView>,
    kinds: Set<Seq<char>>,
    i: int,
) -> (j: int)
    requires
        is_shortened(before, after, kinds),
        0 <= i < before.len(),
        !holds_only(before[i], kinds),
    ensures
        0 <= j < after.len(),
        is_left_of(before[i], after[j], kinds),
        !(before[i].content is Array) ==> after[j] == before[i],
{
    let at = choose|at: Seq<int>| #[trigger] shortens(before, after, at, kinds);
    assert(is_picked(at, i));
    let j = choose|j: int| 0 <= j < at.len() && #[trigger] at[j] == i;
    assert(is_left_of(before[at[j]], after[j], kinds));
    j
}

/// The blocks of a message: the items of its list.
pub open spec fn items_of(m: MessageView) -> Seq<JsonView> {
    match m.content {
        JsonView::Array(blocks) => blocks,
        _ => Seq::empty(),
    }
}

/// All blocks of a conversation, in order.
pub open spec fn all_blocks(messages: Seq<MessageView>) -> Seq<JsonView>
    decreases messages.len(),
{
    if messages.len() == 0 {
        Seq::empty()
    } else {
        all_blocks(messages.drop_last()) + items_of(messages.last())
    }
}

/// The text of a member of a block, empty where it has none.
pub open spec fn text_in(b: JsonView, key: Seq<char>) -> Seq<char> {
    match b.member(key) {
        Some(JsonView::Text(s)) => s,
        _ => Seq::empty(),
    }
}

/// A call with an identifier, of a tool that is not protected.
pub open spec fn is_free_call(b: JsonView, protected: Seq<Seq<char>>) -> bool {
    &&& b.member("type"@) == Some(JsonView::Text("tool_use"@))
    &&& text_in(b, "id"@).len() > 0
    &&& forall|i: int| 0 <= i < protected.len() ==> #[trigger] protected[i] != text_in(b, "name"@)
}

/// How many such calls there are.
pub open spec fn free_calls(blocks: Seq<JsonView>, protected: Seq<Seq<char>>) -> nat
    decreases blocks.len(),
{
    if blocks.len() == 0 {
        0
    } else {
        free_calls(blocks.drop_last(), protected) + if is_free_call(blocks.last(), protected) {
            1nat
        } else {
            0
        }
    }
}

/// Block `i` is one of the first `n` such calls.
pub open spec fn is_early_call(
    blocks: Seq<JsonView>,
    i: int,
    n: int,
    protected: Seq<Seq<char>>,
) -> bool {
    is_free_call(blocks[i], protected) && free_calls(blocks.take(i), protected) < n
}

/// Block `i` is the result of one of the first `n` such calls.
pub open spec fn is_early_result(
    blocks: Seq<JsonView>,
    i: int,
    n: int,
    protected: Seq<Seq<char>>,
) -> bool {
    &&& blocks[i].member("type"@) == Some(JsonView::Text("tool_result"@))
    &&& exists|k: int|
        0 <= k < blocks.len() && #[trigger] is_early_call(blocks, k, n, protected) && text_in(
            blocks[k],
            "id"@,
        ) == text_in(blocks[i], "tool_use_id"@)
}

proof fn lemma_free_call(b: JsonView, protected: Seq<Seq<char>>)
    ensures
        is_free_call(b, protected) == context_management::is_clearable(b, protected),
        text_in(b, "id"@) == context_management::text_or_empty(b, "id"@),
        text_in(b, "tool_use_id"@) == context_management::text_or_empty(b, "tool_use_id"@),
{
    lemma_literals();
    let name = text_in(b, "name"@);
    if protected.contains(name) {
        let i = protected.index_of(name);
        assert(protected[i] == name);
    }
}

proof fn lemma_clear_concat(
    a: Seq<JsonView>,
    b: Seq<JsonView>,
    n: nat,
    cleared: Seq<Seq<char>>,
    protected: Seq<Seq<char>>,
)
    ensures
        ({
            let c = context_management::clear_blocks(a + b, n, cleared, protected);
            let ca = context_management::clear_blocks(a, n, cleared, protected);
            let cb = context_management::clear_blocks(b, ca.left, cleared, protected);
            &&& c.kept == ca.kept + cb.kept
            &&& c.uses == ca.uses + cb.uses
            &&& c.results == ca.results + cb.results
            &&& c.left == cb.left
        }),
    decreases b.len(),
{
    let ca = context_management::clear_blocks(a, n, cleared, protected);
    if b.len() == 0 {
        assert(a + b =~= a);
        assert(ca.kept + Seq::<JsonView>::empty() =~= ca.kept);
    } else {
        lemma_clear_concat(a, b.drop_last(), n, cleared, protected);
        assert((a + b).drop_last() =~= a + b.drop_last());
        let cb = context_management::clear_blocks(b.drop_last(), ca.left, cleared, protected);
        assert((ca.kept + cb.kept).push(b.last()) =~= ca.kept + cb.kept.push(b.last()));
    }
}

proof fn lemma_clear_flat(
    messages: Seq<MessageView>,
    n: nat,
    cleared: Seq<Seq<char>>,
    protected: Seq<Seq<char>>,
)
    ensures
        ({
            let (e, left) = context_management::clear_messages(messages, n, cleared, protected);
            let c = context_management::clear_blocks(
                all_blocks(messages),
                n,
                cleared,
                protected,
            );
            &&& all_blocks(e.messages) == c.kept
            &&& e.uses == c.uses
            &&& e.results == c.results
            &&& left == c.left
        }),
    decreases messages.len(),
{
    if messages.len() > 0 {
        let front = messages.drop_last();
        let m = messages.last();
        lemma_clear_flat(front, n, cleared, protected);
        let (e, left) = context_management::clear_messages(front, n, cleared, protected);
        lemma_clear_concat(all_blocks(front), items_of(m), n, cleared, protected);
        let c = context_management::clear_blocks(
            context_management::blocks_of(m),
            left,
            cleared,
            protected,
        );
        let new_m = context_management::with_blocks(m, c.kept);
        assert(e.messages.push(new_m).drop_last() =~= e.messages);
        assert(items_of(m) =~= context_management::blocks_of(m));
        assert(items_of(new_m) =~= c.kept);
    }
}

proof fn lemma_nonempty_flat(messages: Seq<MessageView>)
    ensures
        all_blocks(context_management::nonempty(messages)) == all_blocks(messages),
    decreases messages.len(),
{
    if messages.len() > 0 {
        let front = messages.drop_last();
        lemma_nonempty_flat(front);
        let kept = context_management::nonempty(front);
        assert(kept.push(messages.last()).drop_last() =~= kept);
        if !has_content(messages.last()) {
            assert(items_of(messages.last()) =~= Seq::<JsonView>::empty());
            assert(all_blocks(front) + Seq::<JsonView>::empty() =~= all_blocks(front));
        }
    }
}

proof fn lemma_ids_concat(a: Seq<JsonView>, b: Seq<JsonView>, protected: Seq<Seq<char>>)
    ensures
        context_management::clearable_in(a + b, protected) == context_management::clearable_in(
            a,
            protected,
        ) + context_management::clearable_in(b, protected),
    decreases b.len(),
{
    let ids = context_management::clearable_in(a, protected);
    if b.len() == 0 {
        assert(a + b =~= a);
        assert(ids + Seq::<Seq<char>>::empty() =~= ids);
    } else {
        lemma_ids_concat(a, b.drop_last(), protected);
        assert((a + b).drop_last() =~= a + b.drop_last());
        let more = context_management::clearable_in(b.drop_last(), protected);
        let id = context_management::text_or_empty(b.last(), "id"@);
        assert((ids + more).push(id) =~= ids + more.push(id));
    }
}

proof fn lemma_ids_flat(messages: Seq<MessageView>, protected: Seq<Seq<char>>)
    ensures
        context_management::clearable_ids(messages, protected) == context_management::clearable_in(
            all_blocks(messages),
            protected,
        ),
    decreases messages.len(),
{
    if messages.len() > 0 {
        let front = messages.drop_last();
        lemma_ids_flat(front, protected);
        lemma_ids_concat(all_blocks(front), items_of(messages.last()), protected);
        assert(items_of(messages.last()) =~= context_management::blocks_of(messages.last()));
    }
}

/// Block `k` is such a call, with `r` others in front of it.
pub open spec fn has_number(blocks: Seq<JsonView>, protected: Seq<Seq<char>>, k: int, r: int) -> bool {
    &&& 0 <= k < blocks.len()
    &&& is_free_call(blocks[k], protected)
    &&& free_calls(blocks.take(k), protected) == r
}

/// The identifiers of the calls, by their number.
proof fn lemma_ids_by_number(blocks: Seq<JsonView>, protected: Seq<Seq<char>>)
    ensures
        context_management::clearable_in(blocks, protected).len() == free_calls(blocks, protected),
    decreases blocks.len(),
{
    if blocks.len() > 0 {
        lemma_ids_by_number(blocks.drop_last(), protected);
        lemma_free_call(blocks.last(), protected);
    }
}

proof fn lemma_id_of_number(blocks: Seq<JsonView>, protected: Seq<Seq<char>>, k: int, r: int)
    requires
        has_number(blocks, protected, k, r),
    ensures
        0 <= r < context_management::clearable_in(blocks, protected).len(),
        context_management::clearable_in(blocks, protected)[r] == text_in(blocks[k], "id"@),
    decreases blocks.len(),
{
    let front = blocks.drop_last();
    lemma_ids_by_number(front, protected);
    lemma_free_call(blocks.last(), protected);
    if k < front.len() {
        assert(front[k] == blocks[k]);
        assert(front.take(k) =~= blocks.take(k));
        lemma_id_of_number(front, protected, k, r);
    } else {
        assert(blocks.take(k) =~= front);
    }
}

proof fn lemma_call_of_number(blocks: Seq<JsonView>, protected: Seq<Seq<char>>, r: int) -> (k: int)
    requires
        0 <= r < context_management::clearable_in(blocks, protected).len(),
    ensures
        has_number(blocks, protected, k, r),
        context_management::clearable_in(blocks, protected)[r] == text_in(blocks[k], "id"@),
    decreases blocks.len(),
{
    let front = blocks.drop_last();
    lemma_ids_by_number(front, protected);
    lemma_free_call(blocks.last(), protected);
    let n = front.len() as int;
    assert(blocks.take(n) =~= front);
    if r < context_management::clearable_in(front, protected).len() {
        let k = lemma_call_of_number(front, protected, r);
        assert(front[k] == blocks[k]);
        assert(front.take(k) =~= blocks.take(k));
        k
    } else {
        n
    }
}

/// Which blocks stay.
proof fn lemma_stay(
    blocks: Seq<JsonView>,
    n: nat,
    cleared: Seq<Seq<char>>,
    protected: Seq<Seq<char>>,
) -> (at: Seq<int>)
    ensures
        ({
            let c = context_management::clear_blocks(blocks, n, cleared, protected);
            &&& is_pick(at, blocks.len() as int)
            &&& c.kept.len() == at.len()
            &&& forall|j: int| 0 <= j < at.len() ==> #[trigger] c.kept[j] == blocks[at[j]]
            &&& forall|i: int|
                #![trigger blocks[i]]
                0 <= i < blocks.len() ==> is_picked(at, i) == !(is_early_call(
                    blocks,
                    i,
                    n as int,
                    protected,
                ) || context_management::is_cleared_result(blocks[i], cleared))
            &&& c.left == (if n > free_calls(blocks, protected) {
                n - free_calls(blocks, protected)
            } else {
                0
            })
            &&& c.kept.len() + c.uses + c.results == blocks.len()
        }),
    decreases blocks.len(),
{
    if blocks.len() == 0 {
        Seq::empty()
    } else {
        lemma_literals();
        let front = blocks.drop_last();
        let b = blocks.last();
        let last = front.len() as int;
        let at = lemma_stay(front, n, cleared, protected);
        let before = context_management::clear_blocks(front, n, cleared, protected);
        let c = context_management::clear_blocks(blocks, n, cleared, protected);
        lemma_free_call(b, protected);
        assert(blocks.take(last) =~= front);
        let goes = is_early_call(blocks, last, n as int, protected)
            || context_management::is_cleared_result(b, cleared);
        let more = if goes {
            at
        } else {
            at.push(last)
        };
        assert forall|j: int| 0 <= j < more.len() implies #[trigger] c.kept[j] == blocks[more[j]] by {
            if j < at.len() {
                assert(c.kept[j] == before.kept[j]);
                assert(front[at[j]] == blocks[at[j]]);
            }
        }
        assert forall|i: int|
            #![trigger blocks[i]]
            0 <= i < blocks.len() implies is_picked(more, i) == !(is_early_call(
            blocks,
            i,
            n as int,
            protected,
        ) || context_management::is_cleared_result(blocks[i], cleared)) by {
            if i < last {
                assert(front[i] == blocks[i]);
                assert(front.take(i) =~= blocks.take(i));
                if is_picked(at, i) {
                    let j = choose|j: int| 0 <= j < at.len() && #[trigger] at[j] == i;
                    assert(more[j] == i);
                }
                if is_picked(more, i) {
                    let j = choose|j: int| 0 <= j < more.len() && #[trigger] more[j] == i;
                    assert(at[j] == i);
                }
            } else if goes {
                if is_picked(more, last) {
                    let j = choose|j: int| 0 <= j < more.len() && #[trigger] more[j] == last;
                    assert(at[j] < last);
                }
            } else {
                assert(more[at.len() as int] == last);
            }
        }
        more
    }
}

/// Which blocks clearing takes out of a conversation: the calls with an identifier, of tools that
/// are not protected, but the last `keep` of them; and the results of those calls. All other blocks
/// stay, in their order; and what goes is counted.
pub proof fn early_calls_and_their_results_go(
    messages: Seq<MessageView>,
    keep: int,
    protected: Seq<Seq<char>>,
) -> (at: Seq<int>)
    requires
        0 <= keep,
    ensures
        ({
            let before = all_blocks(messages);
            let e = context_management::tool_uses_cleared(messages, keep, protected);
            let after = all_blocks(e.messages);
            let n = free_calls(before, protected) - keep;
            &&& is_pick(at, before.len() as int)
            &&& after.len() == at.len()
            &&& forall|j: int| 0 <= j < at.len() ==> #[trigger] after[j] == before[at[j]]
            &&& forall|i: int|
                #![trigger before[i]]
                0 <= i < before.len() ==> is_picked(at, i) == !(is_early_call(
                    before,
                    i,
                    n,
                    protected,
                ) || is_early_result(before, i, n, protected))
            &&& e.uses == (if n > 0 {
                n
            } else {
                0
            })
            &&& after.len() + e.uses + e.results == before.len()
        }),
{
    let before = all_blocks(messages);
    let ids = context_management::clearable_ids(messages, protected);
    let n = context_management::all_but_last(ids.len() as int, keep);
    lemma_ids_flat(messages, protected);
    lemma_ids_by_number(before, protected);
    let count = free_calls(before, protected) - keep;
    if n == 0 {
        lemma_all_picked(before.len());
        let at = all_of(before.len());
        assert forall|i: int| #![trigger before[i]] 0 <= i < before.len() implies is_picked(at, i)
            == !(is_early_call(before, i, count, protected) || is_early_result(
            before,
            i,
            count,
            protected,
        )) by {
            assert(is_picked(at, i));
        }
        at
    } else {
        let cleared = ids.take(n);
        lemma_clear_flat(messages, n as nat, cleared, protected);
        lemma_nonempty_flat(
            context_management::clear_messages(messages, n as nat, cleared, protected).0.messages,
        );
        context_management::last_tool_uses_stay(messages, keep, protected);
        let at = lemma_stay(before, n as nat, cleared, protected);
        assert forall|i: int| #![trigger before[i]] 0 <= i < before.len() implies is_early_result(
            before,
            i,
            n,
            protected,
        ) == context_management::is_cleared_result(before[i], cleared) by {
            lemma_early_result(before, i, n, protected);
        }
        at
    }
}

proof fn lemma_early_result(blocks: Seq<JsonView>, i: int, n: int, protected: Seq<Seq<char>>)
    requires
        0 <= i < blocks.len(),
        0 <= n <= context_management::clearable_in(blocks, protected).len(),
    ensures
        is_early_result(blocks, i, n, protected) == context_management::is_cleared_result(
            blocks[i],
            context_management::clearable_in(blocks, protected).take(n),
        ),
{
    lemma_literals();
    lemma_free_call(blocks[i], protected);
    let ids = context_management::clearable_in(blocks, protected);
    let cleared = ids.take(n);
    lemma_ids_by_number(blocks, protected);
    let id = text_in(blocks[i], "tool_use_id"@);
    if is_early_result(blocks, i, n, protected) {
        let k = choose|k: int|
            0 <= k < blocks.len() && #[trigger] is_early_call(blocks, k, n, protected) && text_in(
                blocks[k],
                "id"@,
            ) == id;
        let r = free_calls(blocks.take(k), protected) as int;
        lemma_id_of_number(blocks, protected, k, r);
        assert(cleared[r] == id);
        assert(cleared.contains(id));
    }
    if context_management::is_cleared_result(blocks[i], cleared) {
        let r = cleared.index_of(id);
        assert(cleared.contains(id));
        assert(cleared[r] == id);
        assert(ids[r] == id);
        let k = lemma_call_of_number(blocks, protected, r);
        assert(is_early_call(blocks, k, n, protected));
    }
}

/// All blocks of the assistant in a conversation, in order.
pub open spec fn said_blocks(messages: Seq<MessageView>) -> Seq<JsonView>
    decreases messages.len(),
{
    if messages.len() == 0 {
        Seq::empty()
    } else if messages.last().role == "assistant"@ {
        said_blocks(messages.drop_last()) + items_of(messages.last())
    } else {
        said_blocks(messages.drop_last())
    }
}

/// How many of the blocks hold thinking.
pub open spec fn thoughts(blocks: Seq<JsonView>) -> nat
    decreases blocks.len(),
{
    if blocks.len() == 0 {
        0
    } else {
        thoughts(blocks.drop_last()) + if blocks.last().member("type"@) == Some(
            JsonView::Text("thinking"@),
        ) {
            1nat
        } else {
            0
        }
    }
}

/// Block `i` is one of the first `n` that hold thinking.
pub open spec fn is_early_thought(blocks: Seq<JsonView>, i: int, n: int) -> bool {
    blocks[i].member("type"@) == Some(JsonView::Text("thinking"@)) && thoughts(blocks.take(i)) < n
}

proof fn lemma_thoughts_concat(a: Seq<JsonView>, b: Seq<JsonView>)
    ensures
        thoughts(a + b) == thoughts(a) + thoughts(b),
    decreases b.len(),
{
    if b.len() == 0 {
        assert(a + b =~= a);
    } else {
        lemma_thoughts_concat(a, b.drop_last());
        assert((a + b).drop_last() =~= a + b.drop_last());
    }
}

proof fn lemma_thoughts_are(blocks: Seq<JsonView>)
    ensures
        thoughts(blocks) == context_management::thinking_in(blocks),
    decreases blocks.len(),
{
    if blocks.len() > 0 {
        lemma_thoughts_are(blocks.drop_last());
    }
}

proof fn lemma_thoughts_flat(messages: Seq<MessageView>)
    ensures
        thoughts(said_blocks(messages)) == context_management::thinking_count(messages),
    decreases messages.len(),
{
    if messages.len() > 0 {
        let m = messages.last();
        lemma_thoughts_flat(messages.drop_last());
        lemma_thoughts_concat(said_blocks(messages.drop_last()), items_of(m));
        lemma_thoughts_are(items_of(m));
        assert(items_of(m) =~= context_management::blocks_of(m));
        lemma_thoughts_are(Seq::empty());
    }
}

proof fn lemma_without_concat(a: Seq<JsonView>, b: Seq<JsonView>, n: nat)
    ensures
        ({
            let (kept, left) = context_management::without_thinking(a + b, n);
            let (ka, la) = context_management::without_thinking(a, n);
            let (kb, lb) = context_management::without_thinking(b, la);
            kept == ka + kb && left == lb
        }),
    decreases b.len(),
{
    let (ka, la) = context_management::without_thinking(a, n);
    if b.len() == 0 {
        assert(a + b =~= a);
        assert(ka + Seq::<JsonView>::empty() =~= ka);
    } else {
        lemma_without_concat(a, b.drop_last(), n);
        assert((a + b).drop_last() =~= a + b.drop_last());
        let (kb, lb) = context_management::without_thinking(b.drop_last(), la);
        assert((ka + kb).push(b.last()) =~= ka + kb.push(b.last()));
    }
}

proof fn lemma_without_flat(messages: Seq<MessageView>, n: nat)
    ensures
        ({
            let (after, left) = context_management::messages_without_thinking(messages, n);
            (said_blocks(context_management::nonempty(after)), left)
                == context_management::without_thinking(said_blocks(messages), n)
        }),
    decreases messages.len(),
{
    if messages.len() > 0 {
        let front = messages.drop_last();
        let m = messages.last();
        lemma_without_flat(front, n);
        let (after, left) = context_management::messages_without_thinking(front, n);
        lemma_without_concat(said_blocks(front), items_of(m), n);
        let (kept, rest) = context_management::without_thinking(
            context_management::blocks_of(m),
            left,
        );
        assert(items_of(m) =~= context_management::blocks_of(m));
        let new_m = if m.role == "assistant"@ {
            context_management::with_blocks(m, kept)
        } else {
            m
        };
        assert(after.push(new_m).drop_last() =~= after);
        let full = context_management::nonempty(after);
        assert(full.push(new_m).drop_last() =~= full);
        if m.role == "assistant"@ {
            assert(items_of(new_m) =~= kept);
            if !has_content(new_m) {
                assert(said_blocks(full) + kept =~= said_blocks(full));
            }
        }
    }
}

proof fn lemma_thoughts_stay(blocks: Seq<JsonView>, n: nat) -> (at: Seq<int>)
    ensures
        ({
            let (kept, left) = context_management::without_thinking(blocks, n);
            &&& is_pick(at, blocks.len() as int)
            &&& kept.len() == at.len()
            &&& forall|j: int| 0 <= j < at.len() ==> #[trigger] kept[j] == blocks[at[j]]
            &&& forall|i: int|
                #![trigger blocks[i]]
                0 <= i < blocks.len() ==> is_picked(at, i) == !is_early_thought(
                    blocks,
                    i,
                    n as int,
                )
            &&& left == (if n > thoughts(blocks) {
                n - thoughts(blocks)
            } else {
                0
            })
        }),
    decreases blocks.len(),
{
    if blocks.len() == 0 {
        Seq::empty()
    } else {
        let front = blocks.drop_last();
        let last = front.len() as int;
        let at = lemma_thoughts_stay(front, n);
        let (before, _) = context_management::without_thinking(front, n);
        let (kept, _) = context_management::without_thinking(blocks, n);
        assert(blocks.take(last) =~= front);
        let goes = is_early_thought(blocks, last, n as int);
        let more = if goes {
            at
        } else {
            at.push(last)
        };
        assert forall|j: int| 0 <= j < more.len() implies #[trigger] kept[j] == blocks[more[j]] by {
            if j < at.len() {
                assert(kept[j] == before[j]);
                assert(front[at[j]] == blocks[at[j]]);
            }
        }
        assert forall|i: int| #![trigger blocks[i]] 0 <= i < blocks.len() implies is_picked(more, i)
            == !is_early_thought(blocks, i, n as int) by {
            if i < last {
                assert(front[i] == blocks[i]);
                assert(front.take(i) =~= blocks.take(i));
                if is_picked(at, i) {
                    let j = choose|j: int| 0 <= j < at.len() && #[trigger] at[j] == i;
                    assert(more[j] == i);
                }
                if is_picked(more, i) {
                    let j = choose|j: int| 0 <= j < more.len() && #[trigger] more[j] == i;
                    assert(at[j] == i);
                }
            } else if goes {
                if is_picked(more, last) {
                    let j = choose|j: int| 0 <= j < more.len() && #[trigger] more[j] == last;
                    assert(at[j] < last);
                }
            } else {
                assert(more[at.len() as int] == last);
            }
        }
        more
    }
}

/// Which blocks of the assistant clearing of thinking takes out: those that hold thinking, but the
/// last `keep` of them. What goes is counted.
pub proof fn early_thinking_goes(messages: Seq<MessageView>, keep: int) -> (at: Seq<int>)
    requires
        0 <= keep,
    ensures
        ({
            let before = said_blocks(messages);
            let e = context_management::thinking_cleared(messages, keep);
            let after = said_blocks(e.messages);
            let n = thoughts(before) - keep;
            &&& is_pick(at, before.len() as int)
            &&& after.len() == at.len()
            &&& forall|j: int| 0 <= j < at.len() ==> #[trigger] after[j] == before[at[j]]
            &&& forall|i: int|
                #![trigger before[i]]
                0 <= i < before.len() ==> is_picked(at, i) == !is_early_thought(before, i, n)
            &&& e.thinking == (if n > 0 {
                n
            } else {
                0
            })
        }),
{
    let before = said_blocks(messages);
    lemma_thoughts_flat(messages);
    let n = context_management::all_but_last(thoughts(before) as int, keep);
    if n == 0 {
        lemma_all_picked(before.len());
        let at = all_of(before.len());
        assert forall|i: int| #![trigger before[i]] 0 <= i < before.len() implies is_picked(at, i)
            == !is_early_thought(before, i, thoughts(before) - keep) by {
            assert(is_picked(at, i));
        }
        at
    } else {
        lemma_without_flat(messages, n as nat);
        lemma_thoughts_stay(before, n as nat)
    }
}

/// Thinking is cleared out of messages of the assistant alone: another message is left as it was,
/// where it has content.
pub proof fn others_keep_their_thinking(messages: Seq<MessageView>, keep: int, i: int) -> (j: int)
    requires
        0 <= i < messages.len(),
        messages[i].role != "assistant"@,
        has_content(messages[i]),
    ensures
        ({
            let after = context_management::thinking_cleared(messages, keep).messages;
            0 <= j < after.len() && after[j] == messages[i]
        }),
{
    let n = context_management::all_but_last(
        context_management::thinking_count(messages) as int,
        keep,
    );
    if n == 0 {
        i
    } else {
        lemma_thinking_left(messages, n as nat);
        let left = context_management::messages_without_thinking(messages, n as nat).0;
        let at = lemma_nonempty(left);
        assert(left[i] == messages[i]);
        assert(is_picked(at, i));
        choose|j: int| 0 <= j < at.len() && #[trigger] at[j] == i
    }
}

/// The number that an edit gives for a setting.
pub open spec fn number_at(edit: JsonView, key: Seq<char>) -> Option<int> {
    match edit.member(key) {
        Some(v) => match v.member("value"@) {
            Some(JsonView::Int(n)) => if 0 <= n <= u64::MAX {
                Some(n)
            } else {
                None
            },
            _ => None,
        },
        None => None,
    }
}

/// How many an edit keeps: as many as it says, and three where it does not say.
pub open spec fn kept_by(edit: JsonView) -> int {
    match number_at(edit, "keep"@) {
        Some(n) => n,
        None => 3,
    }
}

proof fn lemma_edit_kinds()
    ensures
        "clear_tool_uses_20250605"@ != "clear_thinking_20251015"@,
        "clear_tool_uses_20250605"@.len() > 0,
        "clear_thinking_20251015"@.len() > 0,
{
    reveal_strlit("clear_tool_uses_20250605");
    reveal_strlit("clear_thinking_20251015");
    assert("clear_tool_uses_20250605"@.len() == 24);
    assert("clear_thinking_20251015"@.len() == 23);
}

/// An edit does what its type says, from the number of input tokens on that it names, or always
/// where it names none. Below that number, and for other types, it does nothing.
pub proof fn edits_do_what_they_say(
    messages: Seq<MessageView>,
    before: Seq<JsonView>,
    edit: JsonView,
    input_tokens: int,
)
    requires
        0 <= input_tokens,
    ensures
        ({
            let e = context_management::edits_applied(messages, before, input_tokens);
            let r = context_management::edits_applied(messages, before.push(edit), input_tokens);
            let calls = context_management::tool_uses_cleared(
                e.messages,
                kept_by(edit),
                context_management::protected_by(edit),
            );
            let thought = context_management::thinking_cleared(e.messages, kept_by(edit));
            let due = number_at(edit, "trigger"@) matches Some(n) ==> input_tokens >= n;
            let kind = edit.member("type"@);
            &&& kind == Some(JsonView::Text("clear_tool_uses_20250605"@)) && due ==> {
                &&& r.messages == calls.messages
                &&& r.uses == e.uses + calls.uses
                &&& r.results == e.results + calls.results
                &&& r.thinking == e.thinking
            }
            &&& kind == Some(JsonView::Text("clear_thinking_20251015"@)) && due ==> {
                &&& r.messages == thought.messages
                &&& r.uses == e.uses
                &&& r.results == e.results
                &&& r.thinking == e.thinking + thought.thinking
            }
            &&& !due ==> r == e
            &&& kind != Some(JsonView::Text("clear_tool_uses_20250605"@)) && kind != Some(
                JsonView::Text("clear_thinking_20251015"@),
            ) ==> r == e
        }),
        ({
            let e = context_management::edits_applied(messages, Seq::empty(), input_tokens);
            e.messages == messages && e.uses == 0 && e.results == 0 && e.thinking == 0
        }),
{
    lemma_edit_kinds();
    assert(before.push(edit).drop_last() =~= before);
    assert(before.push(edit).last() == edit);
}

proof fn lemma_texts_in(items: Seq<JsonView>, name: Seq<char>)
    ensures
        context_management::texts_in(items).contains(name) <==> exists|i: int|
            0 <= i < items.len() && #[trigger] items[i] == JsonView::Text(name),
    decreases items.len(),
{
    if items.len() > 0 {
        let front = items.drop_last();
        lemma_texts_in(front, name);
        let names = context_management::texts_in(items);
        let old_names = context_management::texts_in(front);
        let n = front.len() as int;
        if names.contains(name) {
            let k = names.index_of(name);
            assert(names[k] == name);
            if k < old_names.len() {
                assert(old_names[k] == name);
                let i = choose|i: int|
                    0 <= i < front.len() && #[trigger] front[i] == JsonView::Text(name);
                assert(items[i] == JsonView::Text(name));
            } else {
                assert(items[n] == JsonView::Text(name));
            }
        }
        if exists|i: int| 0 <= i < items.len() && #[trigger] items[i] == JsonView::Text(name) {
            let i = choose|i: int| 0 <= i < items.len() && #[trigger] items[i] == JsonView::Text(name);
            if i < n {
                assert(front[i] == JsonView::Text(name));
                let k = old_names.index_of(name);
                assert(names[k] == name);
            } else {
                assert(names[old_names.len() as int] == name);
            }
        }
    }
}

/// The tools that an edit protects are those that its list names.
pub proof fn listed_tools_are_protected(edit: JsonView, name: Seq<char>)
    ensures
        (edit.member("exclude_tools"@) matches Some(JsonView::Array(items)) ==> (
        context_management::protected_by(edit).contains(name) <==> exists|i: int|
            0 <= i < items.len() && #[trigger] items[i] == JsonView::Text(name))),
        !(edit.member("exclude_tools"@) matches Some(JsonView::Array(_)))
            ==> !context_management::protected_by(edit).contains(name),
{
    if let Some(JsonView::Array(items)) = edit.member("exclude_tools"@) {
        lemma_texts_in(items, name);
    }
}

/// The edits of a request are the items of the list that it gives.
pub proof fn requests_list_their_edits(context_management: Option<Json>)
    ensures
        context_management matches Some(cm) ==> {
            &&& cm@.member("edits"@) matches Some(JsonView::Array(items)) ==> context_management::edits_of(
                context_management,
            ) == items
            &&& !(cm@.member("edits"@) matches Some(JsonView::Array(_)))
                ==> context_management::edits_of(context_management).len() == 0
        },
        context_management is None ==> context_management::edits_of(context_management).len() == 0,
{
}

} // verus!
