//! The `usage` object of an answer.

use vstd::prelude::*;

use crate::json;
use crate::json::{Json, JsonView};

verus! {

/// The input tokens that no cache served.
pub open spec fn uncached_input(total: int, cache_read: int, cache_creation: int) -> int {
    if total - cache_read - cache_creation > 0 {
        total - cache_read - cache_creation
    } else {
        0
    }
}

/// The `usage` object: what was read and written without the cache, and the cache counts where
/// they are positive.
pub open spec fn usage_model(
    total: int,
    output: int,
    cache_read: int,
    cache_creation: int,
) -> JsonView {
    let base = map![
        "input_tokens"@ => JsonView::Int(uncached_input(total, cache_read, cache_creation)),
        "output_tokens"@ => JsonView::Int(output)
    ];
    let with_read = if cache_read > 0 {
        base.insert("cache_read_input_tokens"@, JsonView::Int(cache_read))
    } else {
        base
    };
    JsonView::Object(
        if cache_creation > 0 {
            with_read.insert("cache_creation_input_tokens"@, JsonView::Int(cache_creation))
        } else {
            with_read
        },
    )
}

/// Builds the `usage` object from the size of the whole context and its cached parts.
pub fn build_usage_json(
    total_input_tokens: i32,
    output_tokens: i32,
    cache_read: i32,
    cache_creation: i32,
) -> (r: Json)
    requires
        i32::MIN <= total_input_tokens - cache_read <= i32::MAX,
        i32::MIN <= total_input_tokens - cache_read - cache_creation <= i32::MAX,
    ensures
        r@ == usage_model(
            total_input_tokens as int,
            output_tokens as int,
            cache_read as int,
            cache_creation as int,
        ),
{
    let rest: i32 = total_input_tokens - cache_read - cache_creation;
    let uncached: i32 = if rest > 0 {
        rest
    } else {
        0
    };
    let mut members = json::no_members();
    json::push_member(&mut members, "input_tokens", json::json_i32(uncached));
    json::push_member(&mut members, "output_tokens", json::json_i32(output_tokens));
    if cache_read > 0 {
        json::push_member(&mut members, "cache_read_input_tokens", json::json_i32(cache_read));
    }
    if cache_creation > 0 {
        json::push_member(
            &mut members,
            "cache_creation_input_tokens",
            json::json_i32(cache_creation),
        );
    }
    Json::Object(members)
}

/// The count that a `usage` object reports under `key`, 0 where it reports none.
pub open spec fn usage_count(usage: JsonView, key: Seq<char>) -> int {
    match usage.member(key) {
        Some(JsonView::Int(n)) => n,
        _ => 0,
    }
}

/// Whatever part of the context the cache served, the three input counts add up to the whole
/// context.
pub proof fn usage_parts_add_up(total: int, output: int, cache_read: int, cache_creation: int)
    requires
        0 <= cache_read,
        0 <= cache_creation,
        cache_read + cache_creation <= total,
    ensures
        usage_count(usage_model(total, output, cache_read, cache_creation), "input_tokens"@)
            + usage_count(
            usage_model(total, output, cache_read, cache_creation),
            "cache_read_input_tokens"@,
        ) + usage_count(
            usage_model(total, output, cache_read, cache_creation),
            "cache_creation_input_tokens"@,
        ) == total,
{
    reveal_strlit("input_tokens");
    reveal_strlit("output_tokens");
    reveal_strlit("cache_read_input_tokens");
    reveal_strlit("cache_creation_input_tokens");
    assert("input_tokens"@.len() == 12);
    assert("output_tokens"@.len() == 13);
    assert("cache_read_input_tokens"@.len() == 23);
    assert("cache_creation_input_tokens"@.len() == 27);
}

} // verus!
