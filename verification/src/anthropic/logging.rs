//! What is recorded of a request while it is served.

use vstd::prelude::*;
use vstd::string::*;

use crate::anthropic::types::MessagesRequest;
use crate::db::recorder;
use crate::db::recorder::{ErrorDetail, RequestRecord, RequestRecordBuilder, RequestStatus};
use crate::ids;
use crate::json;
use crate::json::{Json, JsonView};
use crate::kiro::model::events::{Event, TokenUsageEvent};
use crate::kiro::provider::CallSuccess;
use crate::text;

verus! {

/// The text mentions cache control.
pub open spec fn mentions_cache_control(s: Seq<char>) -> bool {
    text::contains_bytes(text::bytes_of(s), text::bytes_of("cache_control"@))
}

/// Whether one of the texts mentions cache control.
pub fn cache_control_in(serialized: &Vec<String>) -> (r: bool)
    ensures
        r <==> exists|i: int|
            0 <= i < serialized@.len() && mentions_cache_control(#[trigger] serialized@[i]@),
{
    for i in 0..serialized.len()
        invariant
            forall|j: int| 0 <= j < i ==> !mentions_cache_control(#[trigger] serialized@[j]@),
    {
        if text::text_contains(serialized[i].as_str(), "cache_control") {
            proof {
                assert(mentions_cache_control(serialized@[i as int]@));
            }
            return true;
        }
    }
    false
}

/// A document that may be absent, as a document.
pub open spec fn or_null(document: Option<Json>) -> JsonView {
    match document {
        Some(d) => d@,
        None => JsonView::Null,
    }
}

/// The system prompt or a message mentions cache control, in its text form.
pub open spec fn has_cache_control(payload: MessagesRequest) -> bool {
    ||| mentions_cache_control(json::json_text(or_null(payload.system)))
    ||| exists|i: int|
        0 <= i < payload.messages@.len() && mentions_cache_control(
            json::json_text((#[trigger] payload.messages@[i]).content@),
        )
}

/// The number of tools of a request.
pub open spec fn tools_count(payload: MessagesRequest) -> i32 {
    match payload.tools {
        Some(tools) => match tools@.items() {
            Some(items) => items.len() as i32,
            None => 0,
        },
        None => 0,
    }
}

/// The length of the system prompt of a request in its text form, in bytes.
pub open spec fn system_prompt_len(payload: MessagesRequest) -> i32 {
    match payload.system {
        Some(system) => text::bytes_of(json::json_text(system@)).len() as i32,
        None => 0,
    }
}

/// The text forms of the system prompt and of the contents of the messages.
fn serialized(payload: &MessagesRequest) -> (r: Vec<String>)
    ensures
        r@.len() == payload.messages@.len() + 1,
        r@[0]@ == json::json_text(or_null(payload.system)),
        forall|i: int|
            0 <= i < payload.messages@.len() ==> (#[trigger] r@[i + 1])@ == json::json_text(
                payload.messages@[i].content@,
            ),
{
    let mut out: Vec<String> = Vec::new();
    match &payload.system {
        Some(system) => out.push(system.to_text()),
        None => out.push(Json::Null.to_text()),
    }
    for i in 0..payload.messages.len()
        invariant
            out@.len() == i + 1,
            out@[0]@ == json::json_text(or_null(payload.system)),
            forall|j: int|
                0 <= j < i ==> (#[trigger] out@[j + 1])@ == json::json_text(
                    payload.messages@[j].content@,
                ),
    {
        out.push(payload.messages[i].content.to_text());
    }
    out
}

/// Whether the system prompt or a message mentions cache control, in its text form.
fn serialized_has_cache_control(payload: &MessagesRequest) -> (r: bool)
    ensures
        r == has_cache_control(*payload),
{
    let texts = serialized(payload);
    let r: bool = cache_control_in(&texts);
    proof {
        if r {
            let i = choose|i: int|
                0 <= i < texts@.len() && mentions_cache_control(#[trigger] texts@[i]@);
            if i > 0 {
                let m = payload.messages@[i - 1];
                assert(texts@[(i - 1) + 1]@ == json::json_text(m.content@));
            }
        }
        if mentions_cache_control(json::json_text(or_null(payload.system))) {
            assert(mentions_cache_control(texts@[0]@));
        }
        if exists|i: int|
            0 <= i < payload.messages@.len() && mentions_cache_control(
                json::json_text((#[trigger] payload.messages@[i]).content@),
            ) {
            let i = choose|i: int|
                0 <= i < payload.messages@.len() && mentions_cache_control(
                    json::json_text((#[trigger] payload.messages@[i]).content@),
                );
            assert(mentions_cache_control(texts@[i + 1]@));
        }
    }
    r
}

/// Starts the record of a request, with what the request shows.
pub fn begin(endpoint: &str, payload: &MessagesRequest) -> (r: RequestRecordBuilder)
    ensures
        ids::is_uuid_text(r.request_id@),
        recorder::is_timestamp(r.ts_ms),
        r.is_fresh(),
        r.describes(
            endpoint@,
            payload.model@,
            payload.stream,
            payload.messages@.len() as i32,
            tools_count(*payload),
            has_cache_control(*payload),
            system_prompt_len(*payload),
        ),
{
    let messages: i32 = #[verifier::truncate]
    (payload.messages.len() as i32);
    let tools: i32 = match &payload.tools {
        Some(tools) => match tools.as_array() {
            Some(items) => {
                proof {
                    json::lemma_json_models(items@);
                }
                #[verifier::truncate]
                (items.len() as i32)
            },
            None => 0,
        },
        None => 0,
    };
    let system: i32 = match &payload.system {
        Some(system) => {
            let s = system.to_text();
            #[verifier::truncate]
            (s.as_str().as_bytes().len() as i32)
        },
        None => 0,
    };
    let cache_control: bool = serialized_has_cache_control(payload);
    RequestRecordBuilder::begin(
        endpoint,
        payload.model.as_str(),
        payload.stream,
        messages,
        tools,
        cache_control,
        system,
    )
}

/// Records which account served the request, and how.
pub fn observe_dispatch(builder: &mut RequestRecordBuilder, outcome: &CallSuccess)
    ensures
        *final(builder) == (RequestRecordBuilder {
            account_id: Some(outcome.account_id),
            account_label: outcome.account_label,
            http_status: Some(outcome.http_status),
            attempts: outcome.attempts as i32,
            ..*old(builder)
        }),
{
    let label: Option<String> = match &outcome.account_label {
        Some(s) => Some(s.clone()),
        None => None,
    };
    builder.set_account(outcome.account_id.clone(), label);
    builder.set_http_status(outcome.http_status);
    builder.set_attempts(
        #[verifier::truncate]
        (outcome.attempts as i32),
    );
}

/// The input tokens that were counted, those of the cache among them.
pub open spec fn counted_input(t: TokenUsageEvent) -> int {
    t.uncached_input_tokens + match t.cache_read_input_tokens {
        Some(n) => n as int,
        None => 0,
    }
}

/// What is known once the token counts of the answer came. Counts that are not positive, and those
/// that are absent, change nothing.
pub open spec fn with_token_usage(b: RequestRecordBuilder, t: TokenUsageEvent) -> RequestRecordBuilder {
    RequestRecordBuilder {
        completion_tokens: if t.output_tokens > 0 {
            Some(t.output_tokens as i32)
        } else {
            b.completion_tokens
        },
        cached_tokens: match t.cache_read_input_tokens {
            Some(n) => Some(n as i32),
            None => b.cached_tokens,
        },
        cache_creation_tokens: match t.cache_write_input_tokens {
            Some(n) => Some(n as i32),
            None => b.cache_creation_tokens,
        },
        prompt_tokens: if counted_input(t) > 0 {
            Some(counted_input(t) as i32)
        } else {
            b.prompt_tokens
        },
        ..b
    }
}

/// What is known once an event of the answer came.
pub open spec fn with_event(b: RequestRecordBuilder, event: Event) -> RequestRecordBuilder {
    match event {
        Event::Metering(m) => RequestRecordBuilder {
            metering_unit: m.unit,
            metering_usage: Some(m.usage),
            ..b
        },
        Event::ContextUsage(c) => RequestRecordBuilder {
            context_usage_pct: Some(c.percentage),
            ..b
        },
        Event::TokenUsage(t) => with_token_usage(b, t),
        _ => b,
    }
}

/// Records the token counts of the answer.
fn observe_token_usage(builder: &mut RequestRecordBuilder, t: &TokenUsageEvent)
    requires
        i64::MIN <= counted_input(*t) <= i64::MAX,
    ensures
        *final(builder) == with_token_usage(*old(builder), *t),
{
    if t.output_tokens > 0 {
        builder.set_completion_tokens(
            #[verifier::truncate]
            (t.output_tokens as i32),
        );
    }
    let mut input: i64 = t.uncached_input_tokens;
    if let Some(n) = t.cache_read_input_tokens {
        builder.set_cached_tokens(
            #[verifier::truncate]
            (n as i32),
        );
        input = input + n;
    }
    if let Some(n) = t.cache_write_input_tokens {
        builder.set_cache_creation_tokens(
            #[verifier::truncate]
            (n as i32),
        );
    }
    if input > 0 {
        builder.set_prompt_tokens(
            #[verifier::truncate]
            (input as i32),
        );
    }
}

/// Records what an event of the answer says of its cost.
pub fn observe_event(builder: &mut RequestRecordBuilder, event: &Event)
    requires
        event matches Event::TokenUsage(t) ==> i64::MIN <= counted_input(*t) <= i64::MAX,
    ensures
        *final(builder) == with_event(*old(builder), *event),
{
    match event {
        Event::Metering(m) => {
            let unit: Option<String> = match &m.unit {
                Some(s) => Some(s.clone()),
                None => None,
            };
            builder.set_metering(unit, m.usage);
        },
        Event::ContextUsage(c) => builder.set_context_usage_pct(c.percentage),
        Event::TokenUsage(t) => observe_token_usage(builder, t),
        _ => {},
    }
}

/// The record that is to be written of a request that ends now, where requests are logged.
pub fn finish(logged: bool, builder: RequestRecordBuilder, status: RequestStatus) -> (r: Option<
    RequestRecord,
>)
    ensures
        match r {
            Some(record) => {
                &&& logged
                &&& builder.gives(status, record.latency_ms, record)
                &&& recorder::is_time_since(builder.started_at, record.latency_ms)
            },
            None => !logged,
        },
{
    if logged {
        Some(builder.build(status))
    } else {
        None
    }
}

/// What is known once a request failed.
pub open spec fn with_error(
    b: RequestRecordBuilder,
    kind: String,
    stage: String,
    code: String,
    message: String,
) -> RequestRecordBuilder {
    RequestRecordBuilder {
        error_kind: Some(kind),
        error_message: Some(message),
        error_detail: Some(ErrorDetail { stage, code, message }),
        ..b
    }
}

/// The record that is to be written of a request that fails now, where requests are logged.
pub fn finish_with_error(
    logged: bool,
    builder: RequestRecordBuilder,
    kind: String,
    stage: String,
    code: String,
    message: String,
) -> (r: Option<RequestRecord>)
    ensures
        match r {
            Some(record) => {
                &&& logged
                &&& with_error(builder, kind, stage, code, message).gives(
                    RequestStatus::Error,
                    record.latency_ms,
                    record,
                )
                &&& recorder::is_time_since(builder.started_at, record.latency_ms)
            },
            None => !logged,
        },
{
    let mut b = builder;
    b.set_error(kind, stage, code, message);
    finish(logged, b, RequestStatus::Error)
}

/// The input tokens of an answer are recorded whether a cache served some of them or not: as they
/// came where no cache read was reported, and with the cache read added where one was. What is not
/// positive is not recorded.
pub proof fn input_tokens_are_recorded(b: RequestRecordBuilder, t: TokenUsageEvent)
    ensures
        ({
            let r = with_event(b, Event::TokenUsage(t));
            let uncached = t.uncached_input_tokens;
            &&& t.cache_read_input_tokens is None && 0 < uncached <= i32::MAX ==> r.prompt_tokens
                == Some(uncached as i32)
            &&& t.cache_read_input_tokens is None && uncached <= 0 ==> r.prompt_tokens
                == b.prompt_tokens
            &&& t.cache_read_input_tokens matches Some(n) ==> {
                &&& 0 < uncached + n <= i32::MAX ==> r.prompt_tokens == Some((uncached + n) as i32)
                &&& uncached + n <= 0 ==> r.prompt_tokens == b.prompt_tokens
            }
        }),
{
}

/// The output tokens and the cache counts of an answer are recorded as they came, each where it
/// came; output that is not positive is not recorded.
pub proof fn output_and_cache_tokens_are_recorded(b: RequestRecordBuilder, t: TokenUsageEvent)
    ensures
        ({
            let r = with_event(b, Event::TokenUsage(t));
            &&& 0 < t.output_tokens <= i32::MAX ==> r.completion_tokens == Some(
                t.output_tokens as i32,
            )
            &&& t.output_tokens <= 0 ==> r.completion_tokens == b.completion_tokens
            &&& t.cache_read_input_tokens matches Some(n) ==> (i32::MIN <= n <= i32::MAX
                ==> r.cached_tokens == Some(n as i32))
            &&& t.cache_read_input_tokens is None ==> r.cached_tokens == b.cached_tokens
            &&& t.cache_write_input_tokens matches Some(n) ==> (i32::MIN <= n <= i32::MAX
                ==> r.cache_creation_tokens == Some(n as i32))
            &&& t.cache_write_input_tokens is None ==> r.cache_creation_tokens
                == b.cache_creation_tokens
        }),
{
}

/// The cost and the share of the context that an answer reports are recorded as they came; text,
/// reasoning, tool calls and errors of the service record nothing.
pub proof fn costs_are_recorded(b: RequestRecordBuilder, event: Event)
    ensures
        ({
            let r = with_event(b, event);
            &&& event matches Event::Metering(m) ==> r.metering_usage == Some(m.usage)
                && r.metering_unit == m.unit && r.context_usage_pct == b.context_usage_pct
            &&& event matches Event::ContextUsage(c) ==> r.context_usage_pct == Some(c.percentage)
                && r.metering_usage == b.metering_usage && r.metering_unit == b.metering_unit
            &&& !(event is Metering) && !(event is ContextUsage) && !(event is TokenUsage) ==> r == b
        }),
{
}

/// No event of an answer touches what is known of the request and of how it was served.
pub proof fn events_record_counts_alone(b: RequestRecordBuilder, event: Event)
    ensures
        ({
            let r = with_event(b, event);
            &&& r.request_id == b.request_id
            &&& r.ts_ms == b.ts_ms
            &&& r.started_at == b.started_at
            &&& r.endpoint == b.endpoint
            &&& r.model == b.model
            &&& r.is_stream == b.is_stream
            &&& r.messages_count == b.messages_count
            &&& r.tools_count == b.tools_count
            &&& r.has_cache_control == b.has_cache_control
            &&& r.system_prompt_len == b.system_prompt_len
            &&& r.public_key_id == b.public_key_id
            &&& r.client_id == b.client_id
            &&& r.session_id == b.session_id
            &&& r.upstream_model == b.upstream_model
            &&& r.account_id == b.account_id
            &&& r.account_label == b.account_label
            &&& r.http_status == b.http_status
            &&& r.reason == b.reason
            &&& r.error_kind == b.error_kind
            &&& r.error_message == b.error_message
            &&& r.attempts == b.attempts
            &&& r.ttfb_ms == b.ttfb_ms
            &&& r.cost == b.cost
            &&& r.params_json == b.params_json
            &&& r.cache_read_reported == b.cache_read_reported
            &&& r.error_detail == b.error_detail
            &&& r.request_body == b.request_body
            &&& r.response_body == b.response_body
        }),
{
}

/// What a list of events leaves in the record.
pub open spec fn with_events(b: RequestRecordBuilder, events: Seq<Event>) -> RequestRecordBuilder
    decreases events.len(),
{
    if events.len() == 0 {
        b
    } else {
        with_event(with_events(b, events.drop_last()), events.last())
    }
}

/// Whatever else an answer brings, the record has the input tokens of the last positive count.
pub proof fn the_last_token_counts_stay(
    b: RequestRecordBuilder,
    before: Seq<Event>,
    t: TokenUsageEvent,
    after: Seq<Event>,
)
    requires
        t.cache_read_input_tokens is None,
        0 < t.uncached_input_tokens <= i32::MAX,
        forall|i: int| 0 <= i < after.len() ==> !((#[trigger] after[i]) is TokenUsage),
    ensures
        with_events(b, before + seq![Event::TokenUsage(t)] + after).prompt_tokens == Some(
            t.uncached_input_tokens as i32,
        ),
    decreases after.len(),
{
    let all = before + seq![Event::TokenUsage(t)] + after;
    if after.len() == 0 {
        assert(all.drop_last() =~= before);
        assert(all.last() == Event::TokenUsage(t));
    } else {
        assert(all.drop_last() =~= before + seq![Event::TokenUsage(t)] + after.drop_last());
        assert(all.last() == after[after.len() - 1]);
        the_last_token_counts_stay(b, before, t, after.drop_last());
    }
}

/// What a failed request leaves in the record: the class and the message of the error, and where
/// it came from.
pub proof fn errors_are_recorded(
    b: RequestRecordBuilder,
    kind: String,
    stage: String,
    code: String,
    message: String,
    latency_ms: i64,
    record: RequestRecord,
)
    requires
        with_error(b, kind, stage, code, message).gives(RequestStatus::Error, latency_ms, record),
    ensures
        record.status is Error,
        record.error_kind == Some(kind),
        record.error_message == Some(message),
        record.error_detail == Some(ErrorDetail { stage, code, message }),
        record.request_id == b.request_id,
        record.account_id == b.account_id,
        record.http_status == b.http_status,
        record.attempts == b.attempts,
        record.prompt_tokens == b.prompt_tokens,
        record.completion_tokens == b.completion_tokens,
        record.cached_tokens == b.cached_tokens,
        record.cache_creation_tokens == b.cache_creation_tokens,
{
}

/// What the record says of the tools and of the system prompt of a request: how many tools its list
/// has, and how many bytes the text of the prompt takes; nothing where there is none.
pub proof fn requests_are_measured(payload: MessagesRequest)
    ensures
        payload.tools is None ==> tools_count(payload) == 0,
        payload.tools matches Some(v) ==> {
            &&& v@ matches JsonView::Array(items) ==> (items.len() <= i32::MAX ==> tools_count(
                payload,
            ) == items.len())
            &&& !(v@ is Array) ==> tools_count(payload) == 0
        },
        payload.system is None ==> system_prompt_len(payload) == 0,
        payload.system matches Some(v) ==> (text::bytes_of(json::json_text(v@)).len() <= i32::MAX
            ==> system_prompt_len(payload) == text::bytes_of(json::json_text(v@)).len()),
{
}

/// A request has cache control where its system prompt or one of its messages mentions it, and not
/// otherwise.
pub proof fn cache_control_is_noticed(payload: MessagesRequest, k: int)
    ensures
        (payload.system matches Some(v) ==> (text::contains_bytes(
            text::bytes_of(json::json_text(v@)),
            text::bytes_of("cache_control"@),
        ) ==> has_cache_control(payload))),
        0 <= k < payload.messages@.len() && text::contains_bytes(
            text::bytes_of(json::json_text(payload.messages@[k].content@)),
            text::bytes_of("cache_control"@),
        ) ==> has_cache_control(payload),
        has_cache_control(payload) ==> {
            ||| text::contains_bytes(
                text::bytes_of(
                    json::json_text(
                        match payload.system {
                            Some(v) => v@,
                            None => JsonView::Null,
                        },
                    ),
                ),
                text::bytes_of("cache_control"@),
            )
            ||| exists|i: int|
                0 <= i < payload.messages@.len() && text::contains_bytes(
                    text::bytes_of(json::json_text((#[trigger] payload.messages@[i]).content@)),
                    text::bytes_of("cache_control"@),
                )
        },
{
    if 0 <= k < payload.messages@.len() {
        let m = payload.messages@[k];
        assert(mentions_cache_control(json::json_text(m.content@)) == text::contains_bytes(
            text::bytes_of(json::json_text(m.content@)),
            text::bytes_of("cache_control"@),
        ));
    }
}

} // verus!
