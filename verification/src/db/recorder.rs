//! The record of a request, built while the request is served.

use vstd::prelude::*;
use vstd::string::*;

use crate::float_bits::FloatBits;
use crate::ids;

verus! {

/// How a request ended.
#[derive(Debug, Clone, Copy, PartialEq, Eq, Structural)]
pub enum RequestStatus {
    Success,
    Error,
    Cancelled,
}

impl RequestStatus {
    /// The name of the status.
    pub open spec fn name(self) -> Seq<char> {
        match self {
            RequestStatus::Success => "success"@,
            RequestStatus::Error => "error"@,
            RequestStatus::Cancelled => "cancelled"@,
        }
    }

    /// The name of the status.
    pub fn as_str(self) -> (r: &'static str)
        ensures
            r@ == self.name(),
    {
        match self {
            RequestStatus::Success => "success",
            RequestStatus::Error => "error",
            RequestStatus::Cancelled => "cancelled",
        }
    }
}

/// What is known of an error.
#[derive(Debug, Clone)]
pub struct ErrorDetail {
    pub stage: String,
    pub code: String,
    pub message: String,
}

/// The record of a request.
#[derive(Debug, Clone)]
pub struct RequestRecord {
    pub request_id: String,
    /// When the request came, in milliseconds since 1970.
    pub ts_ms: i64,
    pub public_key_id: Option<String>,
    pub client_id: Option<String>,
    pub session_id: Option<String>,
    pub model: String,
    pub upstream_model: Option<String>,
    pub endpoint: String,
    pub pool_id: String,
    pub account_id: Option<String>,
    pub account_label: Option<String>,
    pub status: RequestStatus,
    pub http_status: Option<u16>,
    pub reason: Option<String>,
    pub error_kind: Option<String>,
    pub error_message: Option<String>,
    pub attempts: i32,
    pub is_stream: bool,
    pub latency_ms: i64,
    /// How long the first byte took.
    pub ttfb_ms: Option<i64>,
    pub prompt_tokens: Option<i32>,
    pub completion_tokens: Option<i32>,
    pub cached_tokens: Option<i32>,
    pub cache_creation_tokens: Option<i32>,
    pub cost: Option<FloatBits>,
    pub metering_unit: Option<String>,
    pub metering_usage: Option<FloatBits>,
    pub context_usage_pct: Option<FloatBits>,
    pub has_cache_control: bool,
    pub messages_count: i32,
    pub tools_count: i32,
    pub system_prompt_len: i32,
    pub params_json: Option<String>,
    /// The cache reads that the client was told of.
    pub cache_read_reported: Option<i32>,
    pub error_detail: Option<ErrorDetail>,
    pub request_body: Option<String>,
    pub response_body: Option<String>,
}

/// A record in the making.
pub struct RequestRecordBuilder {
    pub request_id: String,
    pub ts_ms: i64,
    /// When the request came.
    pub started_at: std::time::SystemTime,
    pub endpoint: String,
    pub model: String,
    pub is_stream: bool,
    pub messages_count: i32,
    pub tools_count: i32,
    pub has_cache_control: bool,
    pub system_prompt_len: i32,
    pub public_key_id: Option<String>,
    pub client_id: Option<String>,
    pub session_id: Option<String>,
    pub upstream_model: Option<String>,
    pub account_id: Option<String>,
    pub account_label: Option<String>,
    pub http_status: Option<u16>,
    pub reason: Option<String>,
    pub error_kind: Option<String>,
    pub error_message: Option<String>,
    pub attempts: i32,
    pub ttfb_ms: Option<i64>,
    pub prompt_tokens: Option<i32>,
    pub completion_tokens: Option<i32>,
    pub cached_tokens: Option<i32>,
    pub cache_creation_tokens: Option<i32>,
    pub cost: Option<FloatBits>,
    pub metering_unit: Option<String>,
    pub metering_usage: Option<FloatBits>,
    pub context_usage_pct: Option<FloatBits>,
    pub params_json: Option<String>,
    pub cache_read_reported: Option<i32>,
    pub error_detail: Option<ErrorDetail>,
    pub request_body: Option<String>,
    pub response_body: Option<String>,
}

/// `std::time::SystemTime`, a reading of the clock.
#[verifier::external_type_specification]
#[verifier::external_body]
pub struct ExSystemTime(std::time::SystemTime);

/// `std::time::SystemTimeError`: the clock went back.
#[verifier::external_type_specification]
#[verifier::external_body]
pub struct ExSystemTimeError(std::time::SystemTimeError);

/// `SystemTime::now` reads the clock. What it shows is not known beforehand.
pub assume_specification[ std::time::SystemTime::now ]() -> std::time::SystemTime;

/// The span from one reading of the clock to a later one, `None` where the second one is the
/// earlier.
pub uninterp spec fn span_between(
    earlier: std::time::SystemTime,
    later: std::time::SystemTime,
) -> Option<std::time::Duration>;

/// The whole milliseconds of a span.
pub uninterp spec fn whole_millis(d: std::time::Duration) -> u128;

/// The reading of the clock at the start of 1970.
pub uninterp spec fn is_epoch(t: std::time::SystemTime) -> bool;

/// `SystemTime::duration_since` gives the span between two readings, or an error where the other
/// one is the later.
pub assume_specification[ std::time::SystemTime::duration_since ](
    t: &std::time::SystemTime,
    earlier: std::time::SystemTime,
) -> (r: Result<std::time::Duration, std::time::SystemTimeError>)
    ensures
        match r {
            Ok(d) => span_between(earlier, *t) == Some(d),
            Err(_) => span_between(earlier, *t) is None,
        },
;

/// `SystemTime::elapsed` gives the span since the reading, or an error where the clock went back.
/// What the clock shows then is not known beforehand.
pub assume_specification[ std::time::SystemTime::elapsed ](t: &std::time::SystemTime) -> (r: Result<
    std::time::Duration,
    std::time::SystemTimeError,
>)
    ensures
        exists|now: std::time::SystemTime|
            match r {
                Ok(d) => #[trigger] span_between(*t, now) == Some(d),
                Err(_) => span_between(*t, now) is None,
            },
;

/// `Duration::as_millis` gives the whole milliseconds of a span.
pub assume_specification[ std::time::Duration::as_millis ](d: &std::time::Duration) -> (r: u128)
    ensures
        r == whole_millis(*d),
;

/// `std::time::UNIX_EPOCH` is the reading of the clock at the start of 1970.
#[verifier::external_body]
fn epoch() -> (r: std::time::SystemTime)
    ensures
        is_epoch(r),
{
    std::time::UNIX_EPOCH
}

/// A number of milliseconds as it is recorded: its low 64 bits, and 0 where there is none.
pub open spec fn recorded_millis(millis: Option<u128>) -> i64 {
    match millis {
        Some(n) => n as i64,
        None => 0,
    }
}

/// A number of milliseconds as it is recorded.
pub fn millis_or_zero(millis: Option<u128>) -> (r: i64)
    ensures
        r == recorded_millis(millis),
{
    match millis {
        Some(n) => #[verifier::truncate]
        (n as i64),
        None => 0,
    }
}

/// The milliseconds from one reading of the clock to another as they are recorded, 0 where the
/// second one is the earlier.
pub open spec fn millis_between(earlier: std::time::SystemTime, later: std::time::SystemTime) -> i64 {
    match span_between(earlier, later) {
        Some(d) => recorded_millis(Some(whole_millis(d))),
        None => recorded_millis(None),
    }
}

/// At some reading of the clock, `millis` milliseconds had gone since `start`.
pub open spec fn is_time_since(start: std::time::SystemTime, millis: i64) -> bool {
    exists|now: std::time::SystemTime| millis == #[trigger] millis_between(start, now)
}

/// At some reading of the clock, `millis` milliseconds had gone since the start of 1970.
pub open spec fn is_timestamp(millis: i64) -> bool {
    exists|start: std::time::SystemTime| #[trigger] is_epoch(start) && is_time_since(start, millis)
}

/// The milliseconds since 1970, 0 where the clock is earlier than that.
fn now_ms() -> (r: i64)
    ensures
        is_timestamp(r),
{
    let now = std::time::SystemTime::now();
    let start = epoch();
    let r: i64 = match now.duration_since(start) {
        Ok(d) => millis_or_zero(Some(d.as_millis())),
        Err(_) => millis_or_zero(None),
    };
    proof {
        assert(r == millis_between(start, now));
        assert(is_epoch(start) && is_time_since(start, r));
    }
    r
}

/// The milliseconds since a reading of the clock, 0 where the clock went back.
fn elapsed_ms(start: &std::time::SystemTime) -> (r: i64)
    ensures
        is_time_since(*start, r),
{
    match start.elapsed() {
        Ok(d) => {
            proof {
                let now = choose|now: std::time::SystemTime|
                    #[trigger] span_between(*start, now) == Some(d);
                assert(millis_between(*start, now) == recorded_millis(Some(whole_millis(d))));
            }
            millis_or_zero(Some(d.as_millis()))
        },
        Err(_) => {
            proof {
                let now = choose|now: std::time::SystemTime|
                    #[trigger] span_between(*start, now) is None;
                assert(millis_between(*start, now) == recorded_millis(None));
            }
            millis_or_zero(None)
        },
    }
}

impl RequestRecordBuilder {
    /// Nothing is known yet beyond what the request itself shows.
    pub open spec fn is_fresh(self) -> bool {
        &&& self.public_key_id is None
        &&& self.client_id is None
        &&& self.session_id is None
        &&& self.upstream_model is None
        &&& self.account_id is None
        &&& self.account_label is None
        &&& self.http_status is None
        &&& self.reason is None
        &&& self.error_kind is None
        &&& self.error_message is None
        &&& self.attempts == 1
        &&& self.ttfb_ms is None
        &&& self.prompt_tokens is None
        &&& self.completion_tokens is None
        &&& self.cached_tokens is None
        &&& self.cache_creation_tokens is None
        &&& self.cost is None
        &&& self.metering_unit is None
        &&& self.metering_usage is None
        &&& self.context_usage_pct is None
        &&& self.params_json is None
        &&& self.cache_read_reported is None
        &&& self.error_detail is None
        &&& self.request_body is None
        &&& self.response_body is None
    }

    /// What the request itself shows.
    pub open spec fn describes(
        self,
        endpoint: Seq<char>,
        model: Seq<char>,
        is_stream: bool,
        messages_count: i32,
        tools_count: i32,
        has_cache_control: bool,
        system_prompt_len: i32,
    ) -> bool {
        &&& self.endpoint@ == endpoint
        &&& self.model@ == model
        &&& self.is_stream == is_stream
        &&& self.messages_count == messages_count
        &&& self.tools_count == tools_count
        &&& self.has_cache_control == has_cache_control
        &&& self.system_prompt_len == system_prompt_len
    }

    /// Starts the record of a request with the given identifier and times.
    pub fn begin_at(
        request_id: String,
        ts_ms: i64,
        started_at: std::time::SystemTime,
        endpoint: &str,
        model: &str,
        is_stream: bool,
        messages_count: i32,
        tools_count: i32,
        has_cache_control: bool,
        system_prompt_len: i32,
    ) -> (r: Self)
        ensures
            r.request_id == request_id,
            r.ts_ms == ts_ms,
            r.started_at == started_at,
            r.is_fresh(),
            r.describes(
                endpoint@,
                model@,
                is_stream,
                messages_count,
                tools_count,
                has_cache_control,
                system_prompt_len,
            ),
    {
        RequestRecordBuilder {
            request_id,
            ts_ms,
            started_at,
            endpoint: endpoint.to_string(),
            model: model.to_string(),
            is_stream,
            messages_count,
            tools_count,
            has_cache_control,
            system_prompt_len,
            public_key_id: None,
            client_id: None,
            session_id: None,
            upstream_model: None,
            account_id: None,
            account_label: None,
            http_status: None,
            reason: None,
            error_kind: None,
            error_message: None,
            attempts: 1,
            ttfb_ms: None,
            prompt_tokens: None,
            completion_tokens: None,
            cached_tokens: None,
            cache_creation_tokens: None,
            cost: None,
            metering_unit: None,
            metering_usage: None,
            context_usage_pct: None,
            params_json: None,
            cache_read_reported: None,
            error_detail: None,
            request_body: None,
            response_body: None,
        }
    }

    /// Starts the record of a request that comes now, with a new identifier.
    pub fn begin(
        endpoint: &str,
        model: &str,
        is_stream: bool,
        messages_count: i32,
        tools_count: i32,
        has_cache_control: bool,
        system_prompt_len: i32,
    ) -> (r: Self)
        ensures
            ids::is_uuid_text(r.request_id@),
            is_timestamp(r.ts_ms),
            r.is_fresh(),
            r.describes(
                endpoint@,
                model@,
                is_stream,
                messages_count,
                tools_count,
                has_cache_control,
                system_prompt_len,
            ),
    {
        let request_id = ids::new_uuid();
        let ts_ms: i64 = now_ms();
        let started_at = std::time::SystemTime::now();
        RequestRecordBuilder::begin_at(
            request_id,
            ts_ms,
            started_at,
            endpoint,
            model,
            is_stream,
            messages_count,
            tools_count,
            has_cache_control,
            system_prompt_len,
        )
    }

    /// The identifier of the request.
    pub fn id(&self) -> (r: &str)
        ensures
            r@ == self.request_id@,
    {
        self.request_id.as_str()
    }

    /// The model that was asked for.
    pub fn model(&self) -> (r: &str)
        ensures
            r@ == self.model@,
    {
        self.model.as_str()
    }

    pub fn prompt_tokens(&self) -> (r: Option<i32>)
        ensures
            r == self.prompt_tokens,
    {
        self.prompt_tokens
    }

    pub fn completion_tokens(&self) -> (r: Option<i32>)
        ensures
            r == self.completion_tokens,
    {
        self.completion_tokens
    }

    pub fn metering_usage(&self) -> (r: Option<FloatBits>)
        ensures
            r == self.metering_usage,
    {
        self.metering_usage
    }

    pub fn cached_tokens(&self) -> (r: Option<i32>)
        ensures
            r == self.cached_tokens,
    {
        self.cached_tokens
    }

    /// Records who the client is.
    pub fn set_client_identity(
        &mut self,
        public_key_id: Option<String>,
        client_id: Option<String>,
        session_id: Option<String>,
    )
        ensures
            *final(self) == (RequestRecordBuilder {
                public_key_id,
                client_id,
                session_id,
                ..*old(self)
            }),
    {
        self.public_key_id = public_key_id;
        self.client_id = client_id;
        self.session_id = session_id;
    }

    /// Records the account that served the request.
    pub fn set_account(&mut self, account_id: String, account_label: Option<String>)
        ensures
            *final(self) == (RequestRecordBuilder {
                account_id: Some(account_id),
                account_label,
                ..*old(self)
            }),
    {
        self.account_id = Some(account_id);
        self.account_label = account_label;
    }

    pub fn set_attempts(&mut self, n: i32)
        ensures
            *final(self) == (RequestRecordBuilder { attempts: n, ..*old(self) }),
    {
        self.attempts = n;
    }

    /// Records that the first byte came so many milliseconds after the request, unless a first byte
    /// is recorded already.
    pub fn mark_ttfb_at(&mut self, millis: i64)
        ensures
            *final(self) == (RequestRecordBuilder {
                ttfb_ms: if old(self).ttfb_ms is None {
                    Some(millis)
                } else {
                    old(self).ttfb_ms
                },
                ..*old(self)
            }),
    {
        if self.ttfb_ms.is_none() {
            self.ttfb_ms = Some(millis);
        }
    }

    /// Records that the first byte comes now, unless a first byte is recorded already.
    pub fn mark_ttfb(&mut self)
        ensures
            *final(self) == (RequestRecordBuilder {
                ttfb_ms: final(self).ttfb_ms,
                ..*old(self)
            }),
            match (old(self).ttfb_ms, final(self).ttfb_ms) {
                (Some(first), now) => now == Some(first),
                (None, Some(millis)) => is_time_since(old(self).started_at, millis),
                (None, None) => false,
            },
    {
        if self.ttfb_ms.is_none() {
            let millis: i64 = elapsed_ms(&self.started_at);
            self.mark_ttfb_at(millis);
        }
    }

    /// Records what the answer cost, and in which unit.
    pub fn set_metering(&mut self, unit: Option<String>, usage: FloatBits)
        ensures
            *final(self) == (RequestRecordBuilder {
                metering_unit: unit,
                metering_usage: Some(usage),
                ..*old(self)
            }),
    {
        self.metering_unit = unit;
        self.metering_usage = Some(usage);
    }

    /// Records an error.
    pub fn set_error(&mut self, kind: String, stage: String, code: String, message: String)
        ensures
            *final(self) == (RequestRecordBuilder {
                error_kind: Some(kind),
                error_message: Some(message),
                error_detail: Some(ErrorDetail { stage, code, message }),
                ..*old(self)
            }),
    {
        self.error_kind = Some(kind);
        self.error_message = Some(message.clone());
        self.error_detail = Some(ErrorDetail { stage, code, message });
    }

    pub fn set_upstream_model(&mut self, model: String)
        ensures
            *final(self) == (RequestRecordBuilder { upstream_model: Some(model), ..*old(self) }),
    {
        self.upstream_model = Some(model);
    }

    pub fn set_http_status(&mut self, status: u16)
        ensures
            *final(self) == (RequestRecordBuilder { http_status: Some(status), ..*old(self) }),
    {
        self.http_status = Some(status);
    }

    pub fn set_reason(&mut self, reason: String)
        ensures
            *final(self) == (RequestRecordBuilder { reason: Some(reason), ..*old(self) }),
    {
        self.reason = Some(reason);
    }

    pub fn set_prompt_tokens(&mut self, n: i32)
        ensures
            *final(self) == (RequestRecordBuilder { prompt_tokens: Some(n), ..*old(self) }),
    {
        self.prompt_tokens = Some(n);
    }

    pub fn set_completion_tokens(&mut self, n: i32)
        ensures
            *final(self) == (RequestRecordBuilder { completion_tokens: Some(n), ..*old(self) }),
    {
        self.completion_tokens = Some(n);
    }

    pub fn set_cached_tokens(&mut self, n: i32)
        ensures
            *final(self) == (RequestRecordBuilder { cached_tokens: Some(n), ..*old(self) }),
    {
        self.cached_tokens = Some(n);
    }

    pub fn set_cache_creation_tokens(&mut self, n: i32)
        ensures
            *final(self) == (RequestRecordBuilder { cache_creation_tokens: Some(n), ..*old(self) }),
    {
        self.cache_creation_tokens = Some(n);
    }

    pub fn set_cache_read_reported(&mut self, n: i32)
        ensures
            *final(self) == (RequestRecordBuilder { cache_read_reported: Some(n), ..*old(self) }),
    {
        self.cache_read_reported = Some(n);
    }

    pub fn set_cost(&mut self, c: FloatBits)
        ensures
            *final(self) == (RequestRecordBuilder { cost: Some(c), ..*old(self) }),
    {
        self.cost = Some(c);
    }

    pub fn set_context_usage_pct(&mut self, pct: FloatBits)
        ensures
            *final(self) == (RequestRecordBuilder { context_usage_pct: Some(pct), ..*old(self) }),
    {
        self.context_usage_pct = Some(pct);
    }

    pub fn set_params_json(&mut self, json: String)
        ensures
            *final(self) == (RequestRecordBuilder { params_json: Some(json), ..*old(self) }),
    {
        self.params_json = Some(json);
    }

    pub fn set_request_body(&mut self, body: String)
        ensures
            *final(self) == (RequestRecordBuilder { request_body: Some(body), ..*old(self) }),
    {
        self.request_body = Some(body);
    }

    pub fn set_response_body(&mut self, body: String)
        ensures
            *final(self) == (RequestRecordBuilder { response_body: Some(body), ..*old(self) }),
    {
        self.response_body = Some(body);
    }

    /// `record` holds what was recorded, how the request ended and how long it took.
    pub open spec fn gives(self, status: RequestStatus, latency_ms: i64, record: RequestRecord) -> bool {
        &&& record.pool_id@ == "kiro"@
        &&& record == RequestRecord {
            request_id: self.request_id,
            ts_ms: self.ts_ms,
            public_key_id: self.public_key_id,
            client_id: self.client_id,
            session_id: self.session_id,
            model: self.model,
            upstream_model: self.upstream_model,
            endpoint: self.endpoint,
            pool_id: record.pool_id,
            account_id: self.account_id,
            account_label: self.account_label,
            status,
            http_status: self.http_status,
            reason: self.reason,
            error_kind: self.error_kind,
            error_message: self.error_message,
            attempts: self.attempts,
            is_stream: self.is_stream,
            latency_ms,
            ttfb_ms: self.ttfb_ms,
            prompt_tokens: self.prompt_tokens,
            completion_tokens: self.completion_tokens,
            cached_tokens: self.cached_tokens,
            cache_creation_tokens: self.cache_creation_tokens,
            cost: self.cost,
            metering_unit: self.metering_unit,
            metering_usage: self.metering_usage,
            context_usage_pct: self.context_usage_pct,
            has_cache_control: self.has_cache_control,
            messages_count: self.messages_count,
            tools_count: self.tools_count,
            system_prompt_len: self.system_prompt_len,
            params_json: self.params_json,
            cache_read_reported: self.cache_read_reported,
            error_detail: self.error_detail,
            request_body: self.request_body,
            response_body: self.response_body,
        }
    }

    /// The record of a request that took so many milliseconds.
    pub fn build_after(self, status: RequestStatus, latency_ms: i64) -> (r: RequestRecord)
        ensures
            self.gives(status, latency_ms, r),
    {
        RequestRecord {
            request_id: self.request_id,
            ts_ms: self.ts_ms,
            public_key_id: self.public_key_id,
            client_id: self.client_id,
            session_id: self.session_id,
            model: self.model,
            upstream_model: self.upstream_model,
            endpoint: self.endpoint,
            pool_id: "kiro".to_string(),
            account_id: self.account_id,
            account_label: self.account_label,
            status,
            http_status: self.http_status,
            reason: self.reason,
            error_kind: self.error_kind,
            error_message: self.error_message,
            attempts: self.attempts,
            is_stream: self.is_stream,
            latency_ms,
            ttfb_ms: self.ttfb_ms,
            prompt_tokens: self.prompt_tokens,
            completion_tokens: self.completion_tokens,
            cached_tokens: self.cached_tokens,
            cache_creation_tokens: self.cache_creation_tokens,
            cost: self.cost,
            metering_unit: self.metering_unit,
            metering_usage: self.metering_usage,
            context_usage_pct: self.context_usage_pct,
            has_cache_control: self.has_cache_control,
            messages_count: self.messages_count,
            tools_count: self.tools_count,
            system_prompt_len: self.system_prompt_len,
            params_json: self.params_json,
            cache_read_reported: self.cache_read_reported,
            error_detail: self.error_detail,
            request_body: self.request_body,
            response_body: self.response_body,
        }
    }

    /// The record of a request that ends now.
    pub fn build(self, status: RequestStatus) -> (r: RequestRecord)
        ensures
            self.gives(status, r.latency_ms, r),
            is_time_since(self.started_at, r.latency_ms),
    {
        let latency_ms: i64 = elapsed_ms(&self.started_at);
        self.build_after(status, latency_ms)
    }
}

/// The record of a request holds everything that was recorded of it, each under its own name, and
/// how it ended and how long it took.
pub proof fn records_hold_what_was_recorded(
    b: RequestRecordBuilder,
    status: RequestStatus,
    latency_ms: i64,
    record: RequestRecord,
)
    requires
        b.gives(status, latency_ms, record),
    ensures
        record.request_id == b.request_id,
        record.ts_ms == b.ts_ms,
        record.public_key_id == b.public_key_id,
        record.client_id == b.client_id,
        record.session_id == b.session_id,
        record.model == b.model,
        record.upstream_model == b.upstream_model,
        record.endpoint == b.endpoint,
        record.pool_id@ == "kiro"@,
        record.account_id == b.account_id,
        record.account_label == b.account_label,
        record.status == status,
        record.http_status == b.http_status,
        record.reason == b.reason,
        record.error_kind == b.error_kind,
        record.error_message == b.error_message,
        record.attempts == b.attempts,
        record.is_stream == b.is_stream,
        record.latency_ms == latency_ms,
        record.ttfb_ms == b.ttfb_ms,
        record.prompt_tokens == b.prompt_tokens,
        record.completion_tokens == b.completion_tokens,
        record.cached_tokens == b.cached_tokens,
        record.cache_creation_tokens == b.cache_creation_tokens,
        record.cost == b.cost,
        record.metering_unit == b.metering_unit,
        record.metering_usage == b.metering_usage,
        record.context_usage_pct == b.context_usage_pct,
        record.has_cache_control == b.has_cache_control,
        record.messages_count == b.messages_count,
        record.tools_count == b.tools_count,
        record.system_prompt_len == b.system_prompt_len,
        record.params_json == b.params_json,
        record.cache_read_reported == b.cache_read_reported,
        record.error_detail == b.error_detail,
        record.request_body == b.request_body,
        record.response_body == b.response_body,
{
}

/// The record of a new request says what the request shows, one attempt, and nothing of an answer.
pub proof fn new_records_say_what_the_request_shows(
    b: RequestRecordBuilder,
    endpoint: Seq<char>,
    model: Seq<char>,
    is_stream: bool,
    messages_count: i32,
    tools_count: i32,
    has_cache_control: bool,
    system_prompt_len: i32,
    status: RequestStatus,
    latency_ms: i64,
    record: RequestRecord,
)
    requires
        b.is_fresh(),
        b.describes(
            endpoint,
            model,
            is_stream,
            messages_count,
            tools_count,
            has_cache_control,
            system_prompt_len,
        ),
        b.gives(status, latency_ms, record),
    ensures
        record.endpoint@ == endpoint,
        record.model@ == model,
        record.is_stream == is_stream,
        record.messages_count == messages_count,
        record.tools_count == tools_count,
        record.has_cache_control == has_cache_control,
        record.system_prompt_len == system_prompt_len,
        record.attempts == 1,
        record.public_key_id is None,
        record.account_id is None,
        record.http_status is None,
        record.error_kind is None,
        record.error_message is None,
        record.error_detail is None,
        record.ttfb_ms is None,
        record.prompt_tokens is None,
        record.completion_tokens is None,
        record.cached_tokens is None,
        record.cache_creation_tokens is None,
        record.cost is None,
        record.metering_usage is None,
        record.context_usage_pct is None,
        record.cache_read_reported is None,
{
}

/// A status can be told from its name.
pub proof fn status_names_differ(a: RequestStatus, b: RequestStatus)
    ensures
        a.name() == b.name() ==> a == b,
        RequestStatus::Success.name() == "success"@,
        RequestStatus::Error.name() == "error"@,
        RequestStatus::Cancelled.name() == "cancelled"@,
{
    reveal_strlit("success");
    reveal_strlit("error");
    reveal_strlit("cancelled");
    assert("success"@.len() == 7 && "error"@.len() == 5 && "cancelled"@.len() == 9);
}

/// A time that is recorded is the number of milliseconds that went by, where it fits, and 0 where
/// the clock went back.
pub proof fn recorded_times_are_milliseconds(millis: u128)
    ensures
        millis <= i64::MAX ==> recorded_millis(Some(millis)) == millis,
        recorded_millis(None) == 0,
{
}

} // verus!
