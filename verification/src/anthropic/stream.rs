//! Conversion of a Kiro answer stream into server-sent events.

use vstd::prelude::*;
use vstd::string::*;
use vstd::utf8::*;

use crate::anthropic::signature;
use crate::anthropic::sse;
use crate::anthropic::sse::{ContentBlock, Delta, EventView, SseData, SseEvent};
use crate::anthropic::state_manager;
use crate::anthropic::state_manager::{SseStateManager, SseView};
use crate::anthropic::stream_model;
use crate::anthropic::stream_model::{FailureView, Step, StreamView};
use crate::anthropic::thinking;
use crate::float_bits::FloatBits;
use crate::ids;
use crate::kiro::model::events::{Event, ToolUseEvent};
use crate::text;
use crate::text_map::TextMap;

verus! {

/// The factor by which simulated cache hits are scaled: 1.8.
pub const DEFAULT_CACHE_READ_MULTIPLIER_BITS: u64 = 0x3ffc_cccc_cccc_cccd;

/// The greatest share of the context that is reported as cached: 0.9.
pub const DEFAULT_CACHE_CAP_RATIO_BITS: u64 = 0x3fec_cccc_cccc_cccd;

/// The least share of the context that is reported as cached: 0.
pub const DEFAULT_CACHE_FLOOR_RATIO_BITS: u64 = 0;

/// Why an answer failed.
#[derive(Debug, Clone)]
pub enum StreamFailure {
    /// The service sent an error event.
    UpstreamError(String),
    /// The service sent an exception event.
    UpstreamException(String),
    /// The answer had no content.
    EmptyResponse,
    /// The answer could not be read to its end.
    StreamIo(String),
}

impl View for StreamFailure {
    type V = FailureView;

    open spec fn view(&self) -> FailureView {
        match *self {
            StreamFailure::UpstreamError(m) => FailureView::UpstreamError(m@),
            StreamFailure::UpstreamException(m) => FailureView::UpstreamException(m@),
            StreamFailure::EmptyResponse => FailureView::EmptyResponse,
            StreamFailure::StreamIo(m) => FailureView::StreamIo(m@),
        }
    }
}

impl StreamFailure {
    /// The class under which the failure is logged.
    pub fn error_kind(&self) -> (r: &'static str)
        ensures
            r@ == self@.kind(),
    {
        match self {
            StreamFailure::UpstreamError(_) => "upstream_error",
            StreamFailure::UpstreamException(_) => "upstream_exception",
            StreamFailure::EmptyResponse => "empty_response",
            StreamFailure::StreamIo(_) => "stream_io",
        }
    }

    /// What the client is told.
    pub fn client_message(&self) -> (r: String)
        ensures
            r@ == self@.message(),
    {
        match self {
            StreamFailure::UpstreamError(m) => "upstream error event: ".to_owned().concat(
                m.as_str(),
            ),
            StreamFailure::UpstreamException(m) => "upstream exception: ".to_owned().concat(
                m.as_str(),
            ),
            StreamFailure::EmptyResponse =>
                "上游返回空响应（200 但流中无任何内容事件），可能是生成超时或瞬时限流".to_owned(),
            StreamFailure::StreamIo(m) => "reading upstream stream failed: ".to_owned().concat(
                m.as_str(),
            ),
        }
    }

    fn copy(&self) -> (r: StreamFailure)
        ensures
            r@ == self@,
    {
        match self {
            StreamFailure::UpstreamError(m) => StreamFailure::UpstreamError(m.clone()),
            StreamFailure::UpstreamException(m) => StreamFailure::UpstreamException(m.clone()),
            StreamFailure::EmptyResponse => StreamFailure::EmptyResponse,
            StreamFailure::StreamIo(m) => StreamFailure::StreamIo(m.clone()),
        }
    }
}

/// What a conversion keeps to itself.
pub struct Progress {
    strip_thinking_leading_newline: bool,
    /// What was sent right before the buffer ends with a quote character.
    after_quote: bool,
    reasoning_block_active: bool,
    fake_thinking_text: String,
    native_reasoning_seen: bool,
    reasoning_signature: Option<String>,
    failure: Option<StreamFailure>,
}

pub struct ProgressView {
    pub strip_newline: bool,
    pub after_quote: bool,
    pub reasoning_block_active: bool,
    pub thinking_text: Seq<char>,
    pub native_reasoning_seen: bool,
    pub reasoning_signature: Option<Seq<char>>,
    pub failure: Option<FailureView>,
}

impl View for Progress {
    type V = ProgressView;

    closed spec fn view(&self) -> ProgressView {
        ProgressView {
            strip_newline: self.strip_thinking_leading_newline,
            after_quote: self.after_quote,
            reasoning_block_active: self.reasoning_block_active,
            thinking_text: self.fake_thinking_text@,
            native_reasoning_seen: self.native_reasoning_seen,
            reasoning_signature: state_manager::optional_text(self.reasoning_signature),
            failure: match self.failure {
                Some(f) => Some(f@),
                None => None,
            },
        }
    }
}

/// The conversion of one answer.
pub struct StreamContext {
    pub state_manager: SseStateManager,
    pub model: String,
    pub message_id: String,
    /// The estimate of the input tokens.
    pub input_tokens: i32,
    /// The input tokens that the service reported.
    pub context_input_tokens: Option<i32>,
    pub output_tokens: i32,
    /// The block of each tool call.
    pub tool_block_indices: TextMap<i32>,
    /// The original names of renamed tools.
    pub tool_name_map: TextMap<String>,
    pub thinking_enabled: bool,
    /// Text that is held back until it is clear what it belongs to.
    pub thinking_buffer: String,
    pub in_thinking_block: bool,
    pub thinking_extracted: bool,
    pub thinking_block_index: Option<i32>,
    pub text_block_index: Option<i32>,
    pub cache_read_input_tokens: Option<i32>,
    pub cache_creation_input_tokens: Option<i32>,
    pub metering_usage: Option<FloatBits>,
    pub cache_read_multiplier: FloatBits,
    pub cache_cap_ratio: FloatBits,
    pub cache_floor_ratio: FloatBits,
    /// Hit and total tokens of the cache simulation.
    pub sim_cache: Option<(i32, i32)>,
    pub emitted_cache_read: Option<i32>,
    pub emitted_raw_cache_read: Option<i32>,
    pub emitted_cache_creation: Option<i32>,
    pub progress: Progress,
}

/// An optional number, as an unbounded one.
pub open spec fn optional_int(n: Option<i32>) -> Option<int> {
    match n {
        Some(k) => Some(k as int),
        None => None,
    }
}

impl View for StreamContext {
    type V = StreamView;

    open spec fn view(&self) -> StreamView {
        StreamView {
            sse: self.state_manager@,
            model: self.model@,
            message_id: self.message_id@,
            input_tokens: self.input_tokens as int,
            context_input_tokens: optional_int(self.context_input_tokens),
            output_tokens: self.output_tokens as int,
            tools: self.tool_block_indices@,
            tool_names: self.tool_name_map@,
            thinking_enabled: self.thinking_enabled,
            buffer: self.thinking_buffer@,
            in_thinking_block: self.in_thinking_block,
            thinking_extracted: self.thinking_extracted,
            after_quote: self.progress@.after_quote,
            thinking_block_index: optional_int(self.thinking_block_index),
            text_block_index: optional_int(self.text_block_index),
            strip_newline: self.progress@.strip_newline,
            cache_read_input_tokens: optional_int(self.cache_read_input_tokens),
            cache_creation_input_tokens: optional_int(self.cache_creation_input_tokens),
            metering_usage: match self.metering_usage {
                Some(f) => Some(f.bits),
                None => None,
            },
            cache_read_multiplier: self.cache_read_multiplier.bits,
            cache_cap_ratio: self.cache_cap_ratio.bits,
            cache_floor_ratio: self.cache_floor_ratio.bits,
            sim_cache: match self.sim_cache {
                Some((a, b)) => Some((a as int, b as int)),
                None => None,
            },
            emitted_cache_read: optional_int(self.emitted_cache_read),
            emitted_raw_cache_read: optional_int(self.emitted_raw_cache_read),
            emitted_cache_creation: optional_int(self.emitted_cache_creation),
            reasoning_block_active: self.progress@.reasoning_block_active,
            thinking_text: self.progress@.thinking_text,
            native_reasoning_seen: self.progress@.native_reasoning_seen,
            reasoning_signature: self.progress@.reasoning_signature,
            failure: self.progress@.failure,
        }
    }
}

/// The number of Chinese characters of a text.
fn count_cjk(s: &str) -> (r: usize)
    ensures
        r == stream_model::cjk_count(s@),
        r <= s@.len(),
{
    let mut cjk: usize = 0;
    let total: usize = s.unicode_len();
    for c in it: s.chars()
        invariant
            it.seq() == s@,
            total == s@.len(),
            cjk == stream_model::cjk_count(s@.take(it.index() as int)),
            cjk <= it.index(),
    {
        let ghost i = it.index() as int;
        proof {
            assert(s@.take(i + 1).drop_last() =~= s@.take(i));
        }
        let u: u32 = c as u32;
        if 0x4e00 <= u && u <= 0x9fff {
            cjk = cjk + 1;
        }
    }
    proof {
        assert(s@.take(s@.len() as int) =~= s@);
    }
    cjk
}

/// The estimate of the tokens of a text.
pub fn estimate_tokens(s: &str) -> (r: i32)
    requires
        stream_model::is_countable(s@),
    ensures
        r == stream_model::estimated_tokens(s@),
        r >= 1,
{
    let cjk: usize = count_cjk(s);
    let other: usize = s.unicode_len() - cjk;
    let cjk_tokens: i32 = ((cjk * 2 + 2) / 3) as i32;
    let other_tokens: i32 = ((other + 3) / 4) as i32;
    let sum: i32 = cjk_tokens + other_tokens;
    if sum > 1 {
        sum
    } else {
        1
    }
}

impl StreamContext {
    /// Sends text, in the text block that is open or else in a new one.
    pub fn create_text_delta_events(&mut self, content: &str) -> (r: Vec<SseEvent>)
        requires
            old(self)@.sse.next_block_index < i32::MAX,
        ensures
            (final(self)@, sse::event_views(r@)) == stream_model::text_delta(old(self)@, content@),
    {
        proof {
            reveal(stream_model::text_delta);
        }
        let mut events = sse::no_events();
        if let Some(idx) = self.text_block_index {
            if !self.state_manager.is_block_open_of_type(idx, "text") {
                self.text_block_index = None;
            }
        }
        let text_index: i32 = match self.text_block_index {
            Some(idx) => idx,
            None => {
                let idx: i32 = self.state_manager.next_block_index();
                self.text_block_index = Some(idx);
                let started = self.state_manager.handle_content_block_start(
                    idx,
                    "text",
                    SseData::BlockStart { index: idx, block: ContentBlock::Text },
                );
                sse::append_events(&mut events, started);
                idx
            },
        };
        let data = SseData::BlockDelta {
            index: text_index,
            delta: Delta::Text(content.to_owned()),
        };
        if let Some(event) = self.state_manager.handle_content_block_delta(text_index, data) {
            sse::push_event(&mut events, event);
        }
        proof {
            let model = stream_model::text_delta(old(self)@, content@);
            assert(sse::event_views(events@) =~= model.1);
        }
        events
    }
}

impl StreamContext {
    /// A piece of thinking for block `index`.
    pub fn create_thinking_delta_event(&mut self, index: i32, content: &str) -> (r: SseEvent)
        ensures
            r@ == stream_model::thinking_event(index as int, content@),
            final(self)@ == (StreamView {
                thinking_text: old(self)@.thinking_text + content@,
                ..old(self)@
            }),
    {
        self.progress.fake_thinking_text.append(content);
        SseEvent::new(
            "content_block_delta",
            SseData::BlockDelta { index, delta: Delta::Thinking(content.to_owned()) },
        )
    }

    /// Sends thinking in the current thinking block, where there is one.
    fn thinking_events(&mut self, content: &str) -> (r: Vec<SseEvent>)
        ensures
            (final(self)@, sse::event_views(r@)) == stream_model::thinking_delta(
                old(self)@,
                content@,
            ),
    {
        let mut events = sse::no_events();
        if let Some(index) = self.thinking_block_index {
            let event = self.create_thinking_delta_event(index, content);
            sse::push_event(&mut events, event);
        }
        proof {
            assert(sse::event_views(events@) =~= stream_model::thinking_delta(
                old(self)@,
                content@,
            ).1);
        }
        events
    }

    /// Sends thinking that stands between tags, in a new block where none is open.
    fn tagged_events(&mut self, content: &str) -> (r: Vec<SseEvent>)
        requires
            old(self)@.thinking_block_index is None ==> old(self)@.sse.next_block_index < i32::MAX,
        ensures
            (final(self)@, sse::event_views(r@)) == stream_model::tagged_delta(
                old(self)@,
                content@,
            ),
    {
        proof {
            reveal(stream_model::tagged_delta);
        }
        if content.is_empty() {
            return sse::no_events();
        }
        if self.thinking_block_index.is_some() {
            return self.thinking_events(content);
        }
        let index: i32 = self.state_manager.next_block_index();
        self.thinking_block_index = Some(index);
        let mut events = self.state_manager.handle_content_block_start(
            index,
            "thinking",
            SseData::BlockStart { index, block: ContentBlock::Thinking },
        );
        let sent = self.thinking_events(content);
        sse::append_events(&mut events, sent);
        events
    }

    /// Ends the block of native reasoning that is open.
    pub fn close_reasoning_block_if_open(&mut self) -> (r: Vec<SseEvent>)
        ensures
            (final(self)@, sse::event_views(r@)) == stream_model::close_reasoning(old(self)@),
    {
        let mut events = sse::no_events();
        if !self.progress.reasoning_block_active {
            return events;
        }
        if let Some(index) = self.thinking_block_index {
            let signature = match &self.progress.reasoning_signature {
                Some(s) => s.clone(),
                None => String::new(),
            };
            sse::push_event(
                &mut events,
                SseEvent::new(
                    "content_block_delta",
                    SseData::BlockDelta { index, delta: Delta::Signature(signature) },
                ),
            );
            if let Some(stop) = self.state_manager.handle_content_block_stop(index) {
                sse::push_event(&mut events, stop);
            }
        }
        self.progress.reasoning_block_active = false;
        self.progress.reasoning_signature = None;
        proof {
            assert(sse::event_views(events@) =~= stream_model::close_reasoning(old(self)@).1);
        }
        events
    }

    /// Ends the thinking block `thinking_index` whose thinking stood between tags.
    pub fn close_fake_thinking_block(&mut self, thinking_index: i32) -> (r: Vec<SseEvent>)
        ensures
            ({
                let (sse, stop) = stream_model::stop_block(old(self)@.sse, thinking_index as int);
                &&& final(self)@ == (StreamView { sse, ..old(self)@ })
                &&& sse::event_views(r@) == seq![
                    state_manager::block_delta_event(
                        stream_model::delta_data(
                            thinking_index as int,
                            stream_model::tagged_signature(old(self)@),
                        ),
                    ),
                ] + stop
            }),
    {
        let mut events = sse::no_events();
        let pending = Delta::PendingSignature {
            model: self.model.clone(),
            thinking: self.progress.fake_thinking_text.clone(),
        };
        let delta = match &self.progress.reasoning_signature {
            Some(s) => if s.as_str().is_empty() {
                pending
            } else {
                Delta::Signature(s.clone())
            },
            None => pending,
        };
        let ghost delta_view = delta@;
        sse::push_event(
            &mut events,
            SseEvent::new(
                "content_block_delta",
                SseData::BlockDelta { index: thinking_index, delta },
            ),
        );
        if let Some(stop) = self.state_manager.handle_content_block_stop(thinking_index) {
            sse::push_event(&mut events, stop);
        }
        proof {
            assert(delta_view == stream_model::tagged_signature(old(self)@));
            let stop = stream_model::stop_block(old(self)@.sse, thinking_index as int).1;
            assert(sse::event_views(events@) =~= seq![
                state_manager::block_delta_event(
                    stream_model::delta_data(thinking_index as int, delta_view),
                ),
            ] + stop);
        }
        events
    }

    /// Ends the thinking block, where there is one.
    fn close_tagged_block(&mut self) -> (r: Vec<SseEvent>)
        ensures
            (final(self)@, sse::event_views(r@)) == stream_model::close_tagged(old(self)@),
    {
        proof {
            reveal(stream_model::close_tagged);
        }
        match self.thinking_block_index {
            Some(index) => self.close_fake_thinking_block(index),
            None => sse::no_events(),
        }
    }

    /// Sends the whole buffer as text.
    fn flush_buffer_as_text(&mut self) -> (r: Vec<SseEvent>)
        requires
            old(self)@.sse.next_block_index < i32::MAX,
        ensures
            (final(self)@, sse::event_views(r@)) == stream_model::flush_as_text(old(self)@),
    {
        if self.thinking_buffer.as_str().is_empty() {
            return sse::no_events();
        }
        let buffered = self.thinking_buffer.clone();
        self.thinking_buffer = String::new();
        self.progress.after_quote = false;
        self.create_text_delta_events(buffered.as_str())
    }

    /// Removes the newline with which thinking begins.
    fn strip_newline(&mut self)
        ensures
            final(self)@ == stream_model::stripped(old(self)@),
    {
        if self.progress.strip_thinking_leading_newline && !self.thinking_buffer.as_str().is_empty() {
            self.thinking_buffer = thinking::strip_leading_newline(self.thinking_buffer.as_str());
            self.progress.strip_thinking_leading_newline = false;
        }
    }

    /// How many bytes of the buffer may be sent while the last `keep` may belong to a tag.
    fn safe_length(&self, keep: usize) -> (r: usize)
        ensures
            r == stream_model::safe_length(self@.buffer, keep as int),
            is_char_boundary(text::bytes_of(self@.buffer), r as int),
            r <= text::bytes_of(self@.buffer).len(),
    {
        let len: usize = self.thinking_buffer.as_str().as_bytes().len();
        let target: usize = if len > keep {
            len - keep
        } else {
            0
        };
        thinking::find_char_boundary(self.thinking_buffer.as_str(), target)
    }

    /// Goes on inside thinking.
    fn scan_thinking(&mut self) -> (r: Vec<SseEvent>)
        requires
            old(self)@.sse.next_block_index < i32::MAX,
            old(self)@.thinking_block_index is None ==> old(self)@.sse.next_block_index + 1
                < i32::MAX,
        ensures
            (final(self)@, sse::event_views(r@)) == stream_model::scan_thinking(old(self)@),
    {
        proof {
            reveal(stream_model::scan_thinking);
        }
        self.strip_newline();
        let mut events = sse::no_events();
        if let Some(end) = thinking::find_end_tag_after(
            self.thinking_buffer.as_str(),
            self.progress.after_quote,
        ) {
            proof {
                thinking::lemma_end_tag_boundaries(self.thinking_buffer@, end as int);
            }
            let (content, _tag) = text::split_text(self.thinking_buffer.as_str(), end);
            let (_head, rest) = text::split_text(self.thinking_buffer.as_str(), end + 13);
            proof {
                stream_model::lemma_tagged_delta_frame(self@, content@);
            }
            let sent = self.tagged_events(content.as_str());
            self.in_thinking_block = false;
            self.thinking_extracted = true;
            proof {
                stream_model::lemma_close_tagged_frame(self@);
            }
            let closed = self.close_tagged_block();
            self.thinking_buffer = rest;
            let flushed = self.flush_buffer_as_text();
            let ghost e1 = sse::event_views(sent@);
            let ghost e3 = sse::event_views(closed@);
            let ghost e5 = sse::event_views(flushed@);
            sse::append_events(&mut events, sent);
            sse::append_events(&mut events, closed);
            sse::append_events(&mut events, flushed);
            proof {
                assert(sse::event_views(events@) =~= e1 + e3 + e5);
            }
            events
        } else {
            let safe: usize = self.safe_length(13);
            if safe > 0 {
                let (content, rest) = text::split_text(self.thinking_buffer.as_str(), safe);
                proof {
                    stream_model::lemma_tagged_delta_frame(self@, content@);
                }
                events = self.tagged_events(content.as_str());
                self.thinking_buffer = rest;
                self.progress.after_quote = thinking::text_ends_in_quote(content.as_str());
            }
            events
        }
    }

    /// Goes on before any thinking.
    fn scan_text(&mut self) -> (r: Vec<SseEvent>)
        requires
            old(self)@.sse.next_block_index + 2 < i32::MAX,
        ensures
            (final(self)@, sse::event_views(r@)) == stream_model::scan_text(old(self)@),
    {
        proof {
            reveal(stream_model::scan_text);
        }
        let mut events = sse::no_events();
        if let Some(start) = thinking::find_start_tag_after(
            self.thinking_buffer.as_str(),
            self.progress.after_quote,
        ) {
            proof {
                thinking::lemma_start_tag_boundaries(self.thinking_buffer@, start as int);
            }
            let (before, _tag) = text::split_text(self.thinking_buffer.as_str(), start);
            let (_head, rest) = text::split_text(self.thinking_buffer.as_str(), start + 10);
            if !text::text_is_blank(before.as_str()) {
                proof {
                    stream_model::lemma_text_delta_frame(self@, before@);
                }
                events = self.create_text_delta_events(before.as_str());
            }
            let ghost e1 = sse::event_views(events@);
            self.in_thinking_block = true;
            self.progress.strip_thinking_leading_newline = true;
            self.thinking_buffer = rest;
            self.progress.after_quote = false;
            let index: i32 = self.state_manager.next_block_index();
            self.thinking_block_index = Some(index);
            let started = self.state_manager.handle_content_block_start(
                index,
                "thinking",
                SseData::BlockStart { index, block: ContentBlock::Thinking },
            );
            let ghost e2 = sse::event_views(started@);
            sse::append_events(&mut events, started);
            let scanned = self.scan_thinking();
            let ghost e3 = sse::event_views(scanned@);
            sse::append_events(&mut events, scanned);
            proof {
                assert(sse::event_views(events@) =~= e1 + e2 + e3);
            }
        } else {
            let safe: usize = self.safe_length(10);
            if safe > 0 {
                let (content, rest) = text::split_text(self.thinking_buffer.as_str(), safe);
                if !text::text_is_blank(content.as_str()) {
                    events = self.create_text_delta_events(content.as_str());
                    self.thinking_buffer = rest;
                    self.progress.after_quote = thinking::text_ends_in_quote(content.as_str());
                }
            }
        }
        events
    }

    /// Takes text in which thinking may stand between tags.
    pub fn process_content_with_thinking(&mut self, content: &str) -> (r: Vec<SseEvent>)
        requires
            old(self)@.sse.next_block_index + 2 < i32::MAX,
        ensures
            (final(self)@, sse::event_views(r@)) == stream_model::content_with_thinking(
                old(self)@,
                content@,
            ),
    {
        self.thinking_buffer.append(content);
        if !self.in_thinking_block && !self.thinking_extracted {
            self.scan_text()
        } else if self.in_thinking_block {
            self.scan_thinking()
        } else {
            self.flush_buffer_as_text()
        }
    }

    /// Takes text of the answer.
    pub fn process_assistant_response(&mut self, content: &str) -> (r: Vec<SseEvent>)
        requires
            stream_model::is_countable(content@),
            old(self)@.sse.next_block_index + 2 < i32::MAX,
            old(self)@.output_tokens + stream_model::estimated_tokens(content@) <= i32::MAX,
        ensures
            (final(self)@, sse::event_views(r@)) == stream_model::assistant_response(
                old(self)@,
                content@,
            ),
    {
        if content.is_empty() {
            return sse::no_events();
        }
        self.output_tokens = self.output_tokens + estimate_tokens(content);
        let mut events = self.close_reasoning_block_if_open();
        let more = if self.thinking_enabled && !self.progress.native_reasoning_seen {
            self.process_content_with_thinking(content)
        } else {
            self.create_text_delta_events(content)
        };
        sse::append_events(&mut events, more);
        events
    }
}

/// Native reasoning that is neither empty nor dropped.
pub open spec fn takes_reasoning(st: StreamView, s: Seq<char>) -> bool {
    s.len() > 0 && st.thinking_enabled && (st.text_block_index is None || st.reasoning_block_active)
}

/// The token counts of the event do not leave the range of their type.
pub open spec fn event_fits(st: StreamView, event: Event) -> bool {
    match event {
        Event::AssistantResponse { content } => {
            &&& stream_model::is_countable(content@)
            &&& st.sse.next_block_index + 2 < i32::MAX
            &&& st.output_tokens + stream_model::estimated_tokens(content@) <= i32::MAX
        },
        Event::ReasoningContent(r) => takes_reasoning(st, r.text@) ==> {
            &&& stream_model::is_countable(r.text@)
            &&& st.sse.next_block_index < i32::MAX
            &&& st.output_tokens + stream_model::estimated_tokens(r.text@) <= i32::MAX
        },
        Event::ToolUse(t) => tool_use_fits(st, t),
        Event::TokenUsage(t) => i64::MIN <= total_input(
            t.uncached_input_tokens as int,
            t.cache_read_input_tokens,
        ) <= i64::MAX,
        _ => true,
    }
}

pub open spec fn tool_use_fits(st: StreamView, t: ToolUseEvent) -> bool {
    let len = text::bytes_of(t.input@).len() as int;
    &&& st.sse.next_block_index + 2 < i32::MAX
    &&& t.input@.len() > 0 ==> {
        &&& (len as i32) + 3 <= i32::MAX
        &&& i32::MIN <= st.output_tokens + stream_model::input_tokens_of(len) <= i32::MAX
    }
}

/// All input tokens, those that the cache served included in them.
pub open spec fn total_input(uncached: int, cache_read: Option<i64>) -> int {
    match cache_read {
        Some(n) => uncached + n,
        None => uncached,
    }
}

/// What an event of the service does.
pub open spec fn event_step(st: StreamView, event: Event) -> Step {
    match event {
        Event::AssistantResponse { content } => stream_model::assistant_response(st, content@),
        Event::ReasoningContent(r) => stream_model::reasoning_content(
            st,
            r.text@,
            state_manager::optional_text(r.signature),
        ),
        Event::ToolUse(t) => stream_model::tool_use(
            st,
            t.name@,
            t.tool_use_id@,
            t.input@,
            t.stop,
        ),
        Event::ContextUsage(c) => (
            StreamView {
                context_input_tokens: Some(c.input_tokens as int),
                sse: if c.is_full {
                    SseView { stop_reason: Some("model_context_window_exceeded"@), ..st.sse }
                } else {
                    st.sse
                },
                ..st
            },
            Seq::empty(),
        ),
        Event::TokenUsage(t) => {
            let total = total_input(t.uncached_input_tokens as int, t.cache_read_input_tokens);
            (
                StreamView {
                    cache_read_input_tokens: match t.cache_read_input_tokens {
                        Some(n) => Some((n as i32) as int),
                        None => st.cache_read_input_tokens,
                    },
                    cache_creation_input_tokens: match t.cache_write_input_tokens {
                        Some(n) => Some((n as i32) as int),
                        None => st.cache_creation_input_tokens,
                    },
                    context_input_tokens: if total > 0 {
                        Some((total as i32) as int)
                    } else {
                        st.context_input_tokens
                    },
                    ..st
                },
                Seq::empty(),
            )
        },
        Event::Metering(m) => (
            StreamView { metering_usage: Some(m.usage.bits), ..st },
            Seq::empty(),
        ),
        Event::Error { error_code, error_message } => (
            stream_model::with_failure(
                st,
                FailureView::UpstreamError(error_code@ + " - "@ + error_message@),
            ),
            Seq::empty(),
        ),
        Event::Exception { exception_type, message } => (
            if exception_type@ == "ContentLengthExceededException"@ {
                StreamView { sse: SseView { stop_reason: Some("max_tokens"@), ..st.sse }, ..st }
            } else {
                stream_model::with_failure(
                    st,
                    FailureView::UpstreamException(exception_type@ + " - "@ + message@),
                )
            },
            Seq::empty(),
        ),
        Event::Other => (st, Seq::empty()),
    }
}

/// Two texts with a dash between them.
fn dashed(a: &str, b: &str) -> (r: String)
    ensures
        r@ == a@ + " - "@ + b@,
{
    let mut s = a.to_owned();
    s.append(" - ");
    s.append(b);
    s
}

/// The quotient of a division by four that rounds toward zero.
fn quarter(n: i32) -> (r: i32)
    requires
        n > i32::MIN,
    ensures
        r == stream_model::quarter(n as int),
{
    if n >= 0 {
        n / 4
    } else {
        -((-n) / 4)
    }
}

impl StreamContext {
    /// Takes native reasoning.
    pub fn process_reasoning_content(
        &mut self,
        content: &str,
        signature: &Option<String>,
    ) -> (r: Vec<SseEvent>)
        requires
            takes_reasoning(old(self)@, content@) ==> {
                &&& stream_model::is_countable(content@)
                &&& old(self)@.sse.next_block_index < i32::MAX
                &&& old(self)@.output_tokens + stream_model::estimated_tokens(content@) <= i32::MAX
            },
        ensures
            (final(self)@, sse::event_views(r@)) == stream_model::reasoning_content(
                old(self)@,
                content@,
                state_manager::optional_text(*signature),
            ),
    {
        self.keep_signature(signature);
        if content.is_empty() || !self.thinking_enabled || (self.text_block_index.is_some()
            && !self.progress.reasoning_block_active) {
            return sse::no_events();
        }
        self.output_tokens = self.output_tokens + estimate_tokens(content);
        proof {
            stream_model::lemma_turn_to_native_frame(self@);
        }
        let mut events = self.turn_to_native();
        let opened = self.open_reasoning();
        let sent = self.thinking_events(content);
        sse::append_events(&mut events, opened);
        sse::append_events(&mut events, sent);
        events
    }

    /// Keeps a signature that came with the answer, with the name of the model in it.
    fn keep_signature(&mut self, signature: &Option<String>)
        ensures
            final(self)@ == (StreamView {
                reasoning_signature: stream_model::kept_signature(
                    old(self)@,
                    state_manager::optional_text(*signature),
                ),
                ..old(self)@
            }),
    {
        if let Some(sig) = signature {
            if !sig.as_str().is_empty() {
                let kept = match signature::rewrite_model_in_signature(
                    sig.as_str(),
                    self.model.as_str(),
                ) {
                    Some(renamed) => renamed,
                    None => sig.clone(),
                };
                self.progress.reasoning_signature = Some(kept);
            }
        }
    }

    /// Begins a block of native reasoning, unless one is open.
    fn open_reasoning(&mut self) -> (r: Vec<SseEvent>)
        requires
            old(self)@.sse.next_block_index < i32::MAX,
        ensures
            (final(self)@, sse::event_views(r@)) == stream_model::open_reasoning(old(self)@),
    {
        proof {
            reveal(stream_model::open_reasoning);
        }
        if self.progress.reasoning_block_active {
            return sse::no_events();
        }
        let index: i32 = self.state_manager.next_block_index();
        self.thinking_block_index = Some(index);
        self.progress.reasoning_block_active = true;
        self.state_manager.handle_content_block_start(
            index,
            "thinking",
            SseData::BlockStart { index, block: ContentBlock::Thinking },
        )
    }

    /// Leaves the tags for native reasoning.
    fn turn_to_native(&mut self) -> (r: Vec<SseEvent>)
        ensures
            (final(self)@, sse::event_views(r@)) == stream_model::turn_to_native(old(self)@),
    {
        proof {
            reveal(stream_model::turn_to_native);
        }
        if self.progress.native_reasoning_seen {
            return sse::no_events();
        }
        let open: bool = self.in_thinking_block;
        let signature = self.progress.reasoning_signature.take();
        self.in_thinking_block = false;
        self.thinking_extracted = false;
        let mut events = sse::no_events();
        if open {
            proof {
                stream_model::lemma_close_tagged_frame(self@);
            }
            events = self.close_tagged_block();
        }
        self.progress.reasoning_signature = signature;
        self.progress.native_reasoning_seen = true;
        self.thinking_buffer = String::new();
        self.progress.after_quote = false;
        events
    }

    /// Ends thinking between tags. A closing tag that ends the buffer is not shown.
    fn end_thinking(&mut self) -> (r: Vec<SseEvent>)
        requires
            old(self)@.sse.next_block_index < i32::MAX,
        ensures
            (final(self)@, sse::event_views(r@)) == stream_model::end_thinking(old(self)@),
    {
        proof {
            reveal(stream_model::end_thinking);
        }
        let buffered = self.thinking_buffer.clone();
        let content = match thinking::find_trailing_end_tag_after(
            buffered.as_str(),
            self.progress.after_quote,
        ) {
            Some(end) => {
                proof {
                    thinking::lemma_end_tag_boundaries(buffered@, end as int);
                }
                text::split_text(buffered.as_str(), end).0
            },
            None => buffered,
        };
        proof {
            stream_model::lemma_tagged_delta_frame(self@, content@);
        }
        let mut events = self.tagged_events(content.as_str());
        self.in_thinking_block = false;
        self.thinking_extracted = true;
        proof {
            stream_model::lemma_close_tagged_frame(self@);
        }
        let closed = self.close_tagged_block();
        sse::append_events(&mut events, closed);
        self.thinking_buffer = String::new();
        events
    }

    /// Interrupts thinking between tags.
    fn pause_thinking(&mut self) -> (r: Vec<SseEvent>)
        requires
            old(self)@.sse.next_block_index < i32::MAX,
        ensures
            (final(self)@, sse::event_views(r@)) == stream_model::pause_thinking(old(self)@),
    {
        proof {
            reveal(stream_model::pause_thinking);
        }
        self.strip_newline();
        let at: usize = thinking::find_begun_tag(self.thinking_buffer.as_str());
        let (content, held) = text::split_text(self.thinking_buffer.as_str(), at);
        proof {
            stream_model::lemma_tagged_delta_frame(self@, content@);
        }
        let mut events = self.tagged_events(content.as_str());
        proof {
            stream_model::lemma_close_tagged_frame(self@);
        }
        let closed = self.close_tagged_block();
        sse::append_events(&mut events, closed);
        self.thinking_block_index = None;
        self.thinking_buffer = held;
        if !content.as_str().is_empty() {
            self.progress.after_quote = thinking::text_ends_in_quote(content.as_str());
        }
        events
    }

    /// Makes thinking between tags give way to a tool call.
    fn yield_thinking(&mut self) -> (r: Vec<SseEvent>)
        requires
            old(self)@.sse.next_block_index < i32::MAX,
        ensures
            (final(self)@, sse::event_views(r@)) == stream_model::yield_thinking(old(self)@),
    {
        if thinking::find_trailing_end_tag_after(
            self.thinking_buffer.as_str(),
            self.progress.after_quote,
        ).is_some() {
            self.end_thinking()
        } else {
            self.pause_thinking()
        }
    }

    /// Does what has to be done before the block of a tool call. The block of thinking ends before
    /// it.
    fn prepare_for_tool(&mut self) -> (r: Vec<SseEvent>)
        requires
            old(self)@.sse.next_block_index + 1 < i32::MAX,
        ensures
            (final(self)@, sse::event_views(r@)) == stream_model::before_tool(old(self)@),
    {
        let mut events = self.close_reasoning_block_if_open();
        let ghost e1 = sse::event_views(events@);
        self.state_manager.set_has_tool_use(true);
        let mut ended = sse::no_events();
        if self.thinking_enabled && self.in_thinking_block {
            proof {
                stream_model::lemma_yield_thinking_frame(self@);
            }
            ended = self.yield_thinking();
        }
        let ghost e3 = sse::event_views(ended@);
        sse::append_events(&mut events, ended);
        let mut flushed = sse::no_events();
        if self.thinking_enabled && !self.in_thinking_block && !self.thinking_extracted {
            flushed = self.flush_buffer_as_text();
        }
        let ghost e4 = sse::event_views(flushed@);
        sse::append_events(&mut events, flushed);
        proof {
            assert(sse::event_views(events@) =~= e1 + e3 + e4);
        }
        events
    }

    /// Starts the block of a tool call, or finds the one that it has.
    fn start_tool_block(&mut self, name: &str, id: &str) -> (r: (Vec<SseEvent>, i32))
        requires
            old(self)@.sse.next_block_index < i32::MAX,
        ensures
            (final(self)@, sse::event_views(r.0@), r.1 as int) == stream_model::tool_block(
                old(self)@,
                name@,
                id@,
            ),
    {
        let known: Option<i32> = match self.tool_block_indices.get(id) {
            Some(index) => Some(*index),
            None => None,
        };
        let index: i32 = match known {
            Some(index) => index,
            None => {
                let index: i32 = self.state_manager.next_block_index();
                self.tool_block_indices.insert(id.to_owned(), index);
                index
            },
        };
        let shown = match self.tool_name_map.get(name) {
            Some(original) => original.clone(),
            None => name.to_owned(),
        };
        let started = self.state_manager.handle_content_block_start(
            index,
            "tool_use",
            SseData::BlockStart {
                index,
                block: ContentBlock::ToolUse { id: id.to_owned(), name: shown },
            },
        );
        (started, index)
    }

    /// Sends a piece of the arguments of a tool call.
    fn send_tool_input(&mut self, index: i32, input: &str) -> (r: Vec<SseEvent>)
        requires
            input@.len() > 0 ==> {
                let len = text::bytes_of(input@).len() as int;
                &&& (len as i32) + 3 <= i32::MAX
                &&& i32::MIN <= old(self)@.output_tokens + stream_model::input_tokens_of(len)
                    <= i32::MAX
            },
        ensures
            (final(self)@, sse::event_views(r@)) == stream_model::tool_input(
                old(self)@,
                index as int,
                input@,
            ),
    {
        let mut events = sse::no_events();
        if input.is_empty() {
            return events;
        }
        let len: usize = input.as_bytes().len();
        let short: i32 =
            #[verifier::truncate]
            (len as i32);
        self.output_tokens = self.output_tokens + quarter(short + 3);
        let data = SseData::BlockDelta { index, delta: Delta::InputJson(input.to_owned()) };
        if let Some(event) = self.state_manager.handle_content_block_delta(index, data) {
            sse::push_event(&mut events, event);
        }
        proof {
            assert(sse::event_views(events@) =~= stream_model::tool_input(
                old(self)@,
                index as int,
                input@,
            ).1);
        }
        events
    }

    /// Stops the block of a tool call that is complete.
    fn stop_tool_block(&mut self, index: i32, stop: bool) -> (r: Vec<SseEvent>)
        ensures
            (final(self)@, sse::event_views(r@)) == stream_model::tool_stop(
                old(self)@,
                index as int,
                stop,
            ),
    {
        let mut events = sse::no_events();
        if stop {
            if let Some(event) = self.state_manager.handle_content_block_stop(index) {
                sse::push_event(&mut events, event);
            }
        }
        proof {
            assert(sse::event_views(events@) =~= stream_model::tool_stop(
                old(self)@,
                index as int,
                stop,
            ).1);
        }
        events
    }

    /// Takes a piece of a tool call.
    pub fn process_tool_use(&mut self, tool_use: &ToolUseEvent) -> (r: Vec<SseEvent>)
        requires
            tool_use_fits(old(self)@, *tool_use),
        ensures
            (final(self)@, sse::event_views(r@)) == stream_model::tool_use(
                old(self)@,
                tool_use.name@,
                tool_use.tool_use_id@,
                tool_use.input@,
                tool_use.stop,
            ),
    {
        proof {
            stream_model::lemma_before_tool_bounds(self@);
        }
        let mut events = self.prepare_for_tool();
        let (started, index) = self.start_tool_block(
            tool_use.name.as_str(),
            tool_use.tool_use_id.as_str(),
        );
        sse::append_events(&mut events, started);
        let sent = self.send_tool_input(index, tool_use.input.as_str());
        sse::append_events(&mut events, sent);
        let stopped = self.stop_tool_block(index, tool_use.stop);
        sse::append_events(&mut events, stopped);
        events
    }
}

/// What the reported cache read is computed from.
#[derive(Debug, Clone, Copy)]
pub struct CacheReport {
    /// The size of the context, of which a share is reported.
    pub report_total: i32,
    pub hit_tokens: i32,
    pub sim_total: i32,
    pub multiplier: FloatBits,
    pub cap_ratio: FloatBits,
    pub floor_ratio: FloatBits,
}

/// A reported cache read is no more than the context.
pub open spec fn is_cache_read(st: StreamView, reported: int) -> bool {
    0 <= reported && (reported == 0 || reported <= stream_model::context_size(st))
}

impl StreamContext {
    /// A conversion with the message identifier that is made from the UUID `uuid`.
    pub fn with_uuid(
        model: &str,
        input_tokens: i32,
        thinking_enabled: bool,
        tool_name_map: TextMap<String>,
        uuid: &str,
    ) -> (r: Self)
        ensures
            r@ == stream_model::new_stream(
                model@,
                input_tokens as int,
                thinking_enabled,
                tool_name_map@,
                ids::message_id_model(uuid@),
            ),
    {
        StreamContext {
            state_manager: SseStateManager::new(),
            model: model.to_owned(),
            message_id: ids::message_id(uuid),
            input_tokens,
            context_input_tokens: None,
            output_tokens: 0,
            tool_block_indices: TextMap::new(),
            tool_name_map,
            thinking_enabled,
            thinking_buffer: String::new(),
            in_thinking_block: false,
            thinking_extracted: false,
            thinking_block_index: None,
            text_block_index: None,
            cache_read_input_tokens: None,
            cache_creation_input_tokens: None,
            metering_usage: None,
            cache_read_multiplier: FloatBits { bits: DEFAULT_CACHE_READ_MULTIPLIER_BITS },
            cache_cap_ratio: FloatBits { bits: DEFAULT_CACHE_CAP_RATIO_BITS },
            cache_floor_ratio: FloatBits { bits: DEFAULT_CACHE_FLOOR_RATIO_BITS },
            sim_cache: None,
            emitted_cache_read: None,
            emitted_raw_cache_read: None,
            emitted_cache_creation: None,
            progress: Progress {
                strip_thinking_leading_newline: false,
                after_quote: false,
                reasoning_block_active: false,
                fake_thinking_text: String::new(),
                native_reasoning_seen: false,
                reasoning_signature: None,
                failure: None,
            },
        }
    }

    /// A conversion with a random message identifier.
    pub fn new_with_thinking(
        model: &str,
        input_tokens: i32,
        thinking_enabled: bool,
        tool_name_map: TextMap<String>,
    ) -> (r: Self)
        ensures
            exists|uuid: Seq<char>|
                #![trigger ids::message_id_model(uuid)]
                ids::is_uuid_text(uuid) && r@ == stream_model::new_stream(
                    model@,
                    input_tokens as int,
                    thinking_enabled,
                    tool_name_map@,
                    ids::message_id_model(uuid),
                ),
    {
        let uuid = ids::new_uuid();
        StreamContext::with_uuid(
            model,
            input_tokens,
            thinking_enabled,
            tool_name_map,
            uuid.as_str(),
        )
    }

    /// Sets the factor by which cache hits are scaled.
    pub fn set_cache_read_multiplier(&mut self, m: FloatBits)
        ensures
            final(self)@ == (StreamView { cache_read_multiplier: m.bits, ..old(self)@ }),
    {
        self.cache_read_multiplier = m;
    }

    /// Sets the greatest share of the context that is reported as cached.
    pub fn set_cache_cap_ratio(&mut self, ratio: FloatBits)
        ensures
            final(self)@ == (StreamView { cache_cap_ratio: ratio.bits, ..old(self)@ }),
    {
        self.cache_cap_ratio = ratio;
    }

    /// Sets the least share of the context that is reported as cached.
    pub fn set_cache_floor_ratio(&mut self, ratio: FloatBits)
        ensures
            final(self)@ == (StreamView { cache_floor_ratio: ratio.bits, ..old(self)@ }),
    {
        self.cache_floor_ratio = ratio;
    }

    /// Sets hit and total tokens of the cache simulation.
    pub fn set_sim_cache(&mut self, v: Option<(i32, i32)>)
        ensures
            final(self)@ == (StreamView {
                sim_cache: match v {
                    Some((hit, total)) => Some((hit as int, total as int)),
                    None => None,
                },
                ..old(self)@
            }),
    {
        self.sim_cache = v;
    }

    /// The data of `message_start`.
    pub fn create_message_start_event(&self) -> (r: SseData)
        ensures
            r@ == (sse::DataView::MessageStart {
                id: self@.message_id,
                model: self@.model,
                input_tokens: self@.input_tokens,
            }),
    {
        SseData::MessageStart {
            id: self.message_id.clone(),
            model: self.model.clone(),
            input_tokens: self.input_tokens,
        }
    }

    /// Whether something of substance came.
    pub fn produced_any_content(&self) -> (r: bool)
        ensures
            r == stream_model::has_content(self@),
    {
        self.output_tokens > 0 || !self.tool_block_indices.is_empty() || self.progress.native_reasoning_seen
    }

    /// Records a failure; the first one counts.
    pub fn mark_failure(&mut self, failure: StreamFailure)
        ensures
            final(self)@ == stream_model::with_failure(old(self)@, failure@),
    {
        if self.progress.failure.is_none() {
            self.progress.failure = Some(failure);
        }
    }

    /// The class of the failure.
    pub fn failure_kind(&self) -> (r: Option<&'static str>)
        ensures
            match (r, self@.failure) {
                (Some(kind), Some(f)) => kind@ == f.kind(),
                (None, None) => true,
                _ => false,
            },
    {
        match &self.progress.failure {
            Some(f) => Some(f.error_kind()),
            None => None,
        }
    }

    /// What the client is told of the failure.
    pub fn failure_message(&self) -> (r: Option<String>)
        ensures
            match (r, self@.failure) {
                (Some(message), Some(f)) => message@ == f.message(),
                (None, None) => true,
                _ => false,
            },
    {
        match &self.progress.failure {
            Some(f) => Some(f.client_message()),
            None => None,
        }
    }

    /// The events that begin an answer.
    pub fn generate_initial_events(&mut self) -> (r: Vec<SseEvent>)
        requires
            old(self)@.sse.next_block_index < i32::MAX,
        ensures
            (final(self)@, sse::event_views(r@)) == stream_model::initial_events(old(self)@),
    {
        let mut events = sse::no_events();
        let data = self.create_message_start_event();
        if let Some(event) = self.state_manager.handle_message_start(data) {
            sse::push_event(&mut events, event);
        }
        proof {
            let e1 = if old(self)@.sse.message_started {
                Seq::<EventView>::empty()
            } else {
                seq![EventView { name: "message_start"@, data: data@ }]
            };
            assert(sse::event_views(events@) =~= e1);
        }
        if self.thinking_enabled {
            return events;
        }
        let index: i32 = self.state_manager.next_block_index();
        self.text_block_index = Some(index);
        let started = self.state_manager.handle_content_block_start(
            index,
            "text",
            SseData::BlockStart { index, block: ContentBlock::Text },
        );
        sse::append_events(&mut events, started);
        events
    }

    /// Takes an event of the service.
    pub fn process_kiro_event(&mut self, event: &Event) -> (r: Vec<SseEvent>)
        requires
            event_fits(old(self)@, *event),
        ensures
            (final(self)@, sse::event_views(r@)) == event_step(old(self)@, *event),
    {
        match event {
            Event::AssistantResponse { content } => self.process_assistant_response(
                content.as_str(),
            ),
            Event::ReasoningContent(r) => self.process_reasoning_content(
                r.text.as_str(),
                &r.signature,
            ),
            Event::ToolUse(t) => self.process_tool_use(t),
            Event::ContextUsage(c) => {
                self.context_input_tokens = Some(c.input_tokens);
                if c.is_full {
                    self.state_manager.set_stop_reason("model_context_window_exceeded");
                }
                sse::no_events()
            },
            Event::TokenUsage(t) => {
                let mut total: i64 = t.uncached_input_tokens;
                if let Some(n) = t.cache_read_input_tokens {
                    total = total + n;
                    let short: i32 =
                        #[verifier::truncate]
                        (n as i32);
                    self.cache_read_input_tokens = Some(short);
                }
                if let Some(n) = t.cache_write_input_tokens {
                    let short: i32 =
                        #[verifier::truncate]
                        (n as i32);
                    self.cache_creation_input_tokens = Some(short);
                }
                if total > 0 {
                    let short: i32 =
                        #[verifier::truncate]
                        (total as i32);
                    self.context_input_tokens = Some(short);
                }
                sse::no_events()
            },
            Event::Metering(m) => {
                self.metering_usage = Some(m.usage);
                sse::no_events()
            },
            Event::Error { error_code, error_message } => {
                self.mark_failure(
                    StreamFailure::UpstreamError(
                        dashed(error_code.as_str(), error_message.as_str()),
                    ),
                );
                sse::no_events()
            },
            Event::Exception { exception_type, message } => {
                if text::same_text(exception_type.as_str(), "ContentLengthExceededException") {
                    self.state_manager.set_stop_reason("max_tokens");
                } else {
                    self.mark_failure(
                        StreamFailure::UpstreamException(
                            dashed(exception_type.as_str(), message.as_str()),
                        ),
                    );
                }
                sse::no_events()
            },
            Event::Other => sse::no_events(),
        }
    }

    /// The block index that is handed out next.
    pub fn free_block_index(&self) -> (r: i32)
        ensures
            r == self@.sse.next_block_index,
    {
        self.state_manager.free_block_index()
    }

    /// Whether the tokens of a text can be counted.
    fn can_count(&self, s: &str) -> (r: bool)
        ensures
            r == (stream_model::is_countable(s@) && self@.output_tokens
                + stream_model::estimated_tokens(s@) <= i32::MAX),
    {
        let cjk: usize = count_cjk(s);
        let other: usize = s.unicode_len() - cjk;
        if cjk > 1_073_741_822 || other > 2_147_483_644 {
            return false;
        }
        self.output_tokens as i64 + estimate_tokens(s) as i64 <= i32::MAX as i64
    }

    /// Whether a piece of a tool call can be counted.
    fn can_count_tool(&self, t: &ToolUseEvent) -> (r: bool)
        ensures
            r == tool_use_fits(self@, *t),
    {
        if self.state_manager.free_block_index() >= i32::MAX - 2 {
            return false;
        }
        if t.input.as_str().is_empty() {
            return true;
        }
        let len: i32 = #[verifier::truncate]
        (t.input.as_str().as_bytes().len() as i32);
        if len > i32::MAX - 3 {
            return false;
        }
        let padded: i64 = len as i64 + 3;
        let tokens: i64 = if padded >= 0 {
            padded / 4
        } else {
            -((-padded) / 4)
        };
        let sum: i64 = self.output_tokens as i64 + tokens;
        i32::MIN as i64 <= sum && sum <= i32::MAX as i64
    }

    /// Whether no count leaves the range of its type with this event.
    pub fn can_take(&self, event: &Event) -> (r: bool)
        ensures
            r == event_fits(self@, *event),
    {
        let index: i32 = self.state_manager.free_block_index();
        match event {
            Event::AssistantResponse { content } => index < i32::MAX - 2 && self.can_count(
                content.as_str(),
            ),
            Event::ReasoningContent(reasoning) => {
                let taken: bool = !reasoning.text.as_str().is_empty() && self.thinking_enabled && (
                self.text_block_index.is_none() || self.progress.reasoning_block_active);
                !taken || (index < i32::MAX && self.can_count(reasoning.text.as_str()))
            },
            Event::ToolUse(t) => self.can_count_tool(t),
            Event::TokenUsage(t) => match t.cache_read_input_tokens {
                Some(n) => t.uncached_input_tokens.checked_add(n).is_some(),
                None => true,
            },
            _ => true,
        }
    }

    /// The input tokens that the service reported.
    pub fn reported_input_tokens(&self) -> (r: Option<i32>)
        ensures
            optional_int(r) == self@.context_input_tokens,
    {
        self.context_input_tokens
    }

    /// What the reported cache read of this answer is computed from.
    pub fn cache_report(&self) -> (r: CacheReport)
        ensures
            r.report_total == stream_model::context_size(self@),
            r.hit_tokens == stream_model::simulated_hit(self@),
            r.sim_total == (match self@.sim_cache {
                Some((_, total)) => total,
                None => 0,
            }),
            r.multiplier.bits == self@.cache_read_multiplier,
            r.cap_ratio.bits == self@.cache_cap_ratio,
            r.floor_ratio.bits == self@.cache_floor_ratio,
    {
        let (hit, total): (i32, i32) = match self.sim_cache {
            Some(pair) => pair,
            None => (0, 0),
        };
        CacheReport {
            report_total: match self.context_input_tokens {
                Some(n) => n,
                None => self.input_tokens,
            },
            hit_tokens: if hit > 0 {
                hit
            } else {
                0
            },
            sim_total: total,
            multiplier: self.cache_read_multiplier,
            cap_ratio: self.cache_cap_ratio,
            floor_ratio: self.cache_floor_ratio,
        }
    }

    /// Ends an answer that failed.
    fn end_with_failure(&mut self, failure: &StreamFailure) -> (r: Vec<SseEvent>)
        ensures
            (final(self)@, sse::event_views(r@)) == stream_model::failed_end(
                old(self)@,
                failure@,
            ),
    {
        let mut events = self.close_reasoning_block_if_open();
        let closed = self.state_manager.close_all_open_blocks();
        sse::append_events(&mut events, closed);
        sse::push_event(
            &mut events,
            SseEvent::new("error", SseData::Failure { message: failure.client_message() }),
        );
        proof {
            assert(sse::event_views(events@) =~= stream_model::failed_end(
                old(self)@,
                failure@,
            ).1);
        }
        events
    }

    /// Sends what is still held back.
    fn flush_at_end(&mut self) -> (r: Vec<SseEvent>)
        requires
            old(self)@.sse.next_block_index < i32::MAX,
        ensures
            (final(self)@, sse::event_views(r@)) == stream_model::flush_at_end(old(self)@),
    {
        proof {
            reveal(stream_model::flush_at_end);
        }
        if !self.thinking_enabled {
            return sse::no_events();
        }
        if self.in_thinking_block {
            return self.end_thinking();
        }
        let buffered = self.thinking_buffer.clone();
        if buffered.as_str().is_empty() {
            return sse::no_events();
        }
        let events = self.create_text_delta_events(buffered.as_str());
        self.thinking_buffer = String::new();
        events
    }

    /// Gives an answer of thinking alone its text block.
    fn complete_thinking_only(&mut self) -> (r: Vec<SseEvent>)
        requires
            old(self)@.sse.next_block_index < i32::MAX,
        ensures
            (final(self)@, sse::event_views(r@)) == stream_model::complete_thinking_only(
                old(self)@,
            ),
    {
        if self.thinking_enabled && self.thinking_block_index.is_some()
            && !self.state_manager.has_non_thinking_blocks() {
            self.state_manager.set_stop_reason("max_tokens");
            self.create_text_delta_events(" ")
        } else {
            sse::no_events()
        }
    }

    /// Sends everything that is still to be sent before the answer can end.
    fn complete_content(&mut self) -> (r: Vec<SseEvent>)
        requires
            old(self)@.sse.next_block_index + 1 < i32::MAX,
        ensures
            (final(self)@, sse::event_views(r@)) == stream_model::complete_content(old(self)@),
    {
        let mut events = self.close_reasoning_block_if_open();
        proof {
            stream_model::lemma_flush_at_end_bounds(self@);
        }
        let flushed = self.flush_at_end();
        sse::append_events(&mut events, flushed);
        let completed = self.complete_thinking_only();
        sse::append_events(&mut events, completed);
        events
    }

    /// Sends the closing events with the token counts.
    fn finish_message(&mut self, reported: i32) -> (r: Vec<SseEvent>)
        requires
            is_cache_read(old(self)@, reported as int),
        ensures
            (final(self)@, sse::event_views(r@)) == stream_model::finish_message(
                old(self)@,
                reported as int,
            ),
    {
        let total: i32 = match self.context_input_tokens {
            Some(n) => n,
            None => self.input_tokens,
        };
        if let Some((hit, _total)) = self.sim_cache {
            self.emitted_raw_cache_read = Some(
                if hit > 0 {
                    hit
                } else {
                    0
                },
            );
        }
        let read: i32 = if self.output_tokens <= 0 {
            0
        } else {
            reported
        };
        self.emitted_cache_read = Some(read);
        self.emitted_cache_creation = Some(0);
        self.state_manager.generate_final_events(total, self.output_tokens, read, 0)
    }

    /// Ends an answer that did not fail.
    fn end_with_success(&mut self, reported: i32) -> (r: Vec<SseEvent>)
        requires
            old(self)@.sse.next_block_index + 1 < i32::MAX,
            is_cache_read(old(self)@, reported as int),
        ensures
            (final(self)@, sse::event_views(r@)) == stream_model::successful_end(
                old(self)@,
                reported as int,
            ),
    {
        proof {
            stream_model::lemma_complete_content_keeps_counts(self@);
        }
        let mut events = self.complete_content();
        let finished = self.finish_message(reported);
        sse::append_events(&mut events, finished);
        events
    }

    /// The end of an answer. `reported` is the cache read that is reported for it.
    pub fn generate_final_events(&mut self, reported: i32) -> (r: Vec<SseEvent>)
        requires
            old(self)@.sse.next_block_index + 1 < i32::MAX,
            is_cache_read(old(self)@, reported as int),
        ensures
            (final(self)@, sse::event_views(r@)) == stream_model::final_events(
                old(self)@,
                reported as int,
            ),
    {
        if self.progress.failure.is_none() && !self.produced_any_content() {
            self.mark_failure(StreamFailure::EmptyResponse);
        }
        let failure: Option<StreamFailure> = match &self.progress.failure {
            Some(f) => Some(f.copy()),
            None => None,
        };
        match failure {
            Some(f) => self.end_with_failure(&f),
            None => self.end_with_success(reported),
        }
    }
}

} // verus!
