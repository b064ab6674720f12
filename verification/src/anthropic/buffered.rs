//! Conversion of an answer whose events are held back until its end.

use vstd::prelude::*;
use vstd::string::*;

use crate::anthropic::sse;
use crate::anthropic::sse::{EventView, SseData, SseEvent};
use crate::anthropic::stream;
use crate::anthropic::stream::{CacheReport, StreamContext, StreamFailure};
use crate::anthropic::stream_model;
use crate::anthropic::stream_model::{BufferedView, StreamView};
use crate::float_bits::FloatBits;
use crate::ids;
use crate::kiro::model::events::Event;
use crate::text;
use crate::text_map::TextMap;

verus! {

/// A conversion that keeps its events and hands them out at the end, when the size of the context
/// is known.
pub struct BufferedStreamContext {
    inner: StreamContext,
    event_buffer: Vec<SseEvent>,
    estimated_input_tokens: i32,
    initial_events_generated: bool,
}

impl View for BufferedStreamContext {
    type V = BufferedView;

    closed spec fn view(&self) -> BufferedView {
        BufferedView {
            inner: self.inner@,
            events: sse::event_views(self.event_buffer@),
            estimated_input_tokens: self.estimated_input_tokens as int,
            initial_events_generated: self.initial_events_generated,
        }
    }
}

/// Puts the size of the context into a `message_start`.
fn correct_event(event: &mut SseEvent, input_tokens: i32)
    ensures
        final(event)@ == stream_model::corrected(old(event)@, input_tokens as int),
{
    if text::same_text(event.event.as_str(), "message_start") {
        let start: Option<(String, String)> = match &event.data {
            SseData::MessageStart { id, model, .. } => Some((id.clone(), model.clone())),
            _ => None,
        };
        if let Some((id, model)) = start {
            event.data = SseData::MessageStart { id, model, input_tokens };
        }
    }
}

impl BufferedStreamContext {
    pub fn new(
        model: &str,
        estimated_input_tokens: i32,
        thinking_enabled: bool,
        tool_name_map: TextMap<String>,
    ) -> (r: Self)
        ensures
            exists|uuid: Seq<char>|
                #![trigger ids::message_id_model(uuid)]
                ids::is_uuid_text(uuid) && r@ == (BufferedView {
                    inner: stream_model::new_stream(
                        model@,
                        estimated_input_tokens as int,
                        thinking_enabled,
                        tool_name_map@,
                        ids::message_id_model(uuid),
                    ),
                    events: Seq::empty(),
                    estimated_input_tokens: estimated_input_tokens as int,
                    initial_events_generated: false,
                }),
    {
        let inner = StreamContext::new_with_thinking(
            model,
            estimated_input_tokens,
            thinking_enabled,
            tool_name_map,
        );
        BufferedStreamContext {
            inner,
            event_buffer: sse::no_events(),
            estimated_input_tokens,
            initial_events_generated: false,
        }
    }

    /// Sets the factor by which cache hits are scaled.
    pub fn set_cache_read_multiplier(&mut self, m: FloatBits)
        ensures
            final(self)@ == (BufferedView {
                inner: StreamView { cache_read_multiplier: m.bits, ..old(self)@.inner },
                ..old(self)@
            }),
    {
        self.inner.set_cache_read_multiplier(m);
    }

    /// Sets the greatest share of the context that is reported as cached.
    pub fn set_cache_cap_ratio(&mut self, ratio: FloatBits)
        ensures
            final(self)@ == (BufferedView {
                inner: StreamView { cache_cap_ratio: ratio.bits, ..old(self)@.inner },
                ..old(self)@
            }),
    {
        self.inner.set_cache_cap_ratio(ratio);
    }

    /// Sets the least share of the context that is reported as cached.
    pub fn set_cache_floor_ratio(&mut self, ratio: FloatBits)
        ensures
            final(self)@ == (BufferedView {
                inner: StreamView { cache_floor_ratio: ratio.bits, ..old(self)@.inner },
                ..old(self)@
            }),
    {
        self.inner.set_cache_floor_ratio(ratio);
    }

    /// Sets hit and total tokens of the cache simulation.
    pub fn set_sim_cache(&mut self, v: Option<(i32, i32)>)
        ensures
            final(self)@ == (BufferedView {
                inner: StreamView {
                    sim_cache: match v {
                        Some((hit, total)) => Some((hit as int, total as int)),
                        None => None,
                    },
                    ..old(self)@.inner
                },
                ..old(self)@
            }),
    {
        self.inner.set_sim_cache(v);
    }

    /// Records a failure; the first one counts.
    pub fn mark_failure(&mut self, failure: StreamFailure)
        ensures
            final(self)@ == (BufferedView {
                inner: stream_model::with_failure(old(self)@.inner, failure@),
                ..old(self)@
            }),
    {
        self.inner.mark_failure(failure);
    }

    /// What the reported cache read of this answer is computed from.
    pub fn cache_report(&self) -> (r: CacheReport)
        ensures
            r.report_total == stream_model::context_size(self@.inner),
            r.hit_tokens == stream_model::simulated_hit(self@.inner),
            r.sim_total == (match self@.inner.sim_cache {
                Some((_, total)) => total,
                None => 0,
            }),
            r.multiplier.bits == self@.inner.cache_read_multiplier,
            r.cap_ratio.bits == self@.inner.cache_cap_ratio,
            r.floor_ratio.bits == self@.inner.cache_floor_ratio,
    {
        self.inner.cache_report()
    }

    /// Generates the initial events, unless that has been done.
    fn ensure_initial_events(&mut self)
        requires
            old(self)@.inner.sse.next_block_index < i32::MAX,
        ensures
            final(self)@ == stream_model::with_initial_events(old(self)@),
    {
        if !self.initial_events_generated {
            let events = self.inner.generate_initial_events();
            sse::append_events(&mut self.event_buffer, events);
            self.initial_events_generated = true;
        }
    }

    /// Whether an event can be taken: then no count leaves the range of its type, and block indices
    /// are left.
    pub fn can_take(&self, event: &Event) -> (r: bool)
        ensures
            r == (self@.inner.sse.next_block_index + 3 < i32::MAX && stream::event_fits(
                self@.inner,
                *event,
            )),
            r ==> stream::event_fits(stream_model::with_initial_events(self@).inner, *event),
    {
        let r: bool = self.inner.free_block_index() < i32::MAX - 3
            && self.inner.can_take(event);
        proof {
            stream_model::lemma_initial_events_frame(self@.inner);
        }
        r
    }

    /// Takes an event of the service and keeps what it leads to.
    pub fn process_and_buffer(&mut self, event: &Event)
        requires
            old(self)@.inner.sse.next_block_index < i32::MAX,
            stream::event_fits(
                stream_model::with_initial_events(old(self)@).inner,
                *event,
            ),
        ensures
            ({
                let b = stream_model::with_initial_events(old(self)@);
                let (inner, e) = stream::event_step(b.inner, *event);
                final(self)@ == (BufferedView { inner, events: b.events + e, ..b })
            }),
    {
        self.ensure_initial_events();
        let events = self.inner.process_kiro_event(event);
        sse::append_events(&mut self.event_buffer, events);
    }

    /// Whether block indices are left for the end of the answer.
    pub fn can_finish(&self) -> (r: bool)
        ensures
            r == (self@.inner.sse.next_block_index + 2 < i32::MAX),
    {
        self.inner.free_block_index() < i32::MAX - 2
    }

    /// Ends the answer and hands out all events. `reported` is the cache read that is reported.
    pub fn finish_and_get_all_events(&mut self, reported: i32) -> (r: Vec<SseEvent>)
        requires
            old(self)@.inner.sse.next_block_index + 2 < i32::MAX,
            stream::is_cache_read(old(self)@.inner, reported as int),
        ensures
            (final(self)@, sse::event_views(r@)) == stream_model::buffered_end(
                old(self)@,
                reported as int,
            ),
    {
        self.ensure_initial_events();
        let last = self.inner.generate_final_events(reported);
        sse::append_events(&mut self.event_buffer, last);
        let size: i32 = match self.inner.reported_input_tokens() {
            Some(n) => n,
            None => self.estimated_input_tokens,
        };
        let ghost all = sse::event_views(self.event_buffer@);
        let mut events: Vec<SseEvent> = Vec::new();
        core::mem::swap(&mut events, &mut self.event_buffer);
        let mut i: usize = 0;
        while i < events.len()
            invariant
                i <= events@.len(),
                events@.len() == all.len(),
                forall|j: int|
                    0 <= j < i ==> (#[trigger] events@[j])@ == stream_model::corrected(
                        all[j],
                        size as int,
                    ),
                forall|j: int| i <= j < all.len() ==> (#[trigger] events@[j])@ == all[j],
            decreases events@.len() - i,
        {
            correct_event(&mut events[i], size);
            i = i + 1;
        }
        proof {
            assert(sse::event_views(events@) =~= all.map_values(
                |event: EventView| stream_model::corrected(event, size as int),
            ));
            assert(sse::event_views(self.event_buffer@) =~= Seq::<EventView>::empty());
        }
        events
    }
}

} // verus!
