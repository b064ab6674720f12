//! Server-sent events of an answer and the state that keeps their sequence legal.

use vstd::prelude::*;
use vstd::string::*;

use crate::json;
use crate::json::{Json, JsonView};

verus! {

/// What a content block announces when it starts.
#[derive(Debug, Clone)]
pub enum ContentBlock {
    Text,
    Thinking,
    ToolUse { id: String, name: String },
}

/// A piece of a content block.
#[derive(Debug, Clone)]
pub enum Delta {
    Text(String),
    Thinking(String),
    Signature(String),
    /// A signature that is still to be made for the thinking of a model.
    PendingSignature { model: String, thinking: String },
    InputJson(String),
}

/// The data of an event.
#[derive(Debug, Clone)]
pub enum SseData {
    MessageStart { id: String, model: String, input_tokens: i32 },
    BlockStart { index: i32, block: ContentBlock },
    BlockDelta { index: i32, delta: Delta },
    BlockStop { index: i32 },
    MessageDelta { stop_reason: String, usage: Json },
    MessageStop,
    Failure { message: String },
    /// A payload that is passed on as it is.
    Payload(Json),
}

/// A server-sent event.
#[derive(Debug, Clone)]
pub struct SseEvent {
    pub event: String,
    pub data: SseData,
}

pub enum BlockHeaderView {
    Text,
    Thinking,
    ToolUse { id: Seq<char>, name: Seq<char> },
}

pub enum DeltaView {
    Text(Seq<char>),
    Thinking(Seq<char>),
    Signature(Seq<char>),
    PendingSignature { model: Seq<char>, thinking: Seq<char> },
    InputJson(Seq<char>),
}

pub enum DataView {
    MessageStart { id: Seq<char>, model: Seq<char>, input_tokens: int },
    BlockStart { index: int, block: BlockHeaderView },
    BlockDelta { index: int, delta: DeltaView },
    BlockStop { index: int },
    MessageDelta { stop_reason: Seq<char>, usage: JsonView },
    MessageStop,
    Failure { message: Seq<char> },
    Payload(JsonView),
}

/// What an event says.
pub struct EventView {
    pub name: Seq<char>,
    pub data: DataView,
}

impl View for ContentBlock {
    type V = BlockHeaderView;

    open spec fn view(&self) -> BlockHeaderView {
        match *self {
            ContentBlock::Text => BlockHeaderView::Text,
            ContentBlock::Thinking => BlockHeaderView::Thinking,
            ContentBlock::ToolUse { id, name } => BlockHeaderView::ToolUse { id: id@, name: name@ },
        }
    }
}

impl View for Delta {
    type V = DeltaView;

    open spec fn view(&self) -> DeltaView {
        match *self {
            Delta::Text(s) => DeltaView::Text(s@),
            Delta::Thinking(s) => DeltaView::Thinking(s@),
            Delta::Signature(s) => DeltaView::Signature(s@),
            Delta::PendingSignature { model, thinking } => DeltaView::PendingSignature {
                model: model@,
                thinking: thinking@,
            },
            Delta::InputJson(s) => DeltaView::InputJson(s@),
        }
    }
}

impl View for SseData {
    type V = DataView;

    open spec fn view(&self) -> DataView {
        match *self {
            SseData::MessageStart { id, model, input_tokens } => DataView::MessageStart {
                id: id@,
                model: model@,
                input_tokens: input_tokens as int,
            },
            SseData::BlockStart { index, block } => DataView::BlockStart {
                index: index as int,
                block: block@,
            },
            SseData::BlockDelta { index, delta } => DataView::BlockDelta {
                index: index as int,
                delta: delta@,
            },
            SseData::BlockStop { index } => DataView::BlockStop { index: index as int },
            SseData::MessageDelta { stop_reason, usage } => DataView::MessageDelta {
                stop_reason: stop_reason@,
                usage: usage@,
            },
            SseData::MessageStop => DataView::MessageStop,
            SseData::Failure { message } => DataView::Failure { message: message@ },
            SseData::Payload(v) => DataView::Payload(v@),
        }
    }
}

impl View for SseEvent {
    type V = EventView;

    open spec fn view(&self) -> EventView {
        EventView { name: self.event@, data: self.data@ }
    }
}

/// What each event of a list says.
pub open spec fn event_views(events: Seq<SseEvent>) -> Seq<EventView> {
    events.map_values(|e: SseEvent| e@)
}

impl BlockHeaderView {
    /// The `content_block` object.
    pub open spec fn json(self) -> JsonView {
        match self {
            BlockHeaderView::Text => JsonView::Object(
                map!["type"@ => JsonView::Text("text"@), "text"@ => JsonView::Text(""@)],
            ),
            BlockHeaderView::Thinking => JsonView::Object(
                map!["type"@ => JsonView::Text("thinking"@), "thinking"@ => JsonView::Text(""@)],
            ),
            BlockHeaderView::ToolUse { id, name } => JsonView::Object(
                map![
                    "type"@ => JsonView::Text("tool_use"@),
                    "id"@ => JsonView::Text(id),
                    "name"@ => JsonView::Text(name),
                    "input"@ => JsonView::Object(Map::empty())
                ],
            ),
        }
    }
}

impl DeltaView {
    /// The `delta` object. There is none for a signature that has not been made yet.
    pub open spec fn json(self) -> JsonView {
        match self {
            DeltaView::Text(s) => JsonView::Object(
                map!["type"@ => JsonView::Text("text_delta"@), "text"@ => JsonView::Text(s)],
            ),
            DeltaView::Thinking(s) => JsonView::Object(
                map!["type"@ => JsonView::Text("thinking_delta"@), "thinking"@ => JsonView::Text(s)],
            ),
            DeltaView::Signature(s) => JsonView::Object(
                map!["type"@ => JsonView::Text("signature_delta"@), "signature"@ => JsonView::Text(s)],
            ),
            DeltaView::PendingSignature { .. } => JsonView::Null,
            DeltaView::InputJson(s) => JsonView::Object(
                map![
                    "type"@ => JsonView::Text("input_json_delta"@),
                    "partial_json"@ => JsonView::Text(s)
                ],
            ),
        }
    }
}

impl DataView {
    /// The event waits for a signature.
    pub open spec fn is_pending(self) -> bool {
        self matches DataView::BlockDelta { delta: DeltaView::PendingSignature { .. }, .. }
    }

    /// The data object of the event.
    pub open spec fn json(self) -> JsonView {
        match self {
            DataView::MessageStart { id, model, input_tokens } => JsonView::Object(
                map![
                    "type"@ => JsonView::Text("message_start"@),
                    "message"@ => JsonView::Object(map![
                        "id"@ => JsonView::Text(id),
                        "type"@ => JsonView::Text("message"@),
                        "role"@ => JsonView::Text("assistant"@),
                        "content"@ => JsonView::Array(Seq::empty()),
                        "model"@ => JsonView::Text(model),
                        "stop_reason"@ => JsonView::Null,
                        "stop_sequence"@ => JsonView::Null,
                        "usage"@ => JsonView::Object(map![
                            "input_tokens"@ => JsonView::Int(input_tokens),
                            "output_tokens"@ => JsonView::Int(1)
                        ])
                    ])
                ],
            ),
            DataView::BlockStart { index, block } => JsonView::Object(
                map![
                    "type"@ => JsonView::Text("content_block_start"@),
                    "index"@ => JsonView::Int(index),
                    "content_block"@ => block.json()
                ],
            ),
            DataView::BlockDelta { index, delta } => JsonView::Object(
                map![
                    "type"@ => JsonView::Text("content_block_delta"@),
                    "index"@ => JsonView::Int(index),
                    "delta"@ => delta.json()
                ],
            ),
            DataView::BlockStop { index } => JsonView::Object(
                map![
                    "type"@ => JsonView::Text("content_block_stop"@),
                    "index"@ => JsonView::Int(index)
                ],
            ),
            DataView::MessageDelta { stop_reason, usage } => JsonView::Object(
                map![
                    "type"@ => JsonView::Text("message_delta"@),
                    "delta"@ => JsonView::Object(map![
                        "stop_reason"@ => JsonView::Text(stop_reason),
                        "stop_sequence"@ => JsonView::Null
                    ]),
                    "usage"@ => usage
                ],
            ),
            DataView::MessageStop => JsonView::Object(
                map!["type"@ => JsonView::Text("message_stop"@)],
            ),
            DataView::Failure { message } => JsonView::Object(
                map![
                    "type"@ => JsonView::Text("error"@),
                    "error"@ => JsonView::Object(map![
                        "type"@ => JsonView::Text("api_error"@),
                        "message"@ => JsonView::Text(message)
                    ])
                ],
            ),
            DataView::Payload(v) => v,
        }
    }
}

impl ContentBlock {
    pub fn to_json(&self) -> (r: Json)
        ensures
            r@ == self@.json(),
    {
        let mut members = json::no_members();
        match self {
            ContentBlock::Text => {
                json::push_member(&mut members, "type", json::json_string("text"));
                json::push_member(&mut members, "text", json::json_string(""));
            },
            ContentBlock::Thinking => {
                json::push_member(&mut members, "type", json::json_string("thinking"));
                json::push_member(&mut members, "thinking", json::json_string(""));
            },
            ContentBlock::ToolUse { id, name } => {
                json::push_member(&mut members, "type", json::json_string("tool_use"));
                json::push_member(&mut members, "id", json::json_string(id.as_str()));
                json::push_member(&mut members, "name", json::json_string(name.as_str()));
                json::push_member(&mut members, "input", Json::Object(json::no_members()));
            },
        }
        Json::Object(members)
    }
}

impl Delta {
    pub fn to_json(&self) -> (r: Json)
        requires
            !(self@ is PendingSignature),
        ensures
            r@ == self@.json(),
    {
        let mut members = json::no_members();
        match self {
            Delta::Text(s) => {
                json::push_member(&mut members, "type", json::json_string("text_delta"));
                json::push_member(&mut members, "text", json::json_string(s.as_str()));
            },
            Delta::Thinking(s) => {
                json::push_member(&mut members, "type", json::json_string("thinking_delta"));
                json::push_member(&mut members, "thinking", json::json_string(s.as_str()));
            },
            Delta::Signature(s) => {
                json::push_member(&mut members, "type", json::json_string("signature_delta"));
                json::push_member(&mut members, "signature", json::json_string(s.as_str()));
            },
            Delta::PendingSignature { .. } => {
                return Json::Null;
            },
            Delta::InputJson(s) => {
                json::push_member(&mut members, "type", json::json_string("input_json_delta"));
                json::push_member(&mut members, "partial_json", json::json_string(s.as_str()));
            },
        }
        Json::Object(members)
    }
}

impl SseData {
    pub fn to_json(&self) -> (r: Json)
        requires
            !self@.is_pending(),
        ensures
            r@ == self@.json(),
    {
        let mut members = json::no_members();
        match self {
            SseData::MessageStart { id, model, input_tokens } => {
                let mut usage = json::no_members();
                json::push_member(&mut usage, "input_tokens", json::json_i32(*input_tokens));
                json::push_member(&mut usage, "output_tokens", json::json_i32(1));
                let content: Vec<Json> = Vec::new();
                let mut message = json::no_members();
                json::push_member(&mut message, "id", json::json_string(id.as_str()));
                json::push_member(&mut message, "type", json::json_string("message"));
                json::push_member(&mut message, "role", json::json_string("assistant"));
                json::push_member(&mut message, "content", Json::Array(content));
                json::push_member(&mut message, "model", json::json_string(model.as_str()));
                json::push_member(&mut message, "stop_reason", Json::Null);
                json::push_member(&mut message, "stop_sequence", Json::Null);
                json::push_member(&mut message, "usage", Json::Object(usage));
                json::push_member(&mut members, "type", json::json_string("message_start"));
                json::push_member(&mut members, "message", Json::Object(message));
            },
            SseData::BlockStart { index, block } => {
                json::push_member(&mut members, "type", json::json_string("content_block_start"));
                json::push_member(&mut members, "index", json::json_i32(*index));
                json::push_member(&mut members, "content_block", block.to_json());
            },
            SseData::BlockDelta { index, delta } => {
                json::push_member(&mut members, "type", json::json_string("content_block_delta"));
                json::push_member(&mut members, "index", json::json_i32(*index));
                json::push_member(&mut members, "delta", delta.to_json());
            },
            SseData::BlockStop { index } => {
                json::push_member(&mut members, "type", json::json_string("content_block_stop"));
                json::push_member(&mut members, "index", json::json_i32(*index));
            },
            SseData::MessageDelta { stop_reason, usage } => {
                let mut delta = json::no_members();
                json::push_member(
                    &mut delta,
                    "stop_reason",
                    json::json_string(stop_reason.as_str()),
                );
                json::push_member(&mut delta, "stop_sequence", Json::Null);
                json::push_member(&mut members, "type", json::json_string("message_delta"));
                json::push_member(&mut members, "delta", Json::Object(delta));
                json::push_member(&mut members, "usage", usage.clone());
            },
            SseData::MessageStop => {
                json::push_member(&mut members, "type", json::json_string("message_stop"));
            },
            SseData::Failure { message } => {
                let mut error = json::no_members();
                json::push_member(&mut error, "type", json::json_string("api_error"));
                json::push_member(&mut error, "message", json::json_string(message.as_str()));
                json::push_member(&mut members, "type", json::json_string("error"));
                json::push_member(&mut members, "error", Json::Object(error));
            },
            SseData::Payload(v) => {
                return v.clone();
            },
        }
        Json::Object(members)
    }
}

/// The frame of an event on the wire.
pub open spec fn sse_frame(e: EventView) -> Seq<char> {
    "event: "@ + e.name + "\ndata: "@ + json::json_text(e.data.json()) + "\n\n"@
}

impl SseEvent {
    pub fn new(event: &str, data: SseData) -> (r: Self)
        ensures
            r@ == (EventView { name: event@, data: data@ }),
            r.event@ == event@,
            r.data == data,
    {
        SseEvent { event: event.to_owned(), data }
    }

    /// The event as it goes over the wire, once its signature is made.
    pub fn to_sse_string(&self) -> (r: String)
        requires
            !self@.data.is_pending(),
        ensures
            r@ == sse_frame(self@),
    {
        let mut s = "event: ".to_owned();
        s.append(self.event.as_str());
        s.append("\ndata: ");
        let data = self.data.to_json().to_text();
        s.append(data.as_str());
        s.append("\n\n");
        s
    }

    /// The model and the thinking for which the event still waits for a signature.
    pub fn pending_signature(&self) -> (r: Option<(String, String)>)
        ensures
            match r {
                Some((m, t)) => self@.data matches DataView::BlockDelta {
                    delta: DeltaView::PendingSignature { model, thinking },
                    ..
                } && model == m@ && thinking == t@,
                None => !self@.data.is_pending(),
            },
    {
        match &self.data {
            SseData::BlockDelta { delta: Delta::PendingSignature { model, thinking }, .. } => Some(
                (model.clone(), thinking.clone()),
            ),
            _ => None,
        }
    }

    /// Puts a signature into an event that waits for one; other events stay as they are.
    pub fn supply_signature(&mut self, signature: &str)
        ensures
            final(self)@.name == old(self)@.name,
            !final(self)@.data.is_pending(),
            match old(self)@.data {
                DataView::BlockDelta { index, delta: DeltaView::PendingSignature { .. } } => final(self)@.data == (DataView::BlockDelta {
                    index,
                    delta: DeltaView::Signature(signature@),
                }),
                _ => final(self)@.data == old(self)@.data,
            },
    {
        let pending: Option<i32> = match &self.data {
            SseData::BlockDelta { index, delta: Delta::PendingSignature { .. } } => Some(*index),
            _ => None,
        };
        if let Some(index) = pending {
            self.data = SseData::BlockDelta {
                index,
                delta: Delta::Signature(signature.to_owned()),
            };
        }
    }
}

/// Appends events.
pub fn append_events(events: &mut Vec<SseEvent>, more: Vec<SseEvent>)
    ensures
        event_views(final(events)@) == event_views(old(events)@) + event_views(more@),
{
    let mut rest = more;
    events.append(&mut rest);
    proof {
        assert(event_views(events@) =~= event_views(old(events)@) + event_views(more@));
    }
}

/// Appends an event.
pub fn push_event(events: &mut Vec<SseEvent>, event: SseEvent)
    ensures
        event_views(final(events)@) == event_views(old(events)@) + seq![event@],
{
    events.push(event);
    proof {
        assert(event_views(events@) =~= event_views(old(events)@) + seq![event@]);
    }
}

/// A list without events.
pub fn no_events() -> (r: Vec<SseEvent>)
    ensures
        event_views(r@) == Seq::<EventView>::empty(),
{
    let r: Vec<SseEvent> = Vec::new();
    proof {
        assert(event_views(r@) =~= Seq::<EventView>::empty());
    }
    r
}

} // verus!
