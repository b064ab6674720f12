//! Requests of the Messages API.

use vstd::prelude::*;
use vstd::string::*;

use crate::json::{Json, JsonView};

verus! {

/// A message of a conversation. Its content is a text or a list of content blocks.
#[derive(Debug, Clone, PartialEq)]
pub struct Message {
    pub role: String,
    pub content: Json,
}

/// A request for an answer.
#[derive(Debug, Clone)]
pub struct MessagesRequest {
    pub model: String,
    pub max_tokens: i32,
    pub messages: Vec<Message>,
    pub stream: bool,
    pub system: Option<Json>,
    pub tools: Option<Json>,
    pub tool_choice: Option<Json>,
    pub thinking: Option<Json>,
    pub output_config: Option<Json>,
    pub metadata: Option<Json>,
    pub context_management: Option<Json>,
}

/// What a message says.
pub struct MessageView {
    pub role: Seq<char>,
    pub content: JsonView,
}

impl View for Message {
    type V = MessageView;

    open spec fn view(&self) -> MessageView {
        MessageView { role: self.role@, content: self.content@ }
    }
}

/// What each message of a list says.
pub open spec fn message_views(messages: Seq<Message>) -> Seq<MessageView> {
    messages.map_values(|m: Message| m@)
}

} // verus!
