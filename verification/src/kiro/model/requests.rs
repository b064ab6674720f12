//! Conversations as they are sent to the Kiro service.

use vstd::prelude::*;
use vstd::string::*;

use crate::json::Json;

verus! {

/// The result of a tool call.
#[derive(Debug, Clone)]
pub struct ToolResult {
    pub tool_use_id: String,
    pub status: Option<String>,
    pub content: Json,
}

/// A tool call.
#[derive(Debug, Clone)]
pub struct ToolUseEntry {
    pub tool_use_id: String,
    pub name: String,
    pub input: Json,
}

/// The description of a tool.
#[derive(Debug, Clone)]
pub struct ToolSpecification {
    pub name: String,
    pub description: String,
    pub input_schema: Json,
}

/// A tool that the model may call.
#[derive(Debug, Clone)]
pub struct Tool {
    pub tool_specification: ToolSpecification,
}

/// What goes with the text of a user.
#[derive(Debug, Clone)]
pub struct UserInputMessageContext {
    pub tool_results: Vec<ToolResult>,
    pub tools: Vec<Tool>,
}

/// A message of a user, the current one or an earlier one.
#[derive(Debug, Clone)]
pub struct UserInputMessage {
    pub content: String,
    pub model_id: String,
    pub user_input_message_context: UserInputMessageContext,
    pub images: Vec<Json>,
    pub documents: Vec<Json>,
}

/// An answer of the assistant.
#[derive(Debug, Clone)]
pub struct AssistantMessage {
    pub content: String,
    pub tool_uses: Option<Vec<ToolUseEntry>>,
}

/// A message of the history.
#[derive(Debug, Clone)]
pub enum HistoryMessage {
    User(UserInputMessage),
    Assistant(AssistantMessage),
}

/// A conversation: its history and its current message.
#[derive(Debug, Clone)]
pub struct ConversationState {
    pub conversation_id: String,
    pub history: Vec<HistoryMessage>,
    pub current_message: UserInputMessage,
}

impl Default for UserInputMessageContext {
    fn default() -> (r: Self)
        ensures
            r.tool_results@.len() == 0,
            r.tools@.len() == 0,
    {
        UserInputMessageContext { tool_results: Vec::new(), tools: Vec::new() }
    }
}

impl Default for UserInputMessage {
    fn default() -> (r: Self)
        ensures
            r.content@ == Seq::<char>::empty(),
            r.model_id@ == Seq::<char>::empty(),
            r.user_input_message_context.tool_results@.len() == 0,
            r.user_input_message_context.tools@.len() == 0,
            r.images@.len() == 0,
            r.documents@.len() == 0,
    {
        UserInputMessage {
            content: String::new(),
            model_id: String::new(),
            user_input_message_context: UserInputMessageContext {
                tool_results: Vec::new(),
                tools: Vec::new(),
            },
            images: Vec::new(),
            documents: Vec::new(),
        }
    }
}

impl UserInputMessage {
    pub fn new(content: &str, model_id: &str) -> (r: Self)
        ensures
            r.content@ == content@,
            r.model_id@ == model_id@,
            r.user_input_message_context.tool_results@.len() == 0,
            r.user_input_message_context.tools@.len() == 0,
            r.images@.len() == 0,
            r.documents@.len() == 0,
    {
        UserInputMessage {
            content: content.to_owned(),
            model_id: model_id.to_owned(),
            user_input_message_context: UserInputMessageContext {
                tool_results: Vec::new(),
                tools: Vec::new(),
            },
            images: Vec::new(),
            documents: Vec::new(),
        }
    }
}

impl AssistantMessage {
    pub fn new(content: &str) -> (r: Self)
        ensures
            r.content@ == content@,
            r.tool_uses is None,
    {
        AssistantMessage { content: content.to_owned(), tool_uses: None }
    }
}

impl ConversationState {
    pub fn new(conversation_id: &str) -> (r: Self)
        ensures
            r.conversation_id@ == conversation_id@,
            r.history@.len() == 0,
            r.current_message.content@ == Seq::<char>::empty(),
            r.current_message.user_input_message_context.tool_results@.len() == 0,
            r.current_message.images@.len() == 0,
            r.current_message.documents@.len() == 0,
    {
        proof {
            reveal_strlit("");
            assert(""@ =~= Seq::<char>::empty());
        }
        ConversationState {
            conversation_id: conversation_id.to_owned(),
            history: Vec::new(),
            current_message: UserInputMessage::new("", ""),
        }
    }
}

} // verus!
