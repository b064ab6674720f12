//! Events of the Kiro answer stream.

use vstd::prelude::*;
use vstd::string::*;

use crate::float_bits::FloatBits;

verus! {

/// A piece of a tool call.
#[derive(Debug, Clone)]
pub struct ToolUseEvent {
    pub name: String,
    pub tool_use_id: String,
    /// A piece of the JSON text of the arguments.
    pub input: String,
    /// The call is complete.
    pub stop: bool,
}

/// Token counts of the whole answer.
#[derive(Debug, Clone, Copy)]
pub struct TokenUsageEvent {
    /// Input tokens that no cache served.
    pub uncached_input_tokens: i64,
    /// Output tokens, thinking included in them.
    pub output_tokens: i64,
    pub total_tokens: i64,
    pub cache_read_input_tokens: Option<i64>,
    pub cache_write_input_tokens: Option<i64>,
}

/// What the answer cost.
#[derive(Debug, Clone)]
pub struct MeteringEvent {
    pub unit: Option<String>,
    pub unit_plural: Option<String>,
    pub usage: FloatBits,
}

/// A piece of the reasoning of the model.
#[derive(Debug, Clone)]
pub struct ReasoningContentEvent {
    pub text: String,
    /// The signature of the reasoning, which comes with its last piece only.
    pub signature: Option<String>,
}

/// How full the context of the model is.
#[derive(Debug, Clone, Copy)]
pub struct ContextUsage {
    /// The share of the context window that is used, in percent.
    pub percentage: FloatBits,
    /// The tokens that the share of the context window amounts to.
    pub input_tokens: i32,
    /// The share is 100 percent or more.
    pub is_full: bool,
}

/// An event of the answer stream.
#[derive(Debug, Clone)]
pub enum Event {
    AssistantResponse { content: String },
    ReasoningContent(ReasoningContentEvent),
    ToolUse(ToolUseEvent),
    ContextUsage(ContextUsage),
    TokenUsage(TokenUsageEvent),
    Metering(MeteringEvent),
    Error { error_code: String, error_message: String },
    Exception { exception_type: String, message: String },
    /// An event that carries nothing for the answer.
    Other,
}

impl Default for TokenUsageEvent {
    fn default() -> (r: Self)
        ensures
            r.uncached_input_tokens == 0,
            r.output_tokens == 0,
            r.total_tokens == 0,
            r.cache_read_input_tokens is None,
            r.cache_write_input_tokens is None,
    {
        TokenUsageEvent {
            uncached_input_tokens: 0,
            output_tokens: 0,
            total_tokens: 0,
            cache_read_input_tokens: None,
            cache_write_input_tokens: None,
        }
    }
}

impl Default for ReasoningContentEvent {
    fn default() -> (r: Self)
        ensures
            r.text@ == Seq::<char>::empty(),
            r.signature is None,
    {
        ReasoningContentEvent { text: String::new(), signature: None }
    }
}

impl Default for MeteringEvent {
    fn default() -> (r: Self)
        ensures
            r.unit is None,
            r.unit_plural is None,
            r.usage.bits == 0,
    {
        MeteringEvent { unit: None, unit_plural: None, usage: FloatBits { bits: 0 } }
    }
}

impl MeteringEvent {
    /// The unit under which the amount is shown: the plural, else the singular, else `units`.
    pub fn unit_label(&self) -> (r: String)
        ensures
            match (self.unit_plural, self.unit) {
                (Some(plural), _) => r@ == plural@,
                (None, Some(unit)) => r@ == unit@,
                (None, None) => r@ == "units"@,
            },
    {
        match &self.unit_plural {
            Some(plural) => plural.clone(),
            None => match &self.unit {
                Some(unit) => unit.clone(),
                None => "units".to_owned(),
            },
        }
    }
}

} // verus!
