//! Conversation data model: roles, messages, stream events and the request
//! and response records exchanged with a provider.

use vstd::prelude::*;

verus! {

/// The role a conversation message is spoken in.
#[derive(Debug, Clone, Copy, PartialEq, Eq, Structural)]
pub enum Role {
    System,
    User,
    Assistant,
}

/// One ordered message of a compiled conversation.
#[derive(Debug, Clone)]
pub struct Message {
    pub role: Role,
    pub content: String,
}

/// Mathematical image of a `Message`.
pub struct MessageView {
    pub role: Role,
    pub content: Seq<char>,
}

impl View for Message {
    type V = MessageView;

    open spec fn view(&self) -> MessageView {
        MessageView { role: self.role, content: self.content@ }
    }
}

/// The view of a message sequence.
pub open spec fn messages_view(ms: Seq<Message>) -> Seq<MessageView> {
    ms.map_values(|m: Message| m@)
}

/// Events yielded by the decoded LLM stream.
#[derive(Debug, Clone)]
pub enum LlmStreamEvent {
    Content(String),
    Reasoning(String),
}

/// Mathematical image of an `LlmStreamEvent`.
pub enum EventView {
    Content(Seq<char>),
    Reasoning(Seq<char>),
}

impl View for LlmStreamEvent {
    type V = EventView;

    open spec fn view(&self) -> EventView {
        match self {
            LlmStreamEvent::Content(t) => EventView::Content(t@),
            LlmStreamEvent::Reasoning(t) => EventView::Reasoning(t@),
        }
    }
}

/// The view of an event sequence.
pub open spec fn events_view(es: Seq<LlmStreamEvent>) -> Seq<EventView> {
    es.map_values(|e: LlmStreamEvent| e@)
}

/// Configuration for one LLM request.
#[derive(Debug, Clone)]
pub struct LlmConfig {
    pub model: String,
    pub system_prompt: Option<String>,
    pub include_reasoning: bool,
}

/// Arguments for the LLM generation task, as a plain value record.
#[derive(Debug, Clone)]
pub struct GenArgs {
    /// The model to use, as `provider/model`.
    pub model: String,
    /// The system prompt to inject ahead of the compiled conversation.
    pub system: Option<String>,
    /// Whether reasoning text is rendered.
    pub include_reasoning: bool,
}

impl LlmConfig {
    /// Carries the generation arguments over into a request configuration.
    pub fn from_args(args: &GenArgs) -> (r: LlmConfig)
        ensures
            r.model@ == args.model@,
            match (&r.system_prompt, &args.system) {
                (Some(a), Some(b)) => a@ == b@,
                (None, None) => true,
                _ => false,
            },
            r.include_reasoning == args.include_reasoning,
    {
        LlmConfig {
            model: args.model.clone(),
            system_prompt: match &args.system {
                Some(s) => Some(s.clone()),
                None => None,
            },
            include_reasoning: args.include_reasoning,
        }
    }
}

/// The outbound request payload: a model name, the ordered conversation and
/// the flag asking for a streamed answer.
#[derive(Debug, Clone)]
pub struct ApiRequest {
    pub model: String,
    pub messages: Vec<Message>,
    pub stream: bool,
}

impl ApiRequest {
    /// Builds the request record; a request produced here always streams.
    pub fn new(model: String, messages: Vec<Message>) -> (r: ApiRequest)
        ensures
            r.model@ == model@,
            messages_view(r.messages@) == messages_view(messages@),
            r.stream,
    {
        ApiRequest { model, messages, stream: true }
    }
}

/// The incremental fields one streamed choice may carry.
#[derive(Debug, Clone)]
pub struct Delta {
    pub content: Option<String>,
    pub reasoning: Option<String>,
    pub reasoning_content: Option<String>,
}

/// Mathematical image of a `Delta`.
pub struct DeltaView {
    pub content: Option<Seq<char>>,
    pub reasoning: Option<Seq<char>>,
    pub reasoning_content: Option<Seq<char>>,
}

/// The view of an optional text field.
pub open spec fn opt_text_view(o: Option<String>) -> Option<Seq<char>> {
    match o {
        Some(t) => Some(t@),
        None => None,
    }
}

impl View for Delta {
    type V = DeltaView;

    open spec fn view(&self) -> DeltaView {
        DeltaView {
            content: opt_text_view(self.content),
            reasoning: opt_text_view(self.reasoning),
            reasoning_content: opt_text_view(self.reasoning_content),
        }
    }
}

/// One choice of a streamed response record.
#[derive(Debug, Clone)]
pub struct Choice {
    pub delta: Delta,
}

impl View for Choice {
    type V = DeltaView;

    open spec fn view(&self) -> DeltaView {
        self.delta@
    }
}

/// One decoded streamed response record: the deltas of its choices, in order.
#[derive(Debug, Clone)]
pub struct ApiResponseChunk {
    pub choices: Vec<Choice>,
}

impl View for ApiResponseChunk {
    type V = Seq<DeltaView>;

    open spec fn view(&self) -> Seq<DeltaView> {
        self.choices@.map_values(|c: Choice| c@)
    }
}

} // verus!
