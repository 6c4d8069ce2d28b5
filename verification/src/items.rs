//! The conversation items that a prompt copy is made of, and their
//! mathematical models.
//!
//! Every executable type here has a view in which each `String` is its
//! sequence of characters and each `Vec` is a sequence of models, so that
//! contracts can state exactly what a pass builds.

use vstd::prelude::*;

verus! {

/// A part of a message's content.
#[derive(Debug, Clone, PartialEq)]
pub enum ContentItem {
    InputText { text: String },
    InputImage { image_url: String },
    OutputText { text: String },
}

/// The model of a [`ContentItem`].
pub enum ContentModel {
    InputText { text: Seq<char> },
    InputImage { image_url: Seq<char> },
    OutputText { text: Seq<char> },
}

impl View for ContentItem {
    type V = ContentModel;

    open spec fn view(&self) -> ContentModel {
        match self {
            ContentItem::InputText { text } => ContentModel::InputText { text: text@ },
            ContentItem::InputImage { image_url } => ContentModel::InputImage {
                image_url: image_url@,
            },
            ContentItem::OutputText { text } => ContentModel::OutputText { text: text@ },
        }
    }
}

/// How much detail an image in a tool output asks for.
#[derive(Debug, Clone, Copy, PartialEq, Eq)]
pub enum ImageDetail {
    Auto,
    Low,
    High,
    Original,
}

/// A part of a tool output whose payload is a list of items.
#[derive(Debug, Clone, PartialEq)]
pub enum FunctionCallOutputContentItem {
    InputText { text: String },
    InputImage { image_url: String, detail: Option<ImageDetail> },
}

/// The model of a [`FunctionCallOutputContentItem`].
pub enum OutputPartModel {
    InputText { text: Seq<char> },
    InputImage { image_url: Seq<char>, detail: Option<ImageDetail> },
}

impl View for FunctionCallOutputContentItem {
    type V = OutputPartModel;

    open spec fn view(&self) -> OutputPartModel {
        match self {
            FunctionCallOutputContentItem::InputText { text } => OutputPartModel::InputText {
                text: text@,
            },
            FunctionCallOutputContentItem::InputImage { image_url, detail } =>
                OutputPartModel::InputImage { image_url: image_url@, detail: *detail },
        }
    }
}

/// The body of a tool output: plain text, or a list of parts.
#[derive(Debug, Clone, PartialEq)]
pub enum FunctionCallOutputBody {
    Text(String),
    ContentItems(Vec<FunctionCallOutputContentItem>),
}

/// The model of a [`FunctionCallOutputBody`].
pub enum OutputBodyModel {
    Text(Seq<char>),
    ContentItems(Seq<OutputPartModel>),
}

/// The models of a list of tool-output parts.
pub open spec fn output_parts_view(parts: Seq<FunctionCallOutputContentItem>) -> Seq<
    OutputPartModel,
> {
    parts.map_values(|p: FunctionCallOutputContentItem| p@)
}

impl View for FunctionCallOutputBody {
    type V = OutputBodyModel;

    open spec fn view(&self) -> OutputBodyModel {
        match self {
            FunctionCallOutputBody::Text(text) => OutputBodyModel::Text(text@),
            FunctionCallOutputBody::ContentItems(parts) => OutputBodyModel::ContentItems(
                output_parts_view(parts@),
            ),
        }
    }
}

/// What a tool call returned.
#[derive(Debug, Clone, PartialEq)]
pub struct FunctionCallOutputPayload {
    pub body: FunctionCallOutputBody,
    pub success: Option<bool>,
}

/// The model of a [`FunctionCallOutputPayload`].
pub struct PayloadModel {
    pub body: OutputBodyModel,
    pub success: Option<bool>,
}

impl View for FunctionCallOutputPayload {
    type V = PayloadModel;

    open spec fn view(&self) -> PayloadModel {
        PayloadModel { body: self.body@, success: self.success }
    }
}

impl FunctionCallOutputPayload {
    /// A payload that is the given text, with no success flag.
    pub fn from_text(content: String) -> (payload: Self)
        ensures
            payload@ == (PayloadModel { body: OutputBodyModel::Text(content@), success: None }),
    {
        FunctionCallOutputPayload { body: FunctionCallOutputBody::Text(content), success: None }
    }

    /// A payload that is the given list of parts, with no success flag.
    pub fn from_content_items(items: Vec<FunctionCallOutputContentItem>) -> (payload: Self)
        ensures
            payload@ == (PayloadModel {
                body: OutputBodyModel::ContentItems(output_parts_view(items@)),
                success: None,
            }),
    {
        FunctionCallOutputPayload {
            body: FunctionCallOutputBody::ContentItems(items),
            success: None,
        }
    }

    /// The text of a text payload; `None` for a list of parts.
    pub fn text_content(&self) -> (text: Option<&str>)
        ensures
            match self@.body {
                OutputBodyModel::Text(t) => text matches Some(s) && s@ == t,
                OutputBodyModel::ContentItems(_) => text is None,
            },
    {
        match &self.body {
            FunctionCallOutputBody::Text(content) => Some(content.as_str()),
            FunctionCallOutputBody::ContentItems(_) => None,
        }
    }
}

impl FunctionCallOutputPayload {
    /// The parts of a list payload; `None` for a text payload.
    pub fn content_items(&self) -> (parts: Option<&Vec<FunctionCallOutputContentItem>>)
        ensures
            match self@.body {
                OutputBodyModel::Text(_) => parts is None,
                OutputBodyModel::ContentItems(m) => parts matches Some(v) && output_parts_view(v@)
                    == m,
            },
    {
        match &self.body {
            FunctionCallOutputBody::Text(_) => None,
            FunctionCallOutputBody::ContentItems(items) => Some(items),
        }
    }
}

/// A part of the content of a reasoning item.
#[derive(Debug, Clone, PartialEq)]
pub enum ReasoningItemContent {
    ReasoningText { text: String },
    Text { text: String },
}

/// A part of the summary of a reasoning item.
#[derive(Debug, Clone, PartialEq)]
pub enum ReasoningItemReasoningSummary {
    SummaryText { text: String },
}

/// The phase a message belongs to.
#[derive(Debug, Clone, Copy, PartialEq, Eq)]
pub enum MessagePhase {
    Commentary,
    FinalAnswer,
}

/// One item of a conversation as it is sent to a model service.
#[derive(Debug, Clone, PartialEq)]
pub enum ResponseItem {
    Message {
        id: Option<String>,
        role: String,
        content: Vec<ContentItem>,
        phase: Option<MessagePhase>,
    },
    Reasoning {
        id: Option<String>,
        summary: Vec<ReasoningItemReasoningSummary>,
        content: Option<Vec<ReasoningItemContent>>,
        encrypted_content: Option<String>,
    },
    LocalShellCall { id: Option<String>, call_id: Option<String>, command: Vec<String> },
    FunctionCall {
        id: Option<String>,
        name: String,
        namespace: Option<String>,
        arguments: String,
        call_id: String,
    },
    ToolSearchCall { id: Option<String>, call_id: Option<String>, query: String },
    FunctionCallOutput {
        id: Option<String>,
        call_id: Option<String>,
        name: Option<String>,
        namespace: Option<String>,
        output: FunctionCallOutputPayload,
    },
    CustomToolCall { id: Option<String>, call_id: String, name: String, input: String },
    CustomToolCallOutput {
        id: Option<String>,
        call_id: String,
        name: Option<String>,
        output: FunctionCallOutputPayload,
    },
    Other,
}

/// The model of a [`ResponseItem`].
pub enum ItemModel {
    Message {
        id: Option<Seq<char>>,
        role: Seq<char>,
        content: Seq<ContentModel>,
        phase: Option<MessagePhase>,
    },
    Reasoning {
        id: Option<Seq<char>>,
        summary: Seq<Seq<char>>,
        content: Option<Seq<ReasoningContentModel>>,
        encrypted_content: Option<Seq<char>>,
    },
    LocalShellCall { id: Option<Seq<char>>, call_id: Option<Seq<char>>, command: Seq<Seq<char>> },
    FunctionCall {
        id: Option<Seq<char>>,
        name: Seq<char>,
        namespace: Option<Seq<char>>,
        arguments: Seq<char>,
        call_id: Seq<char>,
    },
    ToolSearchCall { id: Option<Seq<char>>, call_id: Option<Seq<char>>, query: Seq<char> },
    FunctionCallOutput {
        id: Option<Seq<char>>,
        call_id: Option<Seq<char>>,
        name: Option<Seq<char>>,
        namespace: Option<Seq<char>>,
        output: PayloadModel,
    },
    CustomToolCall { id: Option<Seq<char>>, call_id: Seq<char>, name: Seq<char>, input: Seq<char> },
    CustomToolCallOutput {
        id: Option<Seq<char>>,
        call_id: Seq<char>,
        name: Option<Seq<char>>,
        output: PayloadModel,
    },
    Other,
}

/// The characters of an optional string.
pub open spec fn opt_text(s: Option<String>) -> Option<Seq<char>> {
    match s {
        Some(t) => Some(t@),
        None => None,
    }
}

/// The characters of each string of a list.
pub open spec fn texts(v: Seq<String>) -> Seq<Seq<char>> {
    v.map_values(|s: String| s@)
}

/// The models of a list of message parts.
pub open spec fn content_view(parts: Seq<ContentItem>) -> Seq<ContentModel> {
    parts.map_values(|p: ContentItem| p@)
}

/// The model of a [`ReasoningItemContent`].
pub enum ReasoningContentModel {
    ReasoningText { text: Seq<char> },
    Text { text: Seq<char> },
}

impl View for ReasoningItemContent {
    type V = ReasoningContentModel;

    open spec fn view(&self) -> ReasoningContentModel {
        match self {
            ReasoningItemContent::ReasoningText { text } => ReasoningContentModel::ReasoningText {
                text: text@,
            },
            ReasoningItemContent::Text { text } => ReasoningContentModel::Text { text: text@ },
        }
    }
}

/// The text of a reasoning summary part.
pub open spec fn summary_text(part: ReasoningItemReasoningSummary) -> Seq<char> {
    match part {
        ReasoningItemReasoningSummary::SummaryText { text } => text@,
    }
}

impl View for ResponseItem {
    type V = ItemModel;

    open spec fn view(&self) -> ItemModel {
        match self {
            ResponseItem::Message { id, role, content, phase } => ItemModel::Message {
                id: opt_text(*id),
                role: role@,
                content: content_view(content@),
                phase: *phase,
            },
            ResponseItem::Reasoning { id, summary, content, encrypted_content } =>
                ItemModel::Reasoning {
                id: opt_text(*id),
                summary: summary@.map_values(|p: ReasoningItemReasoningSummary| summary_text(p)),
                content: match content {
                    Some(parts) => Some(
                        parts@.map_values(|p: ReasoningItemContent| p@),
                    ),
                    None => None,
                },
                encrypted_content: opt_text(*encrypted_content),
            },
            ResponseItem::LocalShellCall { id, call_id, command } => ItemModel::LocalShellCall {
                id: opt_text(*id),
                call_id: opt_text(*call_id),
                command: texts(command@),
            },
            ResponseItem::FunctionCall { id, name, namespace, arguments, call_id } =>
                ItemModel::FunctionCall {
                id: opt_text(*id),
                name: name@,
                namespace: opt_text(*namespace),
                arguments: arguments@,
                call_id: call_id@,
            },
            ResponseItem::ToolSearchCall { id, call_id, query } => ItemModel::ToolSearchCall {
                id: opt_text(*id),
                call_id: opt_text(*call_id),
                query: query@,
            },
            ResponseItem::FunctionCallOutput { id, call_id, name, namespace, output } =>
                ItemModel::FunctionCallOutput {
                id: opt_text(*id),
                call_id: opt_text(*call_id),
                name: opt_text(*name),
                namespace: opt_text(*namespace),
                output: output@,
            },
            ResponseItem::CustomToolCall { id, call_id, name, input } =>
                ItemModel::CustomToolCall {
                id: opt_text(*id),
                call_id: call_id@,
                name: name@,
                input: input@,
            },
            ResponseItem::CustomToolCallOutput { id, call_id, name, output } =>
                ItemModel::CustomToolCallOutput {
                id: opt_text(*id),
                call_id: call_id@,
                name: opt_text(*name),
                output: output@,
            },
            ResponseItem::Other => ItemModel::Other,
        }
    }
}

/// A tool output: the item that answers a call.
pub open spec fn is_output_model(item: ItemModel) -> bool {
    item is FunctionCallOutput || item is CustomToolCallOutput
}

/// A call of any kind that a provider expects to be followed by its answer.
pub open spec fn is_call_model(item: ItemModel) -> bool {
    ||| item is FunctionCall
    ||| item is CustomToolCall
    ||| item is LocalShellCall
    ||| item is ToolSearchCall
}

/// Whether the item is a tool output.
pub fn is_tool_output(item: &ResponseItem) -> (r: bool)
    ensures
        r == is_output_model(item@),
{
    matches!(item, ResponseItem::FunctionCallOutput { .. } | ResponseItem::CustomToolCallOutput { .. })
}

/// Whether the item is a call of any kind.
pub fn is_call_family(item: &ResponseItem) -> (r: bool)
    ensures
        r == is_call_model(item@),
{
    matches!(
        item,
        ResponseItem::FunctionCall { .. } | ResponseItem::CustomToolCall { .. }
            | ResponseItem::LocalShellCall { .. } | ResponseItem::ToolSearchCall { .. }
    )
}

} // verus!
