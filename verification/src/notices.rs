//! Image resize notices: developer messages that the client writes after a
//! tool output to say that an image in it was resized. Providers that fail to
//! associate a tool output with the item after a message need the notice
//! folded back into the item it follows.

use vstd::prelude::*;
use vstd::string::*;
use vstd::utf8::encode_utf8;

use crate::items::{
    content_view, output_parts_view, ContentItem, ContentModel, FunctionCallOutputBody,
    FunctionCallOutputContentItem, FunctionCallOutputPayload, ItemModel, OutputBodyModel,
    OutputPartModel, PayloadModel, ResponseItem,
};
use crate::prompt_copy::{copy_views, CopyView, PromptCopyItem};
use crate::text::{byte_len, contains_bytes, contains_str, str_equal};

verus! {

/// Opening marker of an image resize notice.
pub const IMAGE_RESIZE_NOTICE_START: &'static str = "<image_resize_notice>";

/// Closing marker of an image resize notice.
pub const IMAGE_RESIZE_NOTICE_END: &'static str = "</image_resize_notice>";

/// The role of the messages that carry notices.
pub const DEVELOPER_ROLE: &'static str = "developer";

/// The text of a message part that is input text.
pub open spec fn input_text_of(part: ContentModel) -> Seq<char> {
    match part {
        ContentModel::InputText { text } => text,
        _ => Seq::empty(),
    }
}

/// Of a list of input-text parts, the text of the first part whose UTF-8
/// encoding is longest.
pub open spec fn longest_text(parts: Seq<ContentModel>) -> Seq<char>
    decreases parts.len(),
{
    if parts.len() <= 1 {
        input_text_of(parts[0])
    } else {
        let previous = longest_text(parts.drop_last());
        let current = input_text_of(parts.last());
        if byte_len(previous) < byte_len(current) {
            current
        } else {
            previous
        }
    }
}

/// Every part of the list is input text.
pub open spec fn all_input_text(parts: Seq<ContentModel>) -> bool {
    forall|i: int| 0 <= i < parts.len() ==> #[trigger] parts[i] is InputText
}

/// The text carries both markers of an image resize notice.
pub open spec fn has_notice_markers(text: Seq<char>) -> bool {
    &&& contains_bytes(encode_utf8(text), IMAGE_RESIZE_NOTICE_START.spec_bytes())
    &&& contains_bytes(encode_utf8(text), IMAGE_RESIZE_NOTICE_END.spec_bytes())
}

/// The notice that an item is, if it is one: a developer message made only of
/// input text whose longest part carries both notice markers.
pub open spec fn notice_text(item: ItemModel) -> Option<Seq<char>> {
    match item {
        ItemModel::Message { role, content, .. } => {
            if role == DEVELOPER_ROLE@ && content.len() > 0 && all_input_text(content)
                && has_notice_markers(longest_text(content)) {
                Some(longest_text(content))
            } else {
                None
            }
        },
        _ => None,
    }
}

/// The item can take a text appended to its content.
pub open spec fn accepts_text(item: ItemModel) -> bool {
    ||| item is Message
    ||| item is FunctionCallOutput
    ||| item is CustomToolCallOutput
}

/// A payload with a text part appended: a text payload becomes a list of its
/// text and the new text (with no success flag); a list gets one more part.
pub open spec fn payload_with_text(payload: PayloadModel, text: Seq<char>) -> PayloadModel {
    match payload.body {
        OutputBodyModel::Text(existing) => PayloadModel {
            body: OutputBodyModel::ContentItems(
                seq![
                    OutputPartModel::InputText { text: existing },
                    OutputPartModel::InputText { text },
                ],
            ),
            success: None,
        },
        OutputBodyModel::ContentItems(parts) => PayloadModel {
            body: OutputBodyModel::ContentItems(parts.push(OutputPartModel::InputText { text })),
            success: payload.success,
        },
    }
}

/// The item with a text appended to its content; an item that cannot take
/// text is returned as it is.
pub open spec fn with_text_appended(item: ItemModel, text: Seq<char>) -> ItemModel {
    match item {
        ItemModel::Message { id, role, content, phase } => ItemModel::Message {
            id,
            role,
            content: content.push(ContentModel::InputText { text }),
            phase,
        },
        ItemModel::FunctionCallOutput { id, call_id, name, namespace, output } =>
            ItemModel::FunctionCallOutput {
            id,
            call_id,
            name,
            namespace,
            output: payload_with_text(output, text),
        },
        ItemModel::CustomToolCallOutput { id, call_id, name, output } =>
            ItemModel::CustomToolCallOutput {
            id,
            call_id,
            name,
            output: payload_with_text(output, text),
        },
        _ => item,
    }
}

/// The copy after folding notices, item by item from the front: a notice
/// whose predecessor in the result can take text is appended to it and
/// dropped; every other item is kept.
pub open spec fn merged_notices(items: Seq<CopyView>) -> Seq<CopyView>
    decreases items.len(),
{
    if items.len() == 0 {
        Seq::empty()
    } else {
        let previous = merged_notices(items.drop_last());
        let item = items.last();
        match notice_text(item.item) {
            Some(notice) => {
                if previous.len() > 0 && accepts_text(previous.last().item) {
                    previous.update(
                        previous.len() - 1,
                        previous.last().with_item(with_text_appended(previous.last().item, notice)),
                    )
                } else {
                    previous.push(item)
                }
            },
            None => previous.push(item),
        }
    }
}

/// The notice text of an item, borrowed from it.
pub fn image_resize_notice_text(item: &ResponseItem) -> (text: Option<&str>)
    ensures
        match text {
            Some(t) => notice_text(item@) == Some(t@),
            None => notice_text(item@) is None,
        },
{
    let (role, content) = match item {
        ResponseItem::Message { role, content, .. } => (role, content),
        _ => {
            return None;
        },
    };
    if !str_equal(role.as_str(), DEVELOPER_ROLE) {
        return None;
    }
    let ghost parts = content_view(content@);
    let mut text: Option<&str> = None;
    let mut i: usize = 0;
    while i < content.len()
        invariant
            parts == content_view(content@),
            item@ is Message,
            item@->Message_content == parts,
            item@->Message_role == DEVELOPER_ROLE@,
            i <= content@.len(),
            all_input_text(parts.take(i as int)),
            i == 0 ==> text is None,
            i > 0 ==> (text matches Some(t) && t@ == longest_text(parts.take(i as int))),
        decreases content@.len() - i,
    {
        let part_text = match &content[i] {
            ContentItem::InputText { text: part_text } => part_text,
            _ => {
                assert(!(parts[i as int] is InputText));
                assert(!all_input_text(parts));
                return None;
            },
        };
        proof {
            assert(parts.take(i + 1).drop_last() =~= parts.take(i as int));
            assert(parts.take(i + 1).last() == parts[i as int]);
        }
        match text {
            None => {
                text = Some(part_text.as_str());
            },
            Some(existing) => {
                if existing.as_bytes().len() < part_text.as_str().as_bytes().len() {
                    text = Some(part_text.as_str());
                }
            },
        }
        assert(all_input_text(parts.take(i + 1))) by {
            assert forall|j: int| 0 <= j < i + 1 implies #[trigger] parts.take(i + 1)[j] is InputText by {
                if j < i {
                    assert(parts.take(i + 1)[j] == parts.take(i as int)[j]);
                }
            }
        }
        i = i + 1;
    }
    let text = match text {
        Some(t) => t,
        None => {
            return None;
        },
    };
    assert(parts.take(content@.len() as int) =~= parts);
    if contains_str(text, IMAGE_RESIZE_NOTICE_START) && contains_str(text, IMAGE_RESIZE_NOTICE_END) {
        Some(text)
    } else {
        None
    }
}

/// Appends a text part to a tool-output payload.
fn append_text_to_payload(output: &mut FunctionCallOutputPayload, text: &str)
    ensures
        final(output)@ == payload_with_text(old(output)@, text@),
{
    if let Some(existing) = output.text_content() {
        let existing = existing.to_owned();
        let mut parts: Vec<FunctionCallOutputContentItem> = Vec::new();
        parts.push(FunctionCallOutputContentItem::InputText { text: existing });
        parts.push(FunctionCallOutputContentItem::InputText { text: text.to_owned() });
        proof {
            assert(output_parts_view(parts@) =~= seq![
                OutputPartModel::InputText { text: old(output)@.body->Text_0 },
                OutputPartModel::InputText { text: text@ },
            ]);
        }
        *output = FunctionCallOutputPayload::from_content_items(parts);
        return;
    }
    match &mut output.body {
        FunctionCallOutputBody::ContentItems(content) => {
            let ghost before = content@;
            content.push(FunctionCallOutputContentItem::InputText { text: text.to_owned() });
            proof {
                assert(output_parts_view(content@) =~= output_parts_view(before).push(
                    OutputPartModel::InputText { text: text@ },
                ));
            }
        },
        FunctionCallOutputBody::Text(_) => {},
    }
}

/// Appends a text to the content of a message or a tool output. Returns
/// whether the item could take it; any other item is left as it was.
pub fn append_text_content(item: &mut ResponseItem, text: &str) -> (appended: bool)
    ensures
        appended == accepts_text(old(item)@),
        final(item)@ == with_text_appended(old(item)@, text@),
{
    match item {
        ResponseItem::Message { content, .. } => {
            let ghost before = content@;
            content.push(ContentItem::InputText { text: text.to_owned() });
            proof {
                assert(content_view(content@) =~= content_view(before).push(
                    ContentModel::InputText { text: text@ },
                ));
            }
            true
        },
        ResponseItem::FunctionCallOutput { output, .. } => {
            append_text_to_payload(output, text);
            true
        },
        ResponseItem::CustomToolCallOutput { output, .. } => {
            append_text_to_payload(output, text);
            true
        },
        _ => false,
    }
}

} // verus!

verus! {

/// Folds every notice into the item before it in the copy, where that item
/// can take text. Returns the new copy and the number of notices folded.
pub fn merge_image_resize_notices<T: PromptCopyItem>(items: Vec<T>) -> (result: (Vec<T>, usize))
    ensures
        copy_views(result.0@) == merged_notices(copy_views(items@)),
        result.1 == items@.len() - result.0@.len(),
{
    let ghost input = copy_views(items@);
    let count: usize = items.len();
    let mut merged: usize = 0;
    let mut output: Vec<T> = Vec::with_capacity(count);
    for item in it: items
        invariant
            input == copy_views(it.seq()),
            it.seq().len() == count,
            copy_views(output@) == merged_notices(input.take(it.index())),
            merged + output@.len() == it.index(),
    {
        proof {
            assert(input.take(it.index() + 1).drop_last() =~= input.take(it.index()));
        }
        let notice = match image_resize_notice_text(item.response_item()) {
            Some(text) => Some(text.to_owned()),
            None => None,
        };
        let mut folded = false;
        if let Some(notice) = notice {
            if let Some(mut previous) = output.pop() {
                folded = append_text_content(previous.response_item_mut(), notice.as_str());
                output.push(previous);
            }
        }
        if folded {
            merged = merged + 1;
        } else {
            output.push(item);
        }
    }
    assert(input.take(input.len() as int) =~= input);
    (output, merged)
}

} // verus!
