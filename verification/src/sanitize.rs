//! The whole normalization of an outbound prompt copy.
//!
//! Reasoning items a provider cannot take are dropped first. OpenAI gets the
//! copy as it then stands. Every other provider also gets the notice folding,
//! the message relocation and the pairing repair, in that order.

use vstd::prelude::*;
use vstd::string::*;

use crate::items::{ItemModel, ReasoningContentModel, ResponseItem};
use crate::notices::{merge_image_resize_notices, merged_notices};
use crate::pairing::{repair_tool_call_pairing, repaired_pairing};
use crate::prompt_copy::{
    copy_views, lemma_copy_views_push, CopyView, PromptCopyItem, ResponseItemEnvelope,
};
use crate::relocate::{relocate_messages_away_from_tool_outputs, relocated_messages};
use crate::text::{ascii_eq_ignore_case, eq_ignore_ascii_case};

verus! {

/// The provider id that selects the OpenAI rules, compared ignoring ASCII
/// case.
pub const OPENAI_PROVIDER_ID: &'static str = "openai";

/// The provider id names OpenAI, ignoring ASCII case.
pub open spec fn targets_openai(provider: Seq<u8>) -> bool {
    ascii_eq_ignore_case(provider, OPENAI_PROVIDER_ID.spec_bytes())
}

/// A reasoning item carries a non-empty list of plaintext parts.
pub open spec fn has_plaintext(content: Option<Seq<ReasoningContentModel>>) -> bool {
    content matches Some(parts) && parts.len() > 0
}

/// A reasoning item carries non-empty encrypted content.
pub open spec fn has_encrypted(encrypted: Option<Seq<char>>) -> bool {
    encrypted matches Some(text) && text.len() > 0
}

/// Whether an item may travel to the provider as far as reasoning goes:
/// OpenAI takes only encrypted-only reasoning, the others only reasoning with
/// plaintext. Items that are not reasoning always may.
pub open spec fn keeps_reasoning(item: ItemModel, target_is_openai: bool) -> bool {
    match item {
        ItemModel::Reasoning { content, encrypted_content, .. } => if target_is_openai {
            !has_plaintext(content) && has_encrypted(encrypted_content)
        } else {
            has_plaintext(content)
        },
        _ => true,
    }
}

/// The copy without the reasoning items the provider cannot take.
pub open spec fn kept_reasoning(items: Seq<CopyView>, target_is_openai: bool) -> Seq<CopyView> {
    items.filter(|e: CopyView| keeps_reasoning(e.item, target_is_openai))
}

/// The normalized copy for the provider with the given id (its UTF-8 bytes).
pub open spec fn sanitized(provider: Seq<u8>, items: Seq<CopyView>) -> Seq<CopyView> {
    let target_is_openai = targets_openai(provider);
    let kept = kept_reasoning(items, target_is_openai);
    if target_is_openai {
        kept
    } else {
        repaired_pairing(relocated_messages(merged_notices(kept)))
    }
}

fn keeps_for_target(item: &ResponseItem, target_is_openai: bool) -> (keep: bool)
    ensures
        keep == keeps_reasoning(item@, target_is_openai),
{
    match item {
        ResponseItem::Reasoning { content, encrypted_content, .. } => {
            let has_plaintext = match content {
                Some(value) => !value.is_empty(),
                None => false,
            };
            let has_encrypted = match encrypted_content {
                Some(value) => !value.as_str().is_empty(),
                None => false,
            };
            if target_is_openai {
                !has_plaintext && has_encrypted
            } else {
                has_plaintext
            }
        },
        _ => true,
    }
}

fn drop_incompatible_reasoning<T: PromptCopyItem>(items: Vec<T>, target_is_openai: bool) -> (kept:
    Vec<T>)
    ensures
        copy_views(kept@) == kept_reasoning(copy_views(items@), target_is_openai),
{
    let ghost input = copy_views(items@);
    let ghost keep = |e: CopyView| keeps_reasoning(e.item, target_is_openai);
    let count: usize = items.len();
    let mut filtered: Vec<T> = Vec::with_capacity(count);
    assert(input.take(0).filter(keep) =~= Seq::<CopyView>::empty()) by {
        reveal_with_fuel(Seq::<_>::filter, 1);
    }
    assert(copy_views(filtered@) =~= Seq::<CopyView>::empty());
    for item in it: items
        invariant
            input == copy_views(it.seq()),
            it.seq().len() == count,
            keep == (|e: CopyView| keeps_reasoning(e.item, target_is_openai)),
            copy_views(filtered@) == input.take(it.index()).filter(keep),
    {
        let ghost i: int = it.index();
        proof {
            assert(input.take(i + 1) =~= input.take(i).push(input[i]));
            input.take(i).lemma_filter_push(input[i], keep);
        }
        if keeps_for_target(item.response_item(), target_is_openai) {
            let ghost before = filtered@;
            filtered.push(item);
            proof {
                lemma_copy_views_push(before, item);
            }
        }
    }
    assert(input.take(input.len() as int) =~= input);
    filtered
}

/// Filters and normalizes an outbound request copy of either kind of item.
fn sanitize_items<T: PromptCopyItem>(target_provider_id: &str, items: Vec<T>) -> (result: Vec<T>)
    ensures
        copy_views(result@) == sanitized(target_provider_id.spec_bytes(), copy_views(items@)),
{
    let target_is_openai = eq_ignore_ascii_case(target_provider_id, OPENAI_PROVIDER_ID);
    let filtered = drop_incompatible_reasoning(items, target_is_openai);
    if target_is_openai {
        return filtered;
    }
    let (items, _merged_notices) = merge_image_resize_notices(filtered);
    let (items, _relocated_messages) = relocate_messages_away_from_tool_outputs(items);
    let (items, _inserted_outputs, _removed_outputs) = repair_tool_call_pairing(items);
    items
}

/// Filters and normalizes only an outbound request copy; the history it was
/// taken from is never modified.
pub fn sanitize_prompt_history(target_provider_id: &str, items: Vec<ResponseItem>) -> (result: Vec<
    ResponseItem,
>)
    ensures
        copy_views(result@) == sanitized(target_provider_id.spec_bytes(), copy_views(items@)),
{
    sanitize_items(target_provider_id, items)
}

/// The same normalization for a copy whose items carry harness metadata;
/// kept items keep their metadata.
pub fn sanitize_prompt_history_annotated(
    target_provider_id: &str,
    items: Vec<ResponseItemEnvelope>,
) -> (result: Vec<ResponseItemEnvelope>)
    ensures
        copy_views(result@) == sanitized(target_provider_id.spec_bytes(), copy_views(items@)),
{
    sanitize_items(target_provider_id, items)
}

} // verus!
