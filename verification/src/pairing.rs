//! A provider rejects a request whose tool call has no output, and one whose
//! output has no call. This pass keeps the copy transportable: it
//! synthesizes a text-only output for a dangling call and drops an output
//! whose call is gone.

use vstd::prelude::*;

use crate::items::{
    is_output_model, is_tool_output, opt_text, FunctionCallOutputPayload, ItemModel,
    OutputBodyModel, PayloadModel, ResponseItem,
};
use crate::prompt_copy::{copy_views, lemma_copy_views_push, CopyView, PromptCopyItem};

verus! {

/// Text of the output that stands in for one that is not transported. The
/// durable history keeps the real output; the provider receives a paired,
/// text-only stand-in instead of a broken request shape.
pub const OMITTED_TOOL_OUTPUT_PLACEHOLDER: &'static str =
    "[tool output omitted before transport by the local client; the original output is present in local task history]";

/// The id of a call, for every kind of call that carries one: function
/// calls and custom tool calls always do, local shell calls and tool search
/// calls may.
pub open spec fn call_id_of(item: ItemModel) -> Option<Seq<char>> {
    match item {
        ItemModel::FunctionCall { call_id, .. } => Some(call_id),
        ItemModel::CustomToolCall { call_id, .. } => Some(call_id),
        ItemModel::LocalShellCall { call_id, .. } => call_id,
        ItemModel::ToolSearchCall { call_id, .. } => call_id,
        _ => None,
    }
}

/// The id of the call that a tool output answers, where it names one.
pub open spec fn output_id_of(item: ItemModel) -> Option<Seq<char>> {
    match item {
        ItemModel::FunctionCallOutput { call_id, .. } => call_id,
        ItemModel::CustomToolCallOutput { call_id, .. } => Some(call_id),
        _ => None,
    }
}

/// Some call in the copy has this id.
pub open spec fn has_call(items: Seq<CopyView>, id: Seq<char>) -> bool {
    exists|i: int| 0 <= i < items.len() && call_id_of(#[trigger] items[i].item) == Some(id)
}

/// Some tool output in the copy answers this id.
pub open spec fn has_output(items: Seq<CopyView>, id: Seq<char>) -> bool {
    exists|i: int| 0 <= i < items.len() && output_id_of(#[trigger] items[i].item) == Some(id)
}

/// An entry stays in the copy unless it is a tool output whose call is not in
/// `all`.
pub open spec fn keeps_entry(entry: CopyView, all: Seq<CopyView>) -> bool {
    is_output_model(entry.item) ==> (output_id_of(entry.item) matches Some(id) && has_call(
        all,
        id,
    ))
}

/// The entry is a call that no tool output in `all` answers.
pub open spec fn is_dangling_call(entry: CopyView, all: Seq<CopyView>) -> bool {
    call_id_of(entry.item) matches Some(id) && !has_output(all, id)
}

/// The payload of a stand-in output.
pub open spec fn placeholder_payload() -> PayloadModel {
    PayloadModel {
        body: OutputBodyModel::Text(OMITTED_TOOL_OUTPUT_PLACEHOLDER@),
        success: None,
    }
}

/// The output that stands in for a call's missing one: a custom tool output
/// for a custom tool call, a function call output for every other kind of
/// call (named after the call where the call has a name).
pub open spec fn stand_in_output(item: ItemModel) -> ItemModel {
    match item {
        ItemModel::FunctionCall { name, namespace, call_id, .. } => ItemModel::FunctionCallOutput {
            id: None,
            call_id: Some(call_id),
            name: Some(name),
            namespace,
            output: placeholder_payload(),
        },
        ItemModel::CustomToolCall { call_id, name, .. } => ItemModel::CustomToolCallOutput {
            id: None,
            call_id,
            name: Some(name),
            output: placeholder_payload(),
        },
        ItemModel::LocalShellCall { call_id, .. } => ItemModel::FunctionCallOutput {
            id: None,
            call_id,
            name: None,
            namespace: None,
            output: placeholder_payload(),
        },
        ItemModel::ToolSearchCall { call_id, .. } => ItemModel::FunctionCallOutput {
            id: None,
            call_id,
            name: None,
            namespace: None,
            output: placeholder_payload(),
        },
        _ => item,
    }
}

/// What an entry becomes: nothing for an output whose call is gone, the call
/// and a stand-in for a dangling call, and the entry itself otherwise.
pub open spec fn repaired_entry(entry: CopyView, all: Seq<CopyView>) -> Seq<CopyView> {
    if !keeps_entry(entry, all) {
        Seq::empty()
    } else if is_dangling_call(entry, all) {
        seq![entry, CopyView::bare(stand_in_output(entry.item))]
    } else {
        seq![entry]
    }
}

/// The repaired form of the first `n` entries of `all`.
pub open spec fn repaired_prefix(all: Seq<CopyView>, n: int) -> Seq<CopyView>
    decreases n,
{
    if n <= 0 {
        Seq::empty()
    } else {
        repaired_prefix(all, n - 1) + repaired_entry(all[n - 1], all)
    }
}

/// The copy after pairing repair.
pub open spec fn repaired_pairing(all: Seq<CopyView>) -> Seq<CopyView> {
    repaired_prefix(all, all.len() as int)
}

/// The number of stand-in outputs the repair inserts.
pub open spec fn inserted_count(all: Seq<CopyView>) -> nat {
    all.filter(|e: CopyView| is_dangling_call(e, all)).len()
}

/// The number of outputs the repair removes.
pub open spec fn removed_count(all: Seq<CopyView>) -> nat {
    all.filter(|e: CopyView| !keeps_entry(e, all)).len()
}

/// Some string of the list has these characters.
pub open spec fn id_listed(ids: Seq<String>, id: Seq<char>) -> bool {
    exists|j: int| 0 <= j < ids.len() && (#[trigger] ids[j])@ == id
}

fn contains_id(ids: &Vec<String>, id: &String) -> (r: bool)
    ensures
        r == id_listed(ids@, id@),
{
    let mut j: usize = 0;
    while j < ids.len()
        invariant
            j <= ids@.len(),
            forall|k: int| 0 <= k < j ==> (#[trigger] ids@[k])@ != id@,
        decreases ids@.len() - j,
    {
        if ids[j] == *id {
            return true;
        }
        j = j + 1;
    }
    false
}

proof fn lemma_id_listed_push(ids: Seq<String>, s: String)
    ensures
        forall|id: Seq<char>| #[trigger]
            id_listed(ids.push(s), id) == (id_listed(ids, id) || s@ == id),
{
    assert forall|id: Seq<char>| #[trigger]
        id_listed(ids.push(s), id) == (id_listed(ids, id) || s@ == id) by {
        if id_listed(ids, id) {
            let j = choose|j: int| 0 <= j < ids.len() && (#[trigger] ids[j])@ == id;
            assert(ids.push(s)[j] == ids[j]);
        }
        if s@ == id {
            assert(ids.push(s)[ids.len() as int] == s);
        }
        if id_listed(ids.push(s), id) {
            let j = choose|j: int| 0 <= j < ids.len() + 1 && (#[trigger] ids.push(s)[j])@ == id;
            if j < ids.len() {
                assert(ids[j] == ids.push(s)[j]);
            }
        }
    }
}

proof fn lemma_has_ids_take(all: Seq<CopyView>, i: int)
    requires
        0 <= i < all.len(),
    ensures
        forall|id: Seq<char>| #[trigger]
            has_call(all.take(i + 1), id) == (has_call(all.take(i), id) || call_id_of(all[i].item)
                == Some(id)),
        forall|id: Seq<char>| #[trigger]
            has_output(all.take(i + 1), id) == (has_output(all.take(i), id) || output_id_of(
                all[i].item,
            ) == Some(id)),
{
    let a = all.take(i);
    let b = all.take(i + 1);
    assert forall|id: Seq<char>| #[trigger]
        has_call(b, id) == (has_call(a, id) || call_id_of(all[i].item) == Some(id)) by {
        if has_call(a, id) {
            let k = choose|k: int| 0 <= k < a.len() && call_id_of(#[trigger] a[k].item) == Some(id);
            assert(b[k] == a[k]);
        }
        if call_id_of(all[i].item) == Some(id) {
            assert(b[i] == all[i]);
        }
        if has_call(b, id) {
            let k = choose|k: int| 0 <= k < b.len() && call_id_of(#[trigger] b[k].item) == Some(id);
            if k < i {
                assert(a[k] == b[k]);
            }
        }
    }
    assert forall|id: Seq<char>| #[trigger]
        has_output(b, id) == (has_output(a, id) || output_id_of(all[i].item) == Some(id)) by {
        if has_output(a, id) {
            let k = choose|k: int|
                0 <= k < a.len() && output_id_of(#[trigger] a[k].item) == Some(id);
            assert(b[k] == a[k]);
        }
        if output_id_of(all[i].item) == Some(id) {
            assert(b[i] == all[i]);
        }
        if has_output(b, id) {
            let k = choose|k: int|
                0 <= k < b.len() && output_id_of(#[trigger] b[k].item) == Some(id);
            if k < i {
                assert(a[k] == b[k]);
            }
        }
    }
}

fn clone_text_option(s: &Option<String>) -> (r: Option<String>)
    ensures
        opt_text(r) == opt_text(*s),
{
    match s {
        Some(t) => Some(t.clone()),
        None => None,
    }
}

/// Lists the ids of all calls and of all answered calls in the copy.
fn collect_call_ids<T: PromptCopyItem>(items: &Vec<T>) -> (ids: (Vec<String>, Vec<String>))
    ensures
        forall|id: Seq<char>| #[trigger]
            id_listed(ids.0@, id) == has_call(copy_views(items@), id),
        forall|id: Seq<char>| #[trigger]
            id_listed(ids.1@, id) == has_output(copy_views(items@), id),
{
    let ghost all = copy_views(items@);
    let mut call_ids: Vec<String> = Vec::new();
    let mut output_ids: Vec<String> = Vec::new();
    let mut i: usize = 0;
    assert forall|id: Seq<char>| !has_call(all.take(0), id) && !has_output(all.take(0), id) by {}
    while i < items.len()
        invariant
            all == copy_views(items@),
            i <= items@.len(),
            forall|id: Seq<char>| #[trigger]
                id_listed(call_ids@, id) == has_call(all.take(i as int), id),
            forall|id: Seq<char>| #[trigger]
                id_listed(output_ids@, id) == has_output(all.take(i as int), id),
        decreases items@.len() - i,
    {
        proof {
            lemma_has_ids_take(all, i as int);
        }
        let ghost before_calls = call_ids@;
        let ghost before_outputs = output_ids@;
        match items[i].response_item() {
            ResponseItem::FunctionCall { call_id, .. } => {
                let listed = call_id.clone();
                let ghost listed_view = listed;
                call_ids.push(listed);
                proof {
                    lemma_id_listed_push(before_calls, listed_view);
                }
            },
            ResponseItem::CustomToolCall { call_id, .. } => {
                let listed = call_id.clone();
                let ghost listed_view = listed;
                call_ids.push(listed);
                proof {
                    lemma_id_listed_push(before_calls, listed_view);
                }
            },
            ResponseItem::LocalShellCall { call_id: Some(call_id), .. }
            | ResponseItem::ToolSearchCall { call_id: Some(call_id), .. } => {
                let listed = call_id.clone();
                let ghost listed_view = listed;
                call_ids.push(listed);
                proof {
                    lemma_id_listed_push(before_calls, listed_view);
                }
            },
            ResponseItem::FunctionCallOutput { call_id, .. } => {
                if let Some(call_id) = call_id {
                    let listed = call_id.clone();
                    let ghost listed_view = listed;
                    output_ids.push(listed);
                    proof {
                        lemma_id_listed_push(before_outputs, listed_view);
                    }
                }
            },
            ResponseItem::CustomToolCallOutput { call_id, .. } => {
                let listed = call_id.clone();
                let ghost listed_view = listed;
                output_ids.push(listed);
                proof {
                    lemma_id_listed_push(before_outputs, listed_view);
                }
            },
            _ => {},
        }
        i = i + 1;
    }
    assert(all.take(items@.len() as int) =~= all);
    (call_ids, output_ids)
}

/// Gives every dangling call a stand-in output right after it and drops every
/// output whose call is not in the copy. Returns the new copy, the number of
/// stand-ins inserted and the number of outputs removed.
pub fn repair_tool_call_pairing<T: PromptCopyItem>(items: Vec<T>) -> (result: (
    Vec<T>,
    usize,
    usize,
))
    ensures
        copy_views(result.0@) == repaired_pairing(copy_views(items@)),
        result.1 == inserted_count(copy_views(items@)),
        result.2 == removed_count(copy_views(items@)),
{
    let ghost all = copy_views(items@);
    let (call_ids, output_ids) = collect_call_ids(&items);
    let ghost dangling = |e: CopyView| is_dangling_call(e, all);
    let ghost dropped = |e: CopyView| !keeps_entry(e, all);
    let count: usize = items.len();
    let mut inserted: usize = 0;
    let mut removed: usize = 0;
    let mut repaired: Vec<T> = Vec::with_capacity(count);
    assert(all.take(0).filter(dangling) =~= Seq::<CopyView>::empty()) by {
        reveal_with_fuel(Seq::<_>::filter, 1);
    }
    assert(all.take(0).filter(dropped) =~= Seq::<CopyView>::empty()) by {
        reveal_with_fuel(Seq::<_>::filter, 1);
    }
    assert(copy_views(repaired@) =~= Seq::<CopyView>::empty());
    for item in it: items
        invariant
            all == copy_views(it.seq()),
            it.seq().len() == count,
            dangling == (|e: CopyView| is_dangling_call(e, all)),
            dropped == (|e: CopyView| !keeps_entry(e, all)),
            forall|id: Seq<char>| #[trigger] id_listed(call_ids@, id) == has_call(all, id),
            forall|id: Seq<char>| #[trigger] id_listed(output_ids@, id) == has_output(all, id),
            copy_views(repaired@) == repaired_prefix(all, it.index() as int),
            inserted == all.take(it.index()).filter(dangling).len(),
            removed == all.take(it.index()).filter(dropped).len(),
    {
        let ghost i: int = it.index();
        let ghost entry = all[i];
        proof {
            assert(all.take(i + 1) =~= all.take(i).push(entry));
            all.take(i).lemma_filter_push(entry, dangling);
            all.take(i).lemma_filter_push(entry, dropped);
            all.take(i).lemma_filter_len(dangling);
            all.take(i).lemma_filter_len(dropped);
            assert(entry == item.copy_view());
        }
        let (keep, stand_in) = match item.response_item() {
            current if is_tool_output(current) => {
                let known = match current {
                    ResponseItem::FunctionCallOutput { call_id, .. } => match call_id {
                        Some(call_id) => contains_id(&call_ids, call_id),
                        None => false,
                    },
                    ResponseItem::CustomToolCallOutput { call_id, .. } => contains_id(
                        &call_ids,
                        call_id,
                    ),
                    _ => true,
                };
                (known, None)
            },
            ResponseItem::FunctionCall { call_id, name, namespace, .. } => {
                if contains_id(&output_ids, call_id) {
                    (true, None)
                } else {
                    (
                        true,
                        Some(
                            ResponseItem::FunctionCallOutput {
                                id: None,
                                call_id: Some(call_id.clone()),
                                name: Some(name.clone()),
                                namespace: clone_text_option(namespace),
                                output: FunctionCallOutputPayload::from_text(
                                    OMITTED_TOOL_OUTPUT_PLACEHOLDER.to_owned(),
                                ),
                            },
                        ),
                    )
                }
            },
            ResponseItem::CustomToolCall { call_id, name, .. } => {
                if contains_id(&output_ids, call_id) {
                    (true, None)
                } else {
                    (
                        true,
                        Some(
                            ResponseItem::CustomToolCallOutput {
                                id: None,
                                call_id: call_id.clone(),
                                name: Some(name.clone()),
                                output: FunctionCallOutputPayload::from_text(
                                    OMITTED_TOOL_OUTPUT_PLACEHOLDER.to_owned(),
                                ),
                            },
                        ),
                    )
                }
            },
            ResponseItem::LocalShellCall { call_id: Some(call_id), .. }
            | ResponseItem::ToolSearchCall { call_id: Some(call_id), .. } => {
                if contains_id(&output_ids, call_id) {
                    (true, None)
                } else {
                    (
                        true,
                        Some(
                            ResponseItem::FunctionCallOutput {
                                id: None,
                                call_id: Some(call_id.clone()),
                                name: None,
                                namespace: None,
                                output: FunctionCallOutputPayload::from_text(
                                    OMITTED_TOOL_OUTPUT_PLACEHOLDER.to_owned(),
                                ),
                            },
                        ),
                    )
                }
            },
            _ => (true, None),
        };
        proof {
            assert(keep == keeps_entry(entry, all));
            assert(stand_in is Some == is_dangling_call(entry, all));
            if stand_in is Some {
                assert(stand_in->0@ == stand_in_output(entry.item));
            }
        }
        if !keep {
            removed = removed + 1;
        } else {
            let ghost before = repaired@;
            repaired.push(item);
            proof {
                lemma_copy_views_push(before, item);
            }
            if let Some(stand_in) = stand_in {
                inserted = inserted + 1;
                let ghost before = repaired@;
                let entry_out = T::from_response_item(stand_in);
                repaired.push(entry_out);
                proof {
                    lemma_copy_views_push(before, entry_out);
                }
            }
        }
        proof {
            assert(copy_views(repaired@) =~= repaired_prefix(all, i + 1));
        }
    }
    assert(all.take(all.len() as int) =~= all);
    (repaired, inserted, removed)
}

} // verus!
