//! What holds of every prompt copy the passes produce.

use vstd::prelude::*;
use vstd::string::StringSliceAdditionalSpecFns;

use crate::items::{is_call_model, is_output_model, ItemModel};
use crate::pairing::{
    call_id_of, has_call, has_output, is_dangling_call, keeps_entry, output_id_of,
    inserted_count, removed_count, repaired_entry, repaired_pairing, repaired_prefix,
    stand_in_output,
};
use crate::prompt_copy::{CodexHarnessMetadata, CopyView};
use crate::relocate::{
    insertion_point, lemma_last_call_position_bounds, lemma_trailing_outputs_start_bounds,
    last_call_position, relocated_messages, relocation_scan, run_interrupts_pair,
    trailing_outputs_start, RelocationState,
};
use crate::items::{ContentModel, OutputBodyModel};
use crate::pairing::OMITTED_TOOL_OUTPUT_PLACEHOLDER;
use crate::notices::{
    accepts_text, input_text_of, longest_text, merged_notices, notice_text, with_text_appended,
    DEVELOPER_ROLE, IMAGE_RESIZE_NOTICE_END, IMAGE_RESIZE_NOTICE_START,
};
use crate::text::{byte_len, contains_bytes};
use vstd::utf8::encode_utf8;
use crate::sanitize::{kept_reasoning, keeps_reasoning, sanitized, targets_openai};
use crate::text::{ascii_eq_ignore_case, ascii_lower};

verus! {

/// Of an entry placed by the pairing repair: a call it names is a call of
/// `all`, and an output it is answers a call of `all`.
pub open spec fn answers_known_call(all: Seq<CopyView>, x: CopyView) -> bool {
    &&& (call_id_of(x.item) matches Some(id) ==> has_call(all, id))
    &&& (is_output_model(x.item) ==> (output_id_of(x.item) matches Some(id) && has_call(all, id)))
}

/// Every output of the copy answers a call of the copy.
pub open spec fn every_output_answers_a_call(items: Seq<CopyView>) -> bool {
    forall|i: int|
        0 <= i < items.len() && is_output_model(#[trigger] items[i].item) ==> (output_id_of(
            items[i].item,
        ) matches Some(id) && has_call(items, id))
}

/// Every call of the copy is answered by an output of the copy.
pub open spec fn every_call_is_answered(items: Seq<CopyView>) -> bool {
    forall|id: Seq<char>| #[trigger] has_call(items, id) ==> has_output(items, id)
}

proof fn lemma_contains_add(a: Seq<CopyView>, b: Seq<CopyView>, x: CopyView)
    requires
        a.contains(x) || b.contains(x),
    ensures
        (a + b).contains(x),
{
    if a.contains(x) {
        let i = choose|i: int| 0 <= i < a.len() && a[i] == x;
        assert((a + b)[i] == x);
    } else {
        let i = choose|i: int| 0 <= i < b.len() && b[i] == x;
        assert((a + b)[a.len() + i] == x);
    }
}

proof fn lemma_repaired_prefix_facts(all: Seq<CopyView>, n: int)
    requires
        0 <= n <= all.len(),
    ensures
        forall|i: int|
            0 <= i < repaired_prefix(all, n).len() ==> answers_known_call(
                all,
                #[trigger] repaired_prefix(all, n)[i],
            ),
        forall|i: int|
            0 <= i < repaired_prefix(all, n).len() ==> all.contains(
                #[trigger] repaired_prefix(all, n)[i],
            ) || (is_output_model(repaired_prefix(all, n)[i].item) && repaired_prefix(
                all,
                n,
            )[i] == CopyView::bare(repaired_prefix(all, n)[i].item)),
        forall|k: int|
            0 <= k < n && keeps_entry(all[k], all) ==> repaired_prefix(all, n).contains(
                #[trigger] all[k],
            ),
        forall|k: int|
            0 <= k < n && is_dangling_call(all[k], all) ==> repaired_prefix(all, n).contains(
                CopyView::bare(stand_in_output(#[trigger] all[k].item)),
            ),
    decreases n,
{
    if n > 0 {
        lemma_repaired_prefix_facts(all, n - 1);
        let a = repaired_prefix(all, n - 1);
        let e = repaired_entry(all[n - 1], all);
        let r = repaired_prefix(all, n);
        assert(r == a + e);
        let last = all[n - 1];
        assert(call_id_of(last.item) matches Some(id) ==> has_call(all, id)) by {
            if call_id_of(last.item) is Some {
                assert(call_id_of(all[n - 1].item) == Some(call_id_of(last.item)->0));
            }
        }
        if is_dangling_call(last, all) {
            let s = CopyView::bare(stand_in_output(last.item));
            assert(output_id_of(s.item) == call_id_of(last.item));
        }
        assert(all.contains(last));
        assert forall|i: int| 0 <= i < r.len() implies answers_known_call(all, #[trigger] r[i]) && (
        all.contains(r[i]) || (is_output_model(r[i].item) && r[i] == CopyView::bare(r[i].item))) by {
            if i < a.len() {
                assert(r[i] == a[i]);
            } else {
                assert(r[i] == e[i - a.len()]);
            }
        }
        assert forall|k: int| 0 <= k < n && keeps_entry(all[k], all) implies r.contains(
            #[trigger] all[k],
        ) by {
            if k < n - 1 {
                lemma_contains_add(a, e, all[k]);
            } else {
                assert(e[0] == all[k]);
                lemma_contains_add(a, e, all[k]);
            }
        }
        assert forall|k: int| 0 <= k < n && is_dangling_call(all[k], all) implies r.contains(
            CopyView::bare(stand_in_output(#[trigger] all[k].item)),
        ) by {
            let s = CopyView::bare(stand_in_output(all[k].item));
            if k < n - 1 {
                lemma_contains_add(a, e, s);
            } else {
                assert(e[1] == s);
                lemma_contains_add(a, e, s);
            }
        }
    }
}

/// After the pairing repair the copy is transportable: every output answers
/// a call of the copy, and every call of the copy is answered by an output
/// of the copy.
pub proof fn law_repair_pairs_calls_and_outputs(items: Seq<CopyView>)
    ensures
        every_output_answers_a_call(repaired_pairing(items)),
        every_call_is_answered(repaired_pairing(items)),
{
    let r = repaired_pairing(items);
    lemma_repaired_prefix_facts(items, items.len() as int);
    assert forall|i: int|
        0 <= i < r.len() && is_output_model(#[trigger] r[i].item) implies (output_id_of(
        r[i].item,
    ) matches Some(id) && has_call(r, id)) by {
        assert(answers_known_call(items, r[i]));
        let id = output_id_of(r[i].item)->0;
        let k = choose|k: int| 0 <= k < items.len() && call_id_of(#[trigger] items[k].item) == Some(id);
        assert(keeps_entry(items[k], items));
        assert(r.contains(items[k]));
        let j = choose|j: int| 0 <= j < r.len() && r[j] == items[k];
        assert(call_id_of(r[j].item) == Some(id));
    }
    assert forall|id: Seq<char>| #[trigger] has_call(r, id) implies has_output(r, id) by {
        let i = choose|i: int| 0 <= i < r.len() && call_id_of(#[trigger] r[i].item) == Some(id);
        assert(answers_known_call(items, r[i]));
        assert(has_call(items, id));
        if has_output(items, id) {
            let j = choose|j: int|
                0 <= j < items.len() && output_id_of(#[trigger] items[j].item) == Some(id);
            assert(is_output_model(items[j].item));
            assert(keeps_entry(items[j], items));
            assert(r.contains(items[j]));
            let m = choose|m: int| 0 <= m < r.len() && r[m] == items[j];
            assert(output_id_of(r[m].item) == Some(id));
        } else {
            let k = choose|k: int| 0 <= k < items.len() && call_id_of(#[trigger] items[k].item) == Some(id);
            assert(is_dangling_call(items[k], items));
            let s = CopyView::bare(stand_in_output(items[k].item));
            assert(r.contains(s));
            let m = choose|m: int| 0 <= m < r.len() && r[m] == s;
            assert(output_id_of(r[m].item) == Some(id));
        }
    }
}

/// The copy sent to any provider other than OpenAI is transportable: every
/// output answers a call of the copy and every call is answered.
pub proof fn law_third_party_copy_pairs_calls_and_outputs(provider: Seq<u8>, items: Seq<CopyView>)
    requires
        !targets_openai(provider),
    ensures
        every_output_answers_a_call(sanitized(provider, items)),
        every_call_is_answered(sanitized(provider, items)),
{
    let kept = kept_reasoning(items, false);
    law_repair_pairs_calls_and_outputs(relocated_messages(merged_notices(kept)));
}

/// The entry is not a message.
pub open spec fn not_message(e: CopyView) -> bool {
    !(e.item is Message)
}

proof fn lemma_filter_of_rejected(s: Seq<CopyView>, pred: spec_fn(CopyView) -> bool)
    requires
        forall|i: int| 0 <= i < s.len() ==> !pred(#[trigger] s[i]),
    ensures
        s.filter(pred) =~= Seq::<CopyView>::empty(),
    decreases s.len(),
{
    reveal(Seq::filter);
    if s.len() > 0 {
        lemma_filter_of_rejected(s.drop_last(), pred);
        assert(!pred(s[s.len() - 1]));
    }
}

proof fn lemma_relocation_scan_keeps_entries(items: Seq<CopyView>)
    ensures
        ({
            let st = relocation_scan(items);
            &&& (st.output + st.pending).to_multiset() =~= items.to_multiset()
            &&& forall|i: int| 0 <= i < st.pending.len() ==> (#[trigger] st.pending[i]).item is Message
            &&& st.output.filter(|e: CopyView| not_message(e)) =~= items.filter(
                |e: CopyView| not_message(e),
            )
        }),
    decreases items.len(),
{
    broadcast use vstd::seq_lib::group_to_multiset_ensures, vstd::seq_lib::lemma_multiset_commutative;
    broadcast use vstd::seq::Seq::filter_distributes_over_add;

    let pred = |e: CopyView| not_message(e);
    if items.len() == 0 {
        reveal(Seq::filter);
        assert(Seq::<CopyView>::empty() + Seq::<CopyView>::empty() =~= Seq::<CopyView>::empty());
    } else {
        let rest = items.drop_last();
        let e = items.last();
        lemma_relocation_scan_keeps_entries(rest);
        let prev = relocation_scan(rest);
        let st = relocation_scan(items);
        assert(items =~= rest.push(e));
        rest.lemma_filter_push(e, pred);
        lemma_filter_of_rejected(prev.pending, pred);
        if e.item is Message {
            assert(st.output + st.pending =~= (prev.output + prev.pending).push(e));
            prev.output.lemma_filter_push(e, pred);
        } else {
            assert(st.pending =~= Seq::<CopyView>::empty());
            assert(st.output + st.pending =~= st.output);
            if is_output_model(e.item) && run_interrupts_pair(prev) {
                let at: int = insertion_point(prev.output);
                lemma_last_call_position_bounds(prev.output);
                lemma_trailing_outputs_start_bounds(prev.output);
                let a = prev.output.take(at);
                let b = prev.output.skip(at);
                assert(prev.output =~= a + b);
                let moved = a + prev.pending + b;
                assert(st.output =~= moved.push(e));
                moved.lemma_filter_push(e, pred);
                assert(moved.to_multiset() =~= a.to_multiset().add(prev.pending.to_multiset()).add(
                    b.to_multiset(),
                ));
                assert((prev.output + prev.pending).to_multiset() =~= a.to_multiset().add(
                    b.to_multiset(),
                ).add(prev.pending.to_multiset()));
                assert(moved.filter(pred) =~= a.filter(pred) + prev.pending.filter(pred) + b.filter(
                    pred,
                ));
            } else {
                let joined = prev.output + prev.pending;
                assert(st.output =~= joined.push(e));
                joined.lemma_filter_push(e, pred);
            }
        }
    }
}

/// The relocation only moves entries: the relocated copy holds exactly the
/// entries of the input, and every entry that is not a message keeps its
/// place relative to the other such entries.
pub proof fn law_relocation_only_moves_messages(items: Seq<CopyView>)
    ensures
        relocated_messages(items).to_multiset() == items.to_multiset(),
        relocated_messages(items).filter(|e: CopyView| not_message(e)) == items.filter(
            |e: CopyView| not_message(e),
        ),
{
    broadcast use vstd::seq::Seq::filter_distributes_over_add;

    lemma_relocation_scan_keeps_entries(items);
    let st = relocation_scan(items);
    let pred = |e: CopyView| not_message(e);
    lemma_filter_of_rejected(st.pending, pred);
    assert((st.output + st.pending).filter(pred) =~= st.output.filter(pred) + st.pending.filter(
        pred,
    ));
}

/// The entry is a call or a tool output.
pub open spec fn is_call_or_output(e: CopyView) -> bool {
    is_call_model(e.item) || is_output_model(e.item)
}

/// Every entry strictly between positions `i` and `j` is a message.
pub open spec fn only_messages_between(s: Seq<CopyView>, i: int, j: int) -> bool {
    forall|k: int| i < k < j ==> (#[trigger] s[k]).item is Message
}

/// No run of messages sits between a call or tool output and a following
/// tool output: a tool output is either right after the call or output
/// before it, or separated from it by something that is not a message.
pub open spec fn no_message_run_before_output(s: Seq<CopyView>) -> bool {
    forall|i: int, j: int|
        #![trigger s[i], s[j]]
        0 <= i < j < s.len() && is_call_or_output(s[i]) && is_output_model(s[j].item)
            && only_messages_between(s, i, j) ==> j == i + 1
}

/// The sequence does not end with a message.
pub open spec fn ends_without_message(s: Seq<CopyView>) -> bool {
    s.len() == 0 || !(s.last().item is Message)
}

proof fn lemma_no_run_push(s: Seq<CopyView>, e: CopyView)
    requires
        no_message_run_before_output(s),
        ends_without_message(s),
    ensures
        no_message_run_before_output(s.push(e)),
{
    let t = s.push(e);
    assert forall|i: int, j: int|
        0 <= i < j < t.len() && is_call_or_output(#[trigger] t[i]) && is_output_model(
            (#[trigger] t[j]).item,
        ) && only_messages_between(t, i, j) implies j == i + 1 by {
        if j < s.len() {
            assert(t[i] == s[i] && t[j] == s[j]);
            assert forall|k: int| i < k < j implies (#[trigger] s[k]).item is Message by {
                assert(t[k] == s[k]);
                assert(t[k].item is Message);
            }
        } else if i < s.len() - 1 {
            let k = s.len() - 1;
            assert(t[k] == s[k]);
            assert(t[k].item is Message);
        }
    }
}

proof fn lemma_no_run_insert(s: Seq<CopyView>, at: int, block: Seq<CopyView>)
    requires
        no_message_run_before_output(s),
        0 <= at <= s.len(),
        forall|b: int| 0 <= b < block.len() ==> (#[trigger] block[b]).item is Message,
        block.len() == 0 || at == 0 || at == s.len() || !is_output_model(s[at].item)
            || !is_call_or_output(s[at - 1]),
    ensures
        no_message_run_before_output(s.take(at) + block + s.skip(at)),
{
    let n = block.len() as int;
    let t = s.take(at) + block + s.skip(at);
    assert(t.len() == s.len() + n);
    assert forall|k: int| 0 <= k < t.len() implies #[trigger] t[k] == (if k < at {
        s[k]
    } else if k < at + n {
        block[k - at]
    } else {
        s[k - n]
    }) by {}
    assert forall|i: int, j: int|
        0 <= i < j < t.len() && is_call_or_output(#[trigger] t[i]) && is_output_model(
            (#[trigger] t[j]).item,
        ) && only_messages_between(t, i, j) implies j == i + 1 by {
        assert(!(at <= i < at + n)) by {
            if at <= i < at + n {
                assert(block[i - at].item is Message);
            }
        }
        assert(!(at <= j < at + n)) by {
            if at <= j < at + n {
                assert(block[j - at].item is Message);
            }
        }
        let i2 = if i < at { i } else { i - n };
        let j2 = if j < at { j } else { j - n };
        assert(s[i2] == t[i] && s[j2] == t[j]);
        assert forall|k: int| i2 < k < j2 implies (#[trigger] s[k]).item is Message by {
            let k2 = if k < at { k } else { k + n };
            assert(t[k2] == s[k]);
            assert(t[k2].item is Message);
        }
        assert(j2 == i2 + 1);
        if i < at && j >= at + n && n > 0 {
            assert(i == at - 1 && j - n == at);
            assert(s[at] == t[j] && s[at - 1] == t[i]);
        }
    }
}

proof fn lemma_relocation_scan_shape(items: Seq<CopyView>)
    ensures
        ({
            let st = relocation_scan(items);
            &&& no_message_run_before_output(st.output)
            &&& ends_without_message(st.output)
            &&& forall|i: int| 0 <= i < st.pending.len() ==> (#[trigger] st.pending[i]).item is Message
        }),
    decreases items.len(),
{
    if items.len() > 0 {
        let rest = items.drop_last();
        let e = items.last();
        lemma_relocation_scan_shape(rest);
        let prev = relocation_scan(rest);
        let st = relocation_scan(items);
        if e.item is Message {
            assert forall|i: int| 0 <= i < st.pending.len() implies (
            #[trigger] st.pending[i]).item is Message by {
                if i < prev.pending.len() {
                    assert(st.pending[i] == prev.pending[i]);
                }
            }
        } else {
            let placed = prev.output.push(e);
            lemma_no_run_push(prev.output, e);
            let at: int = if is_output_model(e.item) && run_interrupts_pair(prev) {
                insertion_point(prev.output)
            } else {
                prev.output.len() as int
            };
            if is_output_model(e.item) && run_interrupts_pair(prev) {
                lemma_last_call_position_bounds(prev.output);
                lemma_trailing_outputs_start_bounds(prev.output);
                assert(0 <= at < prev.output.len());
                assert(placed[at] == prev.output[at]);
                if at > 0 {
                    assert(placed[at - 1] == prev.output[at - 1]);
                }
                assert(st.output =~= placed.take(at) + prev.pending + placed.skip(at));
            } else {
                assert(st.output =~= placed.take(at) + prev.pending + placed.skip(at));
                assert(placed[at] == e);
            }
            lemma_no_run_insert(placed, at, prev.pending);
        }
    }
}

/// After relocation no run of messages sits between a call or tool output and
/// a following tool output: every run that interrupted a call/output region
/// has moved.
pub proof fn law_relocation_leaves_no_message_run_before_an_output(items: Seq<CopyView>)
    ensures
        no_message_run_before_output(relocated_messages(items)),
{
    lemma_relocation_scan_shape(items);
    let st = relocation_scan(items);
    lemma_no_run_insert(st.output, st.output.len() as int, st.pending);
    assert(st.output + st.pending =~= st.output.take(st.output.len() as int) + st.pending
        + st.output.skip(st.output.len() as int));
}

/// The last entry of the sequence that is not a message is a call or a tool
/// output (only messages follow it).
pub open spec fn ends_after_call_or_output(s: Seq<CopyView>) -> bool {
    exists|i: int|
        0 <= i < s.len() && is_call_or_output(#[trigger] s[i]) && only_messages_between(
            s,
            i,
            s.len() as int,
        )
}

/// The sequence ends with a non-empty run of messages that follows a call or
/// tool output: a tool output placed next would be separated from it.
pub open spec fn ends_with_open_run(s: Seq<CopyView>) -> bool {
    exists|i: int|
        0 <= i < s.len() - 1 && is_call_or_output(#[trigger] s[i]) && only_messages_between(
            s,
            i,
            s.len() as int,
        )
}

proof fn lemma_push_message_tail(s: Seq<CopyView>, e: CopyView)
    requires
        e.item is Message,
    ensures
        ends_after_call_or_output(s.push(e)) == ends_after_call_or_output(s),
        ends_with_open_run(s.push(e)) == ends_after_call_or_output(s),
{
    let t = s.push(e);
    if ends_after_call_or_output(s) {
        let i = choose|i: int|
            0 <= i < s.len() && is_call_or_output(#[trigger] s[i]) && only_messages_between(
                s,
                i,
                s.len() as int,
            );
        assert(t[i] == s[i]);
        assert forall|k: int| i < k < t.len() implies (#[trigger] t[k]).item is Message by {
            if k < s.len() {
                assert(t[k] == s[k]);
            }
        }
    }
    if ends_after_call_or_output(t) {
        let i = choose|i: int|
            0 <= i < t.len() && is_call_or_output(#[trigger] t[i]) && only_messages_between(
                t,
                i,
                t.len() as int,
            );
        assert(i < s.len());
        assert(s[i] == t[i]);
        assert forall|k: int| i < k < s.len() implies (#[trigger] s[k]).item is Message by {
            assert(t[k] == s[k]);
        }
    }
}

proof fn lemma_push_other_tail(s: Seq<CopyView>, e: CopyView)
    requires
        !(e.item is Message),
    ensures
        ends_after_call_or_output(s.push(e)) == is_call_or_output(e),
        !ends_with_open_run(s.push(e)),
{
    let t = s.push(e);
    assert(t[s.len() as int] == e);
    if ends_with_open_run(t) {
        let i = choose|i: int|
            0 <= i < t.len() - 1 && is_call_or_output(#[trigger] t[i]) && only_messages_between(
                t,
                i,
                t.len() as int,
            );
        assert(t[s.len() as int].item is Message);
    }
    if ends_after_call_or_output(t) {
        let i = choose|i: int|
            0 <= i < t.len() && is_call_or_output(#[trigger] t[i]) && only_messages_between(
                t,
                i,
                t.len() as int,
            );
        if i < s.len() {
            assert(t[s.len() as int].item is Message);
        }
    }
}

proof fn lemma_no_run_push_closed(s: Seq<CopyView>, e: CopyView)
    requires
        no_message_run_before_output(s),
        !ends_with_open_run(s) || !is_output_model(e.item),
    ensures
        no_message_run_before_output(s.push(e)),
{
    let t = s.push(e);
    assert forall|i: int, j: int|
        0 <= i < j < t.len() && is_call_or_output(#[trigger] t[i]) && is_output_model(
            (#[trigger] t[j]).item,
        ) && only_messages_between(t, i, j) implies j == i + 1 by {
        assert(t[i] == s[i]);
        if j < s.len() {
            assert(t[j] == s[j]);
            assert forall|k: int| i < k < j implies (#[trigger] s[k]).item is Message by {
                assert(t[k] == s[k]);
                assert(t[k].item is Message);
            }
        } else if i < s.len() - 1 {
            assert(t[j] == e);
            assert forall|k: int| i < k < s.len() implies (#[trigger] s[k]).item is Message by {
                assert(t[k] == s[k]);
                assert(t[k].item is Message);
            }
            assert(ends_with_open_run(s));
        }
    }
}

proof fn lemma_repaired_prefix_shape_kept(all: Seq<CopyView>, n: int)
    requires
        no_message_run_before_output(all),
        0 <= n <= all.len(),
    ensures
        no_message_run_before_output(repaired_prefix(all, n)),
        ends_after_call_or_output(repaired_prefix(all, n)) ==> ends_after_call_or_output(
            all.take(n),
        ),
        ends_with_open_run(repaired_prefix(all, n)) ==> ends_with_open_run(all.take(n)),
    decreases n,
{
    if n == 0 {
        assert(repaired_prefix(all, 0) =~= Seq::<CopyView>::empty());
    } else {
        lemma_repaired_prefix_shape_kept(all, n - 1);
        let r = repaired_prefix(all, n - 1);
        let a = all.take(n - 1);
        let x = all[n - 1];
        let r2 = repaired_prefix(all, n);
        assert(all.take(n) =~= a.push(x));
        if x.item is Message {
            assert(keeps_entry(x, all) && !is_dangling_call(x, all));
            assert(r2 =~= r.push(x));
            lemma_push_message_tail(r, x);
            lemma_push_message_tail(a, x);
            lemma_no_run_push_closed(r, x);
        } else {
            lemma_push_other_tail(a, x);
            if is_output_model(x.item) && ends_with_open_run(a) {
                let i = choose|i: int|
                    0 <= i < a.len() - 1 && is_call_or_output(#[trigger] a[i])
                        && only_messages_between(a, i, a.len() as int);
                assert(all[i] == a[i]);
                assert forall|k: int| i < k < n - 1 implies (#[trigger] all[k]).item is Message by {
                    assert(all[k] == a[k]);
                }
            }
            if !keeps_entry(x, all) {
                assert(r2 =~= r);
            } else if is_dangling_call(x, all) {
                let stand_in = CopyView::bare(stand_in_output(x.item));
                assert(r2 =~= r.push(x).push(stand_in));
                lemma_no_run_push_closed(r, x);
                lemma_push_other_tail(r, x);
                lemma_no_run_push_closed(r.push(x), stand_in);
                lemma_push_other_tail(r.push(x), stand_in);
            } else {
                assert(r2 =~= r.push(x));
                lemma_no_run_push_closed(r, x);
                lemma_push_other_tail(r, x);
            }
        }
    }
}

/// The pairing repair keeps the placement that relocation established: if no
/// run of messages sits between a call or tool output and a following tool
/// output, none does after the repair either.
pub proof fn law_repair_keeps_outputs_free_of_message_runs(items: Seq<CopyView>)
    requires
        no_message_run_before_output(items),
    ensures
        no_message_run_before_output(repaired_pairing(items)),
{
    lemma_repaired_prefix_shape_kept(items, items.len() as int);
}

/// The copy sent to any provider other than OpenAI has no run of messages
/// between a call or tool output and a following tool output.
pub proof fn law_third_party_copy_has_no_message_run_before_an_output(
    provider: Seq<u8>,
    items: Seq<CopyView>,
)
    requires
        !targets_openai(provider),
    ensures
        no_message_run_before_output(sanitized(provider, items)),
{
    let relocated = relocated_messages(merged_notices(kept_reasoning(items, false)));
    law_relocation_leaves_no_message_run_before_an_output(
        merged_notices(kept_reasoning(items, false)),
    );
    law_repair_keeps_outputs_free_of_message_runs(relocated);
}

/// No entry of the copy is a reasoning item without plaintext.
pub open spec fn reasoning_has_plaintext(items: Seq<CopyView>) -> bool {
    forall|i: int| 0 <= i < items.len() ==> keeps_reasoning(#[trigger] items[i].item, false)
}

proof fn lemma_kept_reasoning_fits(items: Seq<CopyView>, target_is_openai: bool)
    ensures
        forall|i: int|
            0 <= i < kept_reasoning(items, target_is_openai).len() ==> keeps_reasoning(
                #[trigger] kept_reasoning(items, target_is_openai)[i].item,
                target_is_openai,
            ),
{
    let pred = |e: CopyView| keeps_reasoning(e.item, target_is_openai);
    assert forall|i: int| 0 <= i < items.filter(pred).len() implies keeps_reasoning(
        #[trigger] items.filter(pred)[i].item,
        target_is_openai,
    ) by {
        items.lemma_filter_pred(pred, i);
    }
}

/// Every entry of the copy has the property.
pub open spec fn all_entries(items: Seq<CopyView>, p: spec_fn(CopyView) -> bool) -> bool {
    forall|i: int| 0 <= i < items.len() ==> p(#[trigger] items[i])
}

/// The property survives a text being appended to an entry that can take it.
pub open spec fn survives_appending(p: spec_fn(CopyView) -> bool) -> bool {
    forall|x: CopyView, t: Seq<char>|
        p(x) && accepts_text(x.item) ==> #[trigger] p(
            x.with_item(with_text_appended(x.item, t)),
        )
}

/// Every bare tool output has the property.
pub open spec fn holds_of_bare_outputs(p: spec_fn(CopyView) -> bool) -> bool {
    forall|item: ItemModel| is_output_model(item) ==> #[trigger] p(CopyView::bare(item))
}

proof fn lemma_merged_keeps(items: Seq<CopyView>, p: spec_fn(CopyView) -> bool)
    requires
        all_entries(items, p),
        survives_appending(p),
    ensures
        all_entries(merged_notices(items), p),
    decreases items.len(),
{
    if items.len() > 0 {
        let rest = items.drop_last();
        assert forall|i: int| 0 <= i < rest.len() implies p(#[trigger] rest[i]) by {
            assert(rest[i] == items[i]);
        }
        lemma_merged_keeps(rest, p);
        let prev = merged_notices(rest);
        let r = merged_notices(items);
        assert(p(items[items.len() - 1]));
        if prev.len() > 0 && accepts_text(prev.last().item) && notice_text(items.last().item) is Some {
            let t = notice_text(items.last().item)->0;
            assert(p(prev[prev.len() - 1]));
            assert(p(prev.last().with_item(with_text_appended(prev.last().item, t))));
            assert forall|i: int| 0 <= i < r.len() implies p(#[trigger] r[i]) by {
                if i < prev.len() - 1 {
                    assert(r[i] == prev[i]);
                }
            }
        } else {
            assert forall|i: int| 0 <= i < r.len() implies p(#[trigger] r[i]) by {
                if i < prev.len() {
                    assert(r[i] == prev[i]);
                }
            }
        }
    }
}

proof fn lemma_relocated_keeps(items: Seq<CopyView>, p: spec_fn(CopyView) -> bool)
    requires
        all_entries(items, p),
    ensures
        all_entries(relocated_messages(items), p),
{
    broadcast use vstd::seq_lib::to_multiset_contains;

    law_relocation_only_moves_messages(items);
    let r = relocated_messages(items);
    assert forall|i: int| 0 <= i < r.len() implies p(#[trigger] r[i]) by {
        assert(r.contains(r[i]));
        assert(r.to_multiset().count(r[i]) > 0);
        assert(items.to_multiset().count(r[i]) > 0);
        let k = choose|k: int| 0 <= k < items.len() && items[k] == r[i];
        assert(p(items[k]));
    }
}

proof fn lemma_repaired_keeps(items: Seq<CopyView>, p: spec_fn(CopyView) -> bool)
    requires
        all_entries(items, p),
        holds_of_bare_outputs(p),
    ensures
        all_entries(repaired_pairing(items), p),
{
    lemma_repaired_prefix_facts(items, items.len() as int);
    let r = repaired_pairing(items);
    assert forall|i: int| 0 <= i < r.len() implies p(#[trigger] r[i]) by {
        if items.contains(r[i]) {
            let k = choose|k: int| 0 <= k < items.len() && items[k] == r[i];
            assert(p(items[k]));
        } else {
            assert(r[i] == CopyView::bare(r[i].item));
        }
    }
}

proof fn lemma_third_party_passes_keep(items: Seq<CopyView>, p: spec_fn(CopyView) -> bool)
    requires
        all_entries(items, p),
        survives_appending(p),
        holds_of_bare_outputs(p),
    ensures
        all_entries(repaired_pairing(relocated_messages(merged_notices(items))), p),
{
    lemma_merged_keeps(items, p);
    lemma_relocated_keeps(merged_notices(items), p);
    lemma_repaired_keeps(relocated_messages(merged_notices(items)), p);
}

/// The copy sent to any provider other than OpenAI holds no reasoning item
/// without plaintext: encrypted-only reasoning never reaches such a provider.
pub proof fn law_third_party_copy_reasoning_has_plaintext(provider: Seq<u8>, items: Seq<CopyView>)
    requires
        !targets_openai(provider),
    ensures
        reasoning_has_plaintext(sanitized(provider, items)),
{
    let kept = kept_reasoning(items, false);
    let p = |e: CopyView| keeps_reasoning(e.item, false);
    lemma_kept_reasoning_fits(items, false);
    assert(all_entries(kept, p));
    assert forall|x: CopyView, t: Seq<char>|
        p(x) && accepts_text(x.item) implies #[trigger] p(
        x.with_item(with_text_appended(x.item, t)),
    ) by {}
    assert forall|item: ItemModel| is_output_model(item) implies #[trigger] p(
        CopyView::bare(item),
    ) by {}
    lemma_third_party_passes_keep(kept, p);
    assert forall|i: int| 0 <= i < sanitized(provider, items).len() implies keeps_reasoning(
        #[trigger] sanitized(provider, items)[i].item,
        false,
    ) by {
        assert(p(sanitized(provider, items)[i]));
    }
}

/// The entry is not a reasoning item.
pub open spec fn not_reasoning(e: CopyView) -> bool {
    !(e.item is Reasoning)
}

proof fn lemma_filter_narrower(
    s: Seq<CopyView>,
    wide: spec_fn(CopyView) -> bool,
    narrow: spec_fn(CopyView) -> bool,
)
    requires
        forall|x: CopyView| #[trigger] narrow(x) ==> wide(x),
    ensures
        s.filter(wide).filter(narrow) == s.filter(narrow),
    decreases s.len(),
{
    reveal(Seq::filter);
    if s.len() > 0 {
        lemma_filter_narrower(s.drop_last(), wide, narrow);
        let e = s.last();
        s.drop_last().filter(wide).lemma_filter_push(e, narrow);
        if narrow(e) {
            assert(wide(e));
        }
    }
}

/// The copy sent to OpenAI differs from the input only by reasoning items:
/// every other entry is kept, unchanged and in order, and every reasoning
/// item kept carries encrypted content and no plaintext.
pub proof fn law_openai_copy_drops_only_reasoning(provider: Seq<u8>, items: Seq<CopyView>)
    requires
        targets_openai(provider),
    ensures
        sanitized(provider, items).filter(|e: CopyView| not_reasoning(e)) == items.filter(
            |e: CopyView| not_reasoning(e),
        ),
        forall|i: int|
            0 <= i < sanitized(provider, items).len() ==> keeps_reasoning(
                #[trigger] sanitized(provider, items)[i].item,
                true,
            ),
{
    let wide = |e: CopyView| keeps_reasoning(e.item, true);
    let narrow = |e: CopyView| not_reasoning(e);
    lemma_filter_narrower(items, wide, narrow);
    lemma_kept_reasoning_fits(items, true);
}

/// The copy depends on the provider id only through whether it names OpenAI
/// (ignoring ASCII case): two ids that agree on that give the same copy.
pub proof fn law_provider_id_matters_only_as_openai_or_not(
    provider: Seq<u8>,
    other: Seq<u8>,
    items: Seq<CopyView>,
)
    requires
        targets_openai(provider) == targets_openai(other),
    ensures
        sanitized(provider, items) == sanitized(other, items),
{
}

/// Two provider ids that differ only in ASCII case give the same copy.
pub proof fn law_provider_id_is_case_insensitive(
    provider: Seq<u8>,
    other: Seq<u8>,
    items: Seq<CopyView>,
)
    requires
        ascii_eq_ignore_case(provider, other),
    ensures
        sanitized(provider, items) == sanitized(other, items),
{
    let o = crate::sanitize::OPENAI_PROVIDER_ID.spec_bytes();
    if targets_openai(provider) {
        assert forall|i: int| 0 <= i < other.len() implies ascii_lower(#[trigger] other[i])
            == ascii_lower(o[i]) by {
            assert(ascii_lower(provider[i]) == ascii_lower(other[i]));
        }
    }
    if targets_openai(other) {
        assert forall|i: int| 0 <= i < provider.len() implies ascii_lower(#[trigger] provider[i])
            == ascii_lower(o[i]) by {
            assert(ascii_lower(provider[i]) == ascii_lower(other[i]));
        }
    }
    law_provider_id_matters_only_as_openai_or_not(provider, other, items);
}

/// The entry is not a tool output.
pub open spec fn not_output(e: CopyView) -> bool {
    !is_output_model(e.item)
}

proof fn lemma_repaired_prefix_shape(all: Seq<CopyView>, n: int)
    requires
        0 <= n <= all.len(),
    ensures
        repaired_prefix(all, n).filter(|e: CopyView| not_output(e)) == all.take(n).filter(
            |e: CopyView| not_output(e),
        ),
        repaired_prefix(all, n).len() + all.take(n).filter(|e: CopyView| !keeps_entry(e, all)).len()
            == n + all.take(n).filter(|e: CopyView| is_dangling_call(e, all)).len(),
    decreases n,
{
    broadcast use vstd::seq::Seq::filter_distributes_over_add;

    let keep = |e: CopyView| not_output(e);
    let dangling = |e: CopyView| is_dangling_call(e, all);
    let dropped = |e: CopyView| !keeps_entry(e, all);
    if n == 0 {
        reveal(Seq::filter);
        assert(all.take(0) =~= Seq::<CopyView>::empty());
    } else {
        lemma_repaired_prefix_shape(all, n - 1);
        let x = all[n - 1];
        let e = repaired_entry(x, all);
        assert(all.take(n) =~= all.take(n - 1).push(x));
        all.take(n - 1).lemma_filter_push(x, keep);
        all.take(n - 1).lemma_filter_push(x, dangling);
        all.take(n - 1).lemma_filter_push(x, dropped);
        reveal_with_fuel(Seq::<_>::filter, 3);
        if !keeps_entry(x, all) {
            assert(e =~= Seq::<CopyView>::empty());
        } else if is_dangling_call(x, all) {
            let s = CopyView::bare(stand_in_output(x.item));
            assert(e =~= seq![x, s]);
            assert(e.drop_last() =~= seq![x]);
            assert(seq![x].drop_last() =~= Seq::<CopyView>::empty());
            assert(e.filter(keep) =~= seq![x]);
        } else {
            assert(e =~= seq![x]);
            assert(seq![x].drop_last() =~= Seq::<CopyView>::empty());
        }
    }
}

/// The pairing repair only adds and drops tool outputs: every entry that is
/// not a tool output is kept, unchanged and in order, and the copy grows by
/// the stand-ins inserted less the outputs removed.
pub proof fn law_repair_only_adds_and_drops_outputs(items: Seq<CopyView>)
    ensures
        repaired_pairing(items).filter(|e: CopyView| not_output(e)) == items.filter(
            |e: CopyView| not_output(e),
        ),
        repaired_pairing(items).len() + removed_count(items) == items.len() + inserted_count(items),
{
    lemma_repaired_prefix_shape(items, items.len() as int);
    assert(items.take(items.len() as int) =~= items);
}

/// The metadata the entry carries is none, or that of an entry of `items`.
pub open spec fn metadata_from(items: Seq<CopyView>, x: CopyView) -> bool {
    x.metadata is None || exists|i: int| 0 <= i < items.len() && (#[trigger] items[i]).metadata
        == x.metadata
}

/// Normalizing never invents metadata: every entry of the copy carries the
/// metadata of some entry of the input, or none (a stand-in output).
pub proof fn law_metadata_comes_from_the_input(provider: Seq<u8>, items: Seq<CopyView>)
    ensures
        forall|i: int|
            0 <= i < sanitized(provider, items).len() ==> metadata_from(
                items,
                #[trigger] sanitized(provider, items)[i],
            ),
{
    let target_is_openai = targets_openai(provider);
    let kept = kept_reasoning(items, target_is_openai);
    let p = |x: CopyView| metadata_from(items, x);
    assert forall|i: int| 0 <= i < kept.len() implies p(#[trigger] kept[i]) by {
        assert(kept.contains(kept[i]));
        items.lemma_filter_contains_rev(
            |e: CopyView| keeps_reasoning(e.item, target_is_openai),
            kept[i],
        );
        let k = choose|k: int| 0 <= k < items.len() && items[k] == kept[i];
        assert(items[k].metadata == kept[i].metadata);
    }
    if !target_is_openai {
        assert forall|x: CopyView, t: Seq<char>|
            p(x) && accepts_text(x.item) implies #[trigger] p(
            x.with_item(with_text_appended(x.item, t)),
        ) by {
            if x.metadata is Some {
                let k = choose|k: int|
                    0 <= k < items.len() && (#[trigger] items[k]).metadata == x.metadata;
                assert(items[k].metadata == x.with_item(with_text_appended(x.item, t)).metadata);
            }
        }
        assert forall|item: ItemModel| is_output_model(item) implies #[trigger] p(
            CopyView::bare(item),
        ) by {}
        lemma_third_party_passes_keep(kept, p);
    }
    assert forall|i: int| 0 <= i < sanitized(provider, items).len() implies metadata_from(
        items,
        #[trigger] sanitized(provider, items)[i],
    ) by {
        assert(p(sanitized(provider, items)[i]));
    }
}

proof fn lemma_repaired_prefix_of_paired(all: Seq<CopyView>, n: int)
    requires
        every_output_answers_a_call(all),
        every_call_is_answered(all),
        0 <= n <= all.len(),
    ensures
        repaired_prefix(all, n) == all.take(n),
    decreases n,
{
    if n == 0 {
        assert(all.take(0) =~= Seq::<CopyView>::empty());
    } else {
        lemma_repaired_prefix_of_paired(all, n - 1);
        let x = all[n - 1];
        if let Some(id) = call_id_of(x.item) {
            assert(has_call(all, id));
        }
        assert(keeps_entry(x, all));
        assert(!is_dangling_call(x, all));
        assert(all.take(n) =~= all.take(n - 1).push(x));
        assert(repaired_prefix(all, n) =~= all.take(n - 1) + seq![x]);
    }
}

/// Repairing a repaired copy changes nothing: no stand-in is inserted and no
/// output is removed.
pub proof fn law_repair_is_idempotent(items: Seq<CopyView>)
    ensures
        repaired_pairing(repaired_pairing(items)) == repaired_pairing(items),
        inserted_count(repaired_pairing(items)) == 0,
        removed_count(repaired_pairing(items)) == 0,
{
    let r = repaired_pairing(items);
    law_repair_pairs_calls_and_outputs(items);
    lemma_repaired_prefix_of_paired(r, r.len() as int);
    assert(r.take(r.len() as int) =~= r);
    assert forall|i: int| 0 <= i < r.len() implies !(#[trigger] is_dangling_call(r[i], r)) && keeps_entry(
        r[i],
        r,
    ) by {
        if let Some(id) = call_id_of(r[i].item) {
            assert(has_call(r, id));
        }
    }
    lemma_filter_of_rejected(r, |e: CopyView| is_dangling_call(e, r));
    lemma_filter_of_rejected(r, |e: CopyView| !keeps_entry(e, r));
}

/// The entries with their metadata dropped.
pub open spec fn bare_entries(s: Seq<CopyView>) -> Seq<CopyView> {
    s.map_values(|e: CopyView| CopyView::bare(e.item))
}

proof fn lemma_bare_entries_drop_last(s: Seq<CopyView>)
    requires
        s.len() > 0,
    ensures
        bare_entries(s).drop_last() == bare_entries(s.drop_last()),
        bare_entries(s).last() == CopyView::bare(s.last().item),
{
    assert(bare_entries(s).drop_last() =~= bare_entries(s.drop_last()));
}

proof fn lemma_bare_filter(s: Seq<CopyView>, target_is_openai: bool)
    ensures
        bare_entries(s.filter(|e: CopyView| keeps_reasoning(e.item, target_is_openai)))
            == bare_entries(s).filter(|e: CopyView| keeps_reasoning(e.item, target_is_openai)),
    decreases s.len(),
{
    reveal(Seq::filter);
    let p = |e: CopyView| keeps_reasoning(e.item, target_is_openai);
    if s.len() == 0 {
        assert(bare_entries(s) =~= Seq::<CopyView>::empty());
        assert(bare_entries(s.filter(p)) =~= Seq::<CopyView>::empty());
    } else {
        lemma_bare_filter(s.drop_last(), target_is_openai);
        lemma_bare_entries_drop_last(s);
        let f = s.drop_last().filter(p);
        assert(bare_entries(f.push(s.last())) =~= bare_entries(f).push(CopyView::bare(s.last().item)));
    }
}

proof fn lemma_bare_merged(s: Seq<CopyView>)
    ensures
        bare_entries(merged_notices(s)) == merged_notices(bare_entries(s)),
    decreases s.len(),
{
    if s.len() == 0 {
        assert(bare_entries(s) =~= Seq::<CopyView>::empty());
        assert(bare_entries(merged_notices(s)) =~= Seq::<CopyView>::empty());
    } else {
        lemma_bare_merged(s.drop_last());
        lemma_bare_entries_drop_last(s);
        let prev = merged_notices(s.drop_last());
        let b = bare_entries(prev);
        if prev.len() > 0 {
            assert(b.last() == CopyView::bare(prev.last().item));
        }
        let t = notice_text(s.last().item);
        if t is Some && prev.len() > 0 && accepts_text(prev.last().item) {
            let changed = prev.last().with_item(with_text_appended(prev.last().item, t->0));
            assert(bare_entries(prev.update(prev.len() - 1, changed)) =~= b.update(
                b.len() - 1,
                b.last().with_item(with_text_appended(b.last().item, t->0)),
            ));
        } else {
            assert(bare_entries(prev.push(s.last())) =~= b.push(CopyView::bare(s.last().item)));
        }
    }
}

proof fn lemma_bare_positions(s: Seq<CopyView>)
    ensures
        last_call_position(bare_entries(s)) == last_call_position(s),
        trailing_outputs_start(bare_entries(s)) == trailing_outputs_start(s),
    decreases s.len(),
{
    if s.len() > 0 {
        lemma_bare_positions(s.drop_last());
        lemma_bare_entries_drop_last(s);
    }
}

proof fn lemma_bare_scan(s: Seq<CopyView>)
    ensures
        relocation_scan(bare_entries(s)) == ({
            let st = relocation_scan(s);
            RelocationState {
                output: bare_entries(st.output),
                pending: bare_entries(st.pending),
                relocated: st.relocated,
            }
        }),
    decreases s.len(),
{
    if s.len() == 0 {
        assert(bare_entries(s) =~= Seq::<CopyView>::empty());
        assert(bare_entries(Seq::<CopyView>::empty()) =~= Seq::<CopyView>::empty());
    } else {
        lemma_bare_scan(s.drop_last());
        lemma_bare_entries_drop_last(s);
        let prev = relocation_scan(s.drop_last());
        let e = s.last();
        let bo = bare_entries(prev.output);
        let bp = bare_entries(prev.pending);
        let be = CopyView::bare(e.item);
        lemma_bare_positions(prev.output);
        if prev.output.len() > 0 {
            assert(bo.last() == CopyView::bare(prev.output.last().item));
        }
        let at = insertion_point(prev.output);
        lemma_last_call_position_bounds(prev.output);
        lemma_trailing_outputs_start_bounds(prev.output);
        assert(bare_entries(prev.pending.push(e)) =~= bp.push(be));
        assert(bare_entries((prev.output + prev.pending).push(e)) =~= (bo + bp).push(be));
        if 0 <= at <= prev.output.len() {
            assert(bare_entries(
                (prev.output.take(at) + prev.pending + prev.output.skip(at)).push(e),
            ) =~= (bo.take(at) + bp + bo.skip(at)).push(be));
        }
        assert(bare_entries(Seq::<CopyView>::empty()) =~= Seq::<CopyView>::empty());
    }
}

proof fn lemma_bare_ids(all: Seq<CopyView>)
    ensures
        forall|id: Seq<char>| #[trigger] has_call(bare_entries(all), id) == has_call(all, id),
        forall|id: Seq<char>| #[trigger] has_output(bare_entries(all), id) == has_output(all, id),
{
    let b = bare_entries(all);
    assert forall|id: Seq<char>| #[trigger] has_call(b, id) == has_call(all, id) by {
        if has_call(all, id) {
            let k = choose|k: int| 0 <= k < all.len() && call_id_of(#[trigger] all[k].item) == Some(id);
            assert(b[k].item == all[k].item);
        }
        if has_call(b, id) {
            let k = choose|k: int| 0 <= k < b.len() && call_id_of(#[trigger] b[k].item) == Some(id);
            assert(b[k].item == all[k].item);
        }
    }
    assert forall|id: Seq<char>| #[trigger] has_output(b, id) == has_output(all, id) by {
        if has_output(all, id) {
            let k = choose|k: int|
                0 <= k < all.len() && output_id_of(#[trigger] all[k].item) == Some(id);
            assert(b[k].item == all[k].item);
        }
        if has_output(b, id) {
            let k = choose|k: int| 0 <= k < b.len() && output_id_of(#[trigger] b[k].item) == Some(id);
            assert(b[k].item == all[k].item);
        }
    }
}

proof fn lemma_bare_repaired_prefix(all: Seq<CopyView>, n: int)
    requires
        0 <= n <= all.len(),
    ensures
        repaired_prefix(bare_entries(all), n) == bare_entries(repaired_prefix(all, n)),
    decreases n,
{
    if n == 0 {
        assert(bare_entries(Seq::<CopyView>::empty()) =~= Seq::<CopyView>::empty());
    } else {
        lemma_bare_repaired_prefix(all, n - 1);
        lemma_bare_ids(all);
        let b = bare_entries(all);
        let x = all[n - 1];
        assert(b[n - 1] == CopyView::bare(x.item));
        assert(keeps_entry(b[n - 1], b) == keeps_entry(x, all));
        assert(is_dangling_call(b[n - 1], b) == is_dangling_call(x, all));
        let r = repaired_prefix(all, n - 1);
        assert(bare_entries(r + repaired_entry(x, all)) =~= bare_entries(r) + repaired_entry(
            b[n - 1],
            b,
        ));
    }
}

/// Metadata never affects the items: dropping the metadata of the sanitized
/// copy gives the sanitized copy of the input with its metadata dropped, so
/// an annotated copy holds exactly the items of the bare one.
pub proof fn law_metadata_does_not_affect_the_items(provider: Seq<u8>, items: Seq<CopyView>)
    ensures
        bare_entries(sanitized(provider, items)) == sanitized(provider, bare_entries(items)),
{
    let o = targets_openai(provider);
    lemma_bare_filter(items, o);
    if !o {
        let kept = kept_reasoning(items, false);
        lemma_bare_merged(kept);
        let merged = merged_notices(kept);
        lemma_bare_scan(merged);
        let st = relocation_scan(merged);
        assert(bare_entries(st.output + st.pending) =~= bare_entries(st.output) + bare_entries(
            st.pending,
        ));
        let relocated = relocated_messages(merged);
        lemma_bare_repaired_prefix(relocated, relocated.len() as int);
    }
}

/// How many entries of the copy carry the given metadata.
pub open spec fn metadata_count(s: Seq<CopyView>, m: CodexHarnessMetadata) -> nat {
    s.filter(|e: CopyView| e.metadata == Some(m)).len()
}

proof fn lemma_metadata_count_push(s: Seq<CopyView>, e: CopyView, m: CodexHarnessMetadata)
    ensures
        metadata_count(s.push(e), m) == metadata_count(s, m) + (if e.metadata == Some(m) {
            1nat
        } else {
            0nat
        }),
{
    s.lemma_filter_push(e, |x: CopyView| x.metadata == Some(m));
}

proof fn lemma_metadata_count_add(a: Seq<CopyView>, b: Seq<CopyView>, m: CodexHarnessMetadata)
    ensures
        metadata_count(a + b, m) == metadata_count(a, m) + metadata_count(b, m),
{
    Seq::filter_distributes_over_add(a, b, |x: CopyView| x.metadata == Some(m));
}

proof fn lemma_metadata_count_filter(
    s: Seq<CopyView>,
    p: spec_fn(CopyView) -> bool,
    m: CodexHarnessMetadata,
)
    ensures
        metadata_count(s.filter(p), m) <= metadata_count(s, m),
    decreases s.len(),
{
    reveal(Seq::filter);
    if s.len() > 0 {
        lemma_metadata_count_filter(s.drop_last(), p, m);
        assert(s =~= s.drop_last().push(s.last()));
        lemma_metadata_count_push(s.drop_last(), s.last(), m);
        lemma_metadata_count_push(s.drop_last().filter(p), s.last(), m);
    }
}

proof fn lemma_metadata_count_merged(s: Seq<CopyView>, m: CodexHarnessMetadata)
    ensures
        metadata_count(merged_notices(s), m) <= metadata_count(s, m),
    decreases s.len(),
{
    if s.len() == 0 {
        reveal(Seq::filter);
    } else {
        lemma_metadata_count_merged(s.drop_last(), m);
        assert(s =~= s.drop_last().push(s.last()));
        lemma_metadata_count_push(s.drop_last(), s.last(), m);
        let prev = merged_notices(s.drop_last());
        let t = notice_text(s.last().item);
        if t is Some && prev.len() > 0 && accepts_text(prev.last().item) {
            let changed = prev.last().with_item(with_text_appended(prev.last().item, t->0));
            let upd = prev.update(prev.len() - 1, changed);
            assert(upd =~= prev.drop_last().push(changed));
            assert(prev =~= prev.drop_last().push(prev.last()));
            lemma_metadata_count_push(prev.drop_last(), changed, m);
            lemma_metadata_count_push(prev.drop_last(), prev.last(), m);
        } else {
            lemma_metadata_count_push(prev, s.last(), m);
        }
    }
}

proof fn lemma_metadata_count_scan(items: Seq<CopyView>, m: CodexHarnessMetadata)
    ensures
        metadata_count(relocation_scan(items).output, m) + metadata_count(
            relocation_scan(items).pending,
            m,
        ) == metadata_count(items, m),
    decreases items.len(),
{
    if items.len() == 0 {
        reveal(Seq::filter);
    } else {
        let rest = items.drop_last();
        let e = items.last();
        lemma_metadata_count_scan(rest, m);
        let prev = relocation_scan(rest);
        assert(items =~= rest.push(e));
        lemma_metadata_count_push(rest, e, m);
        reveal(Seq::filter);
        assert(Seq::<CopyView>::empty().filter(|x: CopyView| x.metadata == Some(m))
            =~= Seq::<CopyView>::empty());
        if e.item is Message {
            lemma_metadata_count_push(prev.pending, e, m);
        } else if is_output_model(e.item) && run_interrupts_pair(prev) {
            let at = insertion_point(prev.output);
            lemma_last_call_position_bounds(prev.output);
            lemma_trailing_outputs_start_bounds(prev.output);
            let a = prev.output.take(at);
            let b = prev.output.skip(at);
            assert(prev.output =~= a + b);
            lemma_metadata_count_add(a, b, m);
            lemma_metadata_count_add(a, prev.pending, m);
            lemma_metadata_count_add(a + prev.pending, b, m);
            lemma_metadata_count_push(a + prev.pending + b, e, m);
        } else {
            lemma_metadata_count_add(prev.output, prev.pending, m);
            lemma_metadata_count_push(prev.output + prev.pending, e, m);
        }
    }
}

proof fn lemma_metadata_count_repaired(all: Seq<CopyView>, n: int, m: CodexHarnessMetadata)
    requires
        0 <= n <= all.len(),
    ensures
        metadata_count(repaired_prefix(all, n), m) <= metadata_count(all.take(n), m),
    decreases n,
{
    if n == 0 {
        reveal(Seq::filter);
        assert(all.take(0) =~= Seq::<CopyView>::empty());
    } else {
        lemma_metadata_count_repaired(all, n - 1, m);
        let x = all[n - 1];
        let r = repaired_prefix(all, n - 1);
        assert(all.take(n) =~= all.take(n - 1).push(x));
        lemma_metadata_count_push(all.take(n - 1), x, m);
        if !keeps_entry(x, all) {
            assert(repaired_prefix(all, n) =~= r);
        } else if is_dangling_call(x, all) {
            let stand_in = CopyView::bare(stand_in_output(x.item));
            assert(repaired_prefix(all, n) =~= r.push(x).push(stand_in));
            lemma_metadata_count_push(r, x, m);
            lemma_metadata_count_push(r.push(x), stand_in, m);
        } else {
            assert(repaired_prefix(all, n) =~= r.push(x));
            lemma_metadata_count_push(r, x, m);
        }
    }
}

/// Metadata is never duplicated: the copy holds no more entries carrying a
/// given metadata than the input does, so every entry that carries metadata
/// can be matched with a distinct input entry carrying the same.
pub proof fn law_metadata_is_never_duplicated(
    provider: Seq<u8>,
    items: Seq<CopyView>,
    m: CodexHarnessMetadata,
)
    ensures
        metadata_count(sanitized(provider, items), m) <= metadata_count(items, m),
{
    let o = targets_openai(provider);
    let kept = kept_reasoning(items, o);
    lemma_metadata_count_filter(items, |e: CopyView| keeps_reasoning(e.item, o), m);
    if !o {
        lemma_metadata_count_merged(kept, m);
        let merged = merged_notices(kept);
        lemma_metadata_count_scan(merged, m);
        let st = relocation_scan(merged);
        lemma_metadata_count_add(st.output, st.pending, m);
        let relocated = relocated_messages(merged);
        lemma_metadata_count_repaired(relocated, relocated.len() as int, m);
        assert(relocated.take(relocated.len() as int) =~= relocated);
    }
}

/// The entry is a reasoning item.
pub open spec fn is_reasoning_entry(e: CopyView) -> bool {
    e.item is Reasoning
}

/// The entry is a reasoning item whose content is a non-empty list of
/// plaintext parts (whatever its summary and encrypted content).
pub open spec fn reasoning_with_plaintext(e: CopyView) -> bool {
    e.item matches ItemModel::Reasoning { content: Some(parts), .. } && parts.len() > 0
}

/// The entry is a reasoning item whose encrypted content is non-empty and
/// whose content is not a non-empty list (whatever its summary).
pub open spec fn reasoning_encrypted_only(e: CopyView) -> bool {
    &&& e.item is Reasoning
    &&& e.item->Reasoning_encrypted_content matches Some(text) && text.len() > 0
    &&& !(e.item->Reasoning_content matches Some(parts) && parts.len() > 0)
}

/// The provider id is "openai" up to ASCII case.
pub open spec fn id_is_openai(provider: Seq<u8>) -> bool {
    ascii_eq_ignore_case(provider, crate::sanitize::OPENAI_PROVIDER_ID.spec_bytes())
}

proof fn lemma_filter_filter(
    s: Seq<CopyView>,
    p: spec_fn(CopyView) -> bool,
    q: spec_fn(CopyView) -> bool,
    both: spec_fn(CopyView) -> bool,
)
    requires
        forall|x: CopyView| #[trigger] both(x) == (p(x) && q(x)),
    ensures
        s.filter(p).filter(q) == s.filter(both),
    decreases s.len(),
{
    reveal(Seq::filter);
    if s.len() > 0 {
        lemma_filter_filter(s.drop_last(), p, q, both);
        let f = s.drop_last().filter(p);
        f.lemma_filter_push(s.last(), q);
        assert(both(s.last()) == (p(s.last()) && q(s.last())));
    }
}

proof fn lemma_merged_keeps_reasoning_order(s: Seq<CopyView>)
    ensures
        merged_notices(s).filter(|e: CopyView| is_reasoning_entry(e)) == s.filter(
            |e: CopyView| is_reasoning_entry(e),
        ),
    decreases s.len(),
{
    let r = |e: CopyView| is_reasoning_entry(e);
    if s.len() == 0 {
        reveal(Seq::filter);
    } else {
        lemma_merged_keeps_reasoning_order(s.drop_last());
        assert(s =~= s.drop_last().push(s.last()));
        s.drop_last().lemma_filter_push(s.last(), r);
        let prev = merged_notices(s.drop_last());
        let t = notice_text(s.last().item);
        if t is Some && prev.len() > 0 && accepts_text(prev.last().item) {
            let changed = prev.last().with_item(with_text_appended(prev.last().item, t->0));
            assert(prev.update(prev.len() - 1, changed) =~= prev.drop_last().push(changed));
            assert(prev =~= prev.drop_last().push(prev.last()));
            prev.drop_last().lemma_filter_push(changed, r);
            prev.drop_last().lemma_filter_push(prev.last(), r);
        } else {
            prev.lemma_filter_push(s.last(), r);
        }
    }
}

/// The third-party passes keep the reasoning items of the copy as they are
/// and in their order.
proof fn lemma_third_party_passes_keep_reasoning(s: Seq<CopyView>)
    ensures
        repaired_pairing(relocated_messages(merged_notices(s))).filter(
            |e: CopyView| is_reasoning_entry(e),
        ) == s.filter(|e: CopyView| is_reasoning_entry(e)),
{
    let r = |e: CopyView| is_reasoning_entry(e);
    let nm = |e: CopyView| not_message(e);
    let no = |e: CopyView| not_output(e);
    let merged = merged_notices(s);
    let relocated = relocated_messages(merged);
    let repaired = repaired_pairing(relocated);
    lemma_merged_keeps_reasoning_order(s);
    law_relocation_only_moves_messages(merged);
    lemma_filter_narrower(relocated, nm, r);
    lemma_filter_narrower(merged, nm, r);
    law_repair_only_adds_and_drops_outputs(relocated);
    lemma_filter_narrower(repaired, no, r);
    lemma_filter_narrower(relocated, no, r);
}

/// For a provider whose id is not "openai" (up to ASCII case), the reasoning
/// items of the copy are exactly the input's reasoning items whose content is
/// a non-empty list of plaintext parts, in their order; summary and encrypted
/// content play no part.
pub proof fn law_third_party_keeps_exactly_reasoning_with_plaintext(
    provider: Seq<u8>,
    items: Seq<CopyView>,
)
    requires
        !id_is_openai(provider),
    ensures
        sanitized(provider, items).filter(|e: CopyView| is_reasoning_entry(e)) == items.filter(
            |e: CopyView| reasoning_with_plaintext(e),
        ),
{
    let k = |e: CopyView| keeps_reasoning(e.item, false);
    let r = |e: CopyView| is_reasoning_entry(e);
    let kept = items.filter(k);
    lemma_third_party_passes_keep_reasoning(kept);
    lemma_filter_filter(items, k, r, |e: CopyView| reasoning_with_plaintext(e));
}

/// For a provider whose id is "openai" (up to ASCII case), the reasoning items
/// of the copy are exactly the input's reasoning items that carry non-empty
/// encrypted content and no non-empty plaintext list, in their order; the
/// summary plays no part.
pub proof fn law_openai_keeps_exactly_encrypted_only_reasoning(
    provider: Seq<u8>,
    items: Seq<CopyView>,
)
    requires
        id_is_openai(provider),
    ensures
        sanitized(provider, items).filter(|e: CopyView| is_reasoning_entry(e)) == items.filter(
            |e: CopyView| reasoning_encrypted_only(e),
        ),
{
    let k = |e: CopyView| keeps_reasoning(e.item, true);
    let r = |e: CopyView| is_reasoning_entry(e);
    lemma_filter_filter(items, k, r, |e: CopyView| reasoning_encrypted_only(e));
}

/// The OpenAI rules apply exactly when the provider id is "openai" up to
/// ASCII case: then the copy is the input without the reasoning items that
/// are not encrypted-only; for every other id the copy is the third-party
/// pipeline (notices folded, messages relocated, pairing repaired) run on the
/// input without the reasoning items that lack plaintext.
pub proof fn law_openai_rules_apply_exactly_to_openai(provider: Seq<u8>, items: Seq<CopyView>)
    ensures
        id_is_openai(provider) ==> sanitized(provider, items) == items.filter(
            |e: CopyView| !is_reasoning_entry(e) || reasoning_encrypted_only(e),
        ),
        !id_is_openai(provider) ==> sanitized(provider, items) == repaired_pairing(
            relocated_messages(
                merged_notices(
                    items.filter(|e: CopyView| !is_reasoning_entry(e) || reasoning_with_plaintext(e)),
                ),
            ),
        ),
{
    let ko = |e: CopyView| keeps_reasoning(e.item, true);
    let kt = |e: CopyView| keeps_reasoning(e.item, false);
    let fo = |e: CopyView| !is_reasoning_entry(e) || reasoning_encrypted_only(e);
    let ft = |e: CopyView| !is_reasoning_entry(e) || reasoning_with_plaintext(e);
    assert(ko =~= fo);
    assert(kt =~= ft);
}

/// The entry is a message directly followed by a tool output.
pub open spec fn message_right_before_output(s: Seq<CopyView>, i: int) -> bool {
    0 <= i < s.len() - 1 && s[i].item is Message && is_output_model(s[i + 1].item)
}

proof fn lemma_scan_without_interruption(items: Seq<CopyView>)
    requires
        forall|i: int| !#[trigger] message_right_before_output(items, i),
    ensures
        relocation_scan(items).output + relocation_scan(items).pending == items,
        relocation_scan(items).pending.len() > 0 ==> items.last().item is Message,
        relocation_scan(items).relocated == 0,
    decreases items.len(),
{
    if items.len() == 0 {
        assert(Seq::<CopyView>::empty() + Seq::<CopyView>::empty() =~= items);
    } else {
        let rest = items.drop_last();
        let e = items.last();
        assert forall|i: int| !#[trigger] message_right_before_output(rest, i) by {
            if message_right_before_output(rest, i) {
                assert(rest[i] == items[i] && rest[i + 1] == items[i + 1]);
                assert(message_right_before_output(items, i));
            }
        }
        lemma_scan_without_interruption(rest);
        let prev = relocation_scan(rest);
        if prev.pending.len() > 0 && is_output_model(e.item) {
            assert(rest.last() == items[items.len() - 2]);
            assert(message_right_before_output(items, items.len() - 2));
        }
        assert(items =~= rest.push(e));
        if e.item is Message {
            assert(prev.output + prev.pending.push(e) =~= (prev.output + prev.pending).push(e));
        } else {
            assert((prev.output + prev.pending).push(e) =~= items);
            assert((prev.output + prev.pending).push(e) + Seq::<CopyView>::empty() =~= items);
        }
    }
}

/// A run of messages only ever moves off a tool output it sits directly in
/// front of: in a copy where no message is directly followed by a tool
/// output, relocation changes nothing and moves no run.
pub proof fn law_relocation_leaves_copies_without_message_before_output_alone(
    items: Seq<CopyView>,
)
    requires
        forall|i: int| !#[trigger] message_right_before_output(items, i),
    ensures
        relocated_messages(items) == items,
        crate::relocate::relocated_count(items) == 0,
{
    lemma_scan_without_interruption(items);
}

/// Folding only ever touches notices: a copy with no image resize notice in
/// it comes out of the folding pass unchanged.
pub proof fn law_folding_leaves_copies_without_notices_alone(items: Seq<CopyView>)
    requires
        forall|i: int| 0 <= i < items.len() ==> notice_text(#[trigger] items[i].item) is None,
    ensures
        merged_notices(items) == items,
    decreases items.len(),
{
    if items.len() > 0 {
        let rest = items.drop_last();
        assert forall|i: int| 0 <= i < rest.len() implies notice_text(
            #[trigger] rest[i].item,
        ) is None by {
            assert(rest[i] == items[i]);
        }
        law_folding_leaves_copies_without_notices_alone(rest);
        assert(notice_text(items[items.len() - 1].item) is None);
        assert(rest.push(items.last()) =~= items);
    }
}

/// Comparing with a string that has no ASCII capital letters ignores ASCII
/// case exactly: each byte must equal the other's, or be its capital form
/// (the byte 32 below a lower-case letter).
pub proof fn law_ascii_case_comparison(a: Seq<u8>, b: Seq<u8>)
    requires
        forall|i: int| 0 <= i < b.len() ==> !(65 <= #[trigger] b[i] <= 90),
    ensures
        ascii_eq_ignore_case(a, b) <==> (a.len() == b.len() && forall|i: int|
            0 <= i < a.len() ==> (#[trigger] a[i] == b[i] || (97 <= b[i] <= 122 && a[i] + 32
                == b[i]))),
{
    if a.len() == b.len() {
        assert forall|i: int| 0 <= i < a.len() implies (ascii_lower(#[trigger] a[i]) == ascii_lower(
            b[i],
        )) == (a[i] == b[i] || (97 <= b[i] <= 122 && a[i] + 32 == b[i])) by {
            assert(!(65 <= b[i] <= 90));
        }
    }
}

/// The bytes of the OpenAI provider id.
pub proof fn lemma_openai_id_bytes()
    ensures
        crate::sanitize::OPENAI_PROVIDER_ID.spec_bytes() == openai_letters(),
{
    reveal_strlit("openai");
    let id = crate::sanitize::OPENAI_PROVIDER_ID;
    assert(id@ =~= seq!['o', 'p', 'e', 'n', 'a', 'i']);
    assert(vstd::string::is_ascii(id));
    vstd::string::is_ascii_spec_bytes(id);
    assert(id.spec_bytes() =~= openai_letters());
}

/// The letters o, p, e, n, a, i as ASCII bytes.
pub open spec fn openai_letters() -> Seq<u8> {
    seq![111u8, 112u8, 101u8, 110u8, 97u8, 105u8]
}

/// The OpenAI rules are chosen for exactly the ids that spell "openai" in any
/// mix of ASCII upper and lower case letters: six bytes, each the lower-case
/// letter or its capital.
pub proof fn law_openai_id_is_openai_in_any_case(provider: Seq<u8>)
    ensures
        id_is_openai(provider) <==> (provider.len() == 6 && forall|i: int|
            0 <= i < 6 ==> (#[trigger] provider[i] == openai_letters()[i] || provider[i] + 32
                == openai_letters()[i])),
{
    lemma_openai_id_bytes();
    let o = openai_letters();
    law_ascii_case_comparison(provider, o);
}

/// Part `k` is the first of the parts whose text has the most UTF-8 bytes.
pub open spec fn first_longest_part(parts: Seq<ContentModel>, k: int) -> bool {
    &&& 0 <= k < parts.len()
    &&& forall|j: int|
        0 <= j < parts.len() ==> byte_len(input_text_of(#[trigger] parts[j])) <= byte_len(
            input_text_of(parts[k]),
        )
    &&& forall|j: int|
        0 <= j < k ==> byte_len(input_text_of(#[trigger] parts[j])) < byte_len(
            input_text_of(parts[k]),
        )
}

proof fn lemma_longest_text_is_first_longest(parts: Seq<ContentModel>)
    requires
        parts.len() > 0,
    ensures
        exists|k: int|
            first_longest_part(parts, k) && longest_text(parts) == input_text_of(
                #[trigger] parts[k],
            ),
    decreases parts.len(),
{
    if parts.len() == 1 {
        assert(first_longest_part(parts, 0));
    } else {
        let rest = parts.drop_last();
        lemma_longest_text_is_first_longest(rest);
        let k0 = choose|k: int|
            first_longest_part(rest, k) && longest_text(rest) == input_text_of(#[trigger] rest[k]);
        let last = parts.len() - 1;
        if byte_len(longest_text(rest)) < byte_len(input_text_of(parts[last])) {
            assert forall|j: int|
                0 <= j < parts.len() implies byte_len(input_text_of(#[trigger] parts[j])) <= byte_len(
                input_text_of(parts[last]),
            ) by {
                if j < last {
                    assert(parts[j] == rest[j]);
                }
            }
            assert forall|j: int| 0 <= j < last implies byte_len(input_text_of(#[trigger] parts[j]))
                < byte_len(input_text_of(parts[last])) by {
                assert(parts[j] == rest[j]);
            }
            assert(first_longest_part(parts, last));
        } else {
            assert(parts[k0] == rest[k0]);
            assert forall|j: int|
                0 <= j < parts.len() implies byte_len(input_text_of(#[trigger] parts[j])) <= byte_len(
                input_text_of(parts[k0]),
            ) by {
                if j < last {
                    assert(parts[j] == rest[j]);
                }
            }
            assert forall|j: int| 0 <= j < k0 implies byte_len(input_text_of(#[trigger] parts[j]))
                < byte_len(input_text_of(parts[k0])) by {
                assert(parts[j] == rest[j]);
            }
            assert(first_longest_part(parts, k0));
        }
    }
}

proof fn lemma_first_longest_unique(parts: Seq<ContentModel>, k1: int, k2: int)
    requires
        first_longest_part(parts, k1),
        first_longest_part(parts, k2),
    ensures
        k1 == k2,
{
    if k1 < k2 {
        assert(byte_len(input_text_of(parts[k1])) < byte_len(input_text_of(parts[k2])));
        assert(byte_len(input_text_of(parts[k2])) <= byte_len(input_text_of(parts[k1])));
    } else if k2 < k1 {
        assert(byte_len(input_text_of(parts[k2])) < byte_len(input_text_of(parts[k1])));
        assert(byte_len(input_text_of(parts[k1])) <= byte_len(input_text_of(parts[k2])));
    }
}

/// An item is an image resize notice with text `t` exactly when it is a
/// developer message whose content is a non-empty list of input-text parts,
/// `t` is the text of the first part with the most UTF-8 bytes, and `t`
/// contains both notice markers.
pub proof fn law_notice_is_the_longest_marked_part(item: ItemModel, t: Seq<char>)
    ensures
        notice_text(item) == Some(t) <==> (item matches ItemModel::Message { role, content, .. }
            && role == DEVELOPER_ROLE@ && content.len() > 0 && (forall|j: int|
            0 <= j < content.len() ==> (#[trigger] content[j]) is InputText) && (exists|k: int|
            first_longest_part(content, k) && input_text_of(#[trigger] content[k]) == t)
            && contains_bytes(encode_utf8(t), IMAGE_RESIZE_NOTICE_START.spec_bytes())
            && contains_bytes(encode_utf8(t), IMAGE_RESIZE_NOTICE_END.spec_bytes())),
{
    if let ItemModel::Message { role, content, .. } = item {
        if content.len() > 0 {
            lemma_longest_text_is_first_longest(content);
            let k0 = choose|k: int|
                first_longest_part(content, k) && longest_text(content) == input_text_of(
                    #[trigger] content[k],
                );
            if exists|k: int| first_longest_part(content, k) && input_text_of(#[trigger] content[k]) == t {
                let k = choose|k: int|
                    first_longest_part(content, k) && input_text_of(#[trigger] content[k]) == t;
                lemma_first_longest_unique(content, k, k0);
            }
            if notice_text(item) == Some(t) {
                assert(first_longest_part(content, k0) && input_text_of(content[k0]) == t);
            }
        }
    }
}

/// The entry is a tool output, without metadata, whose payload is the
/// placeholder text.
pub open spec fn is_placeholder_output(e: CopyView) -> bool {
    &&& e.metadata is None
    &&& match e.item {
        ItemModel::FunctionCallOutput { output, .. } => output.body == OutputBodyModel::Text(
            OMITTED_TOOL_OUTPUT_PLACEHOLDER@,
        ),
        ItemModel::CustomToolCallOutput { output, .. } => output.body == OutputBodyModel::Text(
            OMITTED_TOOL_OUTPUT_PLACEHOLDER@,
        ),
        _ => false,
    }
}

proof fn lemma_repaired_prefix_new_entries(all: Seq<CopyView>, n: int)
    requires
        0 <= n <= all.len(),
    ensures
        forall|i: int|
            0 <= i < repaired_prefix(all, n).len() && !all.contains(
                #[trigger] repaired_prefix(all, n)[i],
            ) ==> i > 0 && is_dangling_call(repaired_prefix(all, n)[i - 1], all)
                && repaired_prefix(all, n)[i] == CopyView::bare(
                stand_in_output(repaired_prefix(all, n)[i - 1].item),
            ),
    decreases n,
{
    if n > 0 {
        lemma_repaired_prefix_new_entries(all, n - 1);
        let a = repaired_prefix(all, n - 1);
        let x = all[n - 1];
        let e = repaired_entry(x, all);
        let r = repaired_prefix(all, n);
        assert(r == a + e);
        assert(all.contains(x));
        assert forall|i: int| 0 <= i < r.len() && !all.contains(#[trigger] r[i]) implies i > 0
            && is_dangling_call(r[i - 1], all) && r[i] == CopyView::bare(
            stand_in_output(r[i - 1].item),
        ) by {
            if i < a.len() {
                assert(r[i] == a[i]);
                assert(r[i - 1] == a[i - 1]);
            } else {
                assert(r[i] == e[i - a.len()]);
                if i - a.len() == 1 {
                    assert(r[i - 1] == e[0]);
                }
            }
        }
    }
}

/// Every entry the repair adds is a placeholder output, without metadata,
/// placed directly after the call it answers.
pub proof fn law_repair_adds_placeholders_right_after_their_calls(items: Seq<CopyView>)
    ensures
        forall|i: int|
            0 <= i < repaired_pairing(items).len() && !items.contains(
                #[trigger] repaired_pairing(items)[i],
            ) ==> i > 0 && is_placeholder_output(repaired_pairing(items)[i])
                && call_id_of(repaired_pairing(items)[i - 1].item) is Some && output_id_of(
                repaired_pairing(items)[i].item,
            ) == call_id_of(repaired_pairing(items)[i - 1].item),
{
    lemma_repaired_prefix_new_entries(items, items.len() as int);
}

} // verus!
