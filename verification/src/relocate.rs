//! Some Responses-compatible providers only associate a tool output when no
//! message sits directly in front of it. Only a run of messages that
//! interrupts the call/output region moves: a run whose predecessor is a call
//! (call, message, output) or another tool output (output, message, output).
//! Such a run moves in front of the last call placed before it; where no
//! call has been placed, in front of the tool outputs that end the copy so
//! far. Runs that precede the whole batch (history, developer instructions,
//! the assistant's turn text) stay where they are.

use vstd::prelude::*;

use crate::items::{is_call_family, is_call_model, is_output_model, is_tool_output, ResponseItem};
use crate::prompt_copy::{
    copy_views, lemma_copy_views_add, lemma_copy_views_insert, lemma_copy_views_push,
    lemma_copy_views_subrange, CopyView, PromptCopyItem,
};

verus! {

/// Where the scan over the copy stands: the items placed so far, the run of
/// messages held back, and how many runs have been moved.
pub struct RelocationState {
    pub output: Seq<CopyView>,
    pub pending: Seq<CopyView>,
    pub relocated: nat,
}

/// The position of the last call in the sequence, if there is one.
pub open spec fn last_call_position(s: Seq<CopyView>) -> Option<int>
    decreases s.len(),
{
    if s.len() == 0 {
        None
    } else if is_call_model(s.last().item) {
        Some(s.len() - 1)
    } else {
        last_call_position(s.drop_last())
    }
}

/// The last call's position lies inside the sequence, and the entry there is
/// a call; when there is none, no entry is a call.
pub proof fn lemma_last_call_position_bounds(s: Seq<CopyView>)
    ensures
        last_call_position(s) matches Some(i) ==> 0 <= i < s.len() && is_call_model(s[i].item),
        last_call_position(s) is None ==> forall|k: int|
            0 <= k < s.len() ==> !is_call_model(#[trigger] s[k].item),
    decreases s.len(),
{
    if s.len() > 0 && !is_call_model(s.last().item) {
        let t = s.drop_last();
        lemma_last_call_position_bounds(t);
        if last_call_position(s) is None {
            assert forall|k: int| 0 <= k < s.len() implies !is_call_model(#[trigger] s[k].item) by {
                if k < s.len() - 1 {
                    assert(s[k] == t[k]);
                }
            }
        }
    }
}

/// Where the run of tool outputs that ends the sequence begins (the
/// sequence's length when it does not end with a tool output).
pub open spec fn trailing_outputs_start(s: Seq<CopyView>) -> int
    decreases s.len(),
{
    if s.len() > 0 && is_output_model(s.last().item) {
        trailing_outputs_start(s.drop_last())
    } else {
        s.len() as int
    }
}

/// Everything from the trailing run's start on is a tool output, and the
/// entry before it is not.
pub proof fn lemma_trailing_outputs_start_bounds(s: Seq<CopyView>)
    ensures
        0 <= trailing_outputs_start(s) <= s.len(),
        forall|k: int|
            trailing_outputs_start(s) <= k < s.len() ==> is_output_model(#[trigger] s[k].item),
        trailing_outputs_start(s) > 0 ==> !is_output_model(s[trailing_outputs_start(s) - 1].item),
        s.len() > 0 && is_output_model(s.last().item) ==> trailing_outputs_start(s) < s.len(),
    decreases s.len(),
{
    if s.len() > 0 && is_output_model(s.last().item) {
        let t = s.drop_last();
        lemma_trailing_outputs_start_bounds(t);
        assert forall|k: int|
            trailing_outputs_start(s) <= k < s.len() implies is_output_model(#[trigger] s[k].item) by {
            if k < s.len() - 1 {
                assert(s[k] == t[k]);
            }
        }
        if trailing_outputs_start(s) > 0 {
            assert(s[trailing_outputs_start(s) - 1] == t[trailing_outputs_start(s) - 1]);
        }
    }
}

/// Where a held-back run is inserted: before the last call placed so far,
/// or, when no call has been placed, before the tool outputs that end what
/// has been placed.
pub open spec fn insertion_point(s: Seq<CopyView>) -> int {
    match last_call_position(s) {
        Some(i) => i,
        None => trailing_outputs_start(s),
    }
}

/// A held-back run sits between a call or tool output and the tool output now
/// being placed.
pub open spec fn run_interrupts_pair(state: RelocationState) -> bool {
    &&& state.pending.len() > 0
    &&& state.output.len() > 0
    &&& (is_call_model(state.output.last().item) || is_output_model(state.output.last().item))
}

/// One step of the scan.
pub open spec fn relocation_step(state: RelocationState, entry: CopyView) -> RelocationState {
    if entry.item is Message {
        RelocationState { pending: state.pending.push(entry), ..state }
    } else if is_output_model(entry.item) && run_interrupts_pair(state) {
        let at: int = insertion_point(state.output);
        RelocationState {
            output: (state.output.take(at) + state.pending + state.output.skip(at)).push(entry),
            pending: Seq::empty(),
            relocated: state.relocated + 1,
        }
    } else {
        RelocationState {
            output: (state.output + state.pending).push(entry),
            pending: Seq::empty(),
            relocated: state.relocated,
        }
    }
}

/// The state of the scan after the given items.
pub open spec fn relocation_scan(items: Seq<CopyView>) -> RelocationState
    decreases items.len(),
{
    if items.len() == 0 {
        RelocationState { output: Seq::empty(), pending: Seq::empty(), relocated: 0 }
    } else {
        relocation_step(relocation_scan(items.drop_last()), items.last())
    }
}

/// The copy after relocation: what was placed, then the run still held back.
pub open spec fn relocated_messages(items: Seq<CopyView>) -> Seq<CopyView> {
    let state = relocation_scan(items);
    state.output + state.pending
}

/// The number of runs moved.
pub open spec fn relocated_count(items: Seq<CopyView>) -> nat {
    relocation_scan(items).relocated
}

fn trailing_outputs_index<T: PromptCopyItem>(output: &Vec<T>) -> (r: usize)
    ensures
        r == trailing_outputs_start(copy_views(output@)),
{
    let ghost s = copy_views(output@);
    let mut i: usize = output.len();
    assert(s.take(i as int) =~= s);
    while i > 0 && is_tool_output(output[i - 1].response_item())
        invariant
            s == copy_views(output@),
            i <= output@.len(),
            trailing_outputs_start(s) == trailing_outputs_start(s.take(i as int)),
        decreases i,
    {
        proof {
            assert(s.take(i as int).drop_last() =~= s.take(i - 1));
        }
        i = i - 1;
    }
    proof {
        if i > 0 {
            assert(s.take(i as int).last() == s[i - 1]);
        }
    }
    i
}

enum RunAction {
    Buffer,
    FlushPendingThenKeep,
    Keep,
}

fn last_call_index<T: PromptCopyItem>(output: &Vec<T>) -> (r: Option<usize>)
    ensures
        r matches Some(j) ==> last_call_position(copy_views(output@)) == Some(j as int),
        r is None ==> last_call_position(copy_views(output@)) is None,
{
    let ghost s = copy_views(output@);
    let mut i: usize = output.len();
    assert(s.take(i as int) =~= s);
    while i > 0
        invariant
            s == copy_views(output@),
            i <= output@.len(),
            last_call_position(s) == last_call_position(s.take(i as int)),
        decreases i,
    {
        proof {
            assert(s.take(i as int).drop_last() =~= s.take(i - 1));
        }
        if is_call_family(output[i - 1].response_item()) {
            return Some(i - 1);
        }
        i = i - 1;
    }
    None
}

/// Moves every run of messages that interrupts a call and its output, or two
/// outputs, in front of the last call placed before it (in front of the
/// trailing tool outputs where no call has been placed). Returns the new copy
/// and the number of runs moved.
pub fn relocate_messages_away_from_tool_outputs<T: PromptCopyItem>(items: Vec<T>) -> (result: (
    Vec<T>,
    usize,
))
    ensures
        copy_views(result.0@) == relocated_messages(copy_views(items@)),
        result.1 == relocated_count(copy_views(items@)),
{
    let ghost input = copy_views(items@);
    let count: usize = items.len();
    let mut relocated: usize = 0;
    let mut output: Vec<T> = Vec::with_capacity(count);
    let mut pending: Vec<T> = Vec::new();
    assert(input.take(0) =~= Seq::<CopyView>::empty());
    assert(copy_views(output@) =~= Seq::<CopyView>::empty());
    assert(copy_views(pending@) =~= Seq::<CopyView>::empty());
    for item in it: items
        invariant
            input == copy_views(it.seq()),
            it.seq().len() == count,
            relocation_scan(input.take(it.index())) == (RelocationState {
                output: copy_views(output@),
                pending: copy_views(pending@),
                relocated: relocated as nat,
            }),
            relocated <= it.index(),
    {
        proof {
            assert(input.take(it.index() + 1).drop_last() =~= input.take(it.index()));
        }
        let ghost before = RelocationState {
            output: copy_views(output@),
            pending: copy_views(pending@),
            relocated: relocated as nat,
        };
        let action = match item.response_item() {
            ResponseItem::Message { .. } => RunAction::Buffer,
            current => {
                if is_tool_output(current) {
                    RunAction::FlushPendingThenKeep
                } else {
                    RunAction::Keep
                }
            },
        };
        match action {
            RunAction::Buffer => {
                pending.push(item);
                proof {
                    assert(copy_views(pending@) =~= before.pending.push(input[it.index() as int]));
                }
            },
            RunAction::FlushPendingThenKeep => {
                let interrupts_call_pair = pending.len() > 0 && output.len() > 0
                    && is_call_family(output[output.len() - 1].response_item());
                let interrupts_output_pair = pending.len() > 0 && output.len() > 0
                    && is_tool_output(output[output.len() - 1].response_item());
                proof {
                    if output@.len() > 0 {
                        assert(before.output.last() == output@[output@.len() - 1].copy_view());
                    }
                    assert((interrupts_call_pair || interrupts_output_pair) == run_interrupts_pair(
                        before,
                    ));
                }
                if interrupts_call_pair || interrupts_output_pair {
                    let insert_at: usize = match last_call_index(&output) {
                        Some(i) => i,
                        None => trailing_outputs_index(&output),
                    };
                    let ghost at: int = insert_at as int;
                    proof {
                        lemma_last_call_position_bounds(before.output);
                        lemma_trailing_outputs_start_bounds(before.output);
                        assert(at == insertion_point(before.output));
                        assert(copy_views(output@) =~= before.output.take(at) + before.pending.skip(
                            before.pending.len() as int,
                        ) + before.output.skip(at));
                    }
                    while pending.len() > 0
                        invariant
                            insert_at <= before.output.len(),
                            at == insert_at,
                            copy_views(pending@) == before.pending.take(pending@.len() as int),
                            pending@.len() <= before.pending.len(),
                            output@.len() == before.output.len() + before.pending.len()
                                - pending@.len(),
                            copy_views(output@) == before.output.take(at) + before.pending.skip(
                                pending@.len() as int,
                            ) + before.output.skip(at),
                        decreases pending@.len(),
                    {
                        let ghost k: int = pending@.len() as int;
                        let ghost old_pending = pending@;
                        let ghost old_output = output@;
                        let message = pending.pop().unwrap();
                        output.insert(insert_at, message);
                        proof {
                            lemma_copy_views_subrange(old_pending, 0, k - 1);
                            lemma_copy_views_insert(old_output, at, message);
                            assert(copy_views(old_pending)[k - 1] == message.copy_view());
                            assert(before.pending[k - 1] == message.copy_view());
                            assert(copy_views(pending@) =~= before.pending.take(k - 1));
                            assert(copy_views(output@) =~= before.output.take(at)
                                + before.pending.skip(k - 1) + before.output.skip(at));
                        }
                    }
                    assert(before.pending.skip(0) =~= before.pending);
                    relocated = relocated + 1;
                } else {
                    let ghost old_output = output@;
                    let ghost old_pending = pending@;
                    output.append(&mut pending);
                    proof {
                        lemma_copy_views_add(old_output, old_pending);
                    }
                }
                let ghost placed = output@;
                output.push(item);
                proof {
                    lemma_copy_views_push(placed, item);
                    assert(copy_views(pending@) =~= Seq::<CopyView>::empty());
                    assert(copy_views(output@) =~= relocation_step(before, input[it.index() as int]).output);
                }
            },
            RunAction::Keep => {
                output.append(&mut pending);
                output.push(item);
                proof {
                    assert(copy_views(pending@) =~= Seq::<CopyView>::empty());
                    assert(copy_views(output@) =~= relocation_step(before, input[it.index() as int]).output);
                }
            },
        }
    }
    output.append(&mut pending);
    assert(input.take(input.len() as int) =~= input);
    (output, relocated)
}

} // verus!
