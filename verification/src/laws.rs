//! The library's laws: properties that relate several commands, stated over
//! the model and proved once and for all.

use vstd::prelude::*;
use crate::compose::spec_compose;
use crate::model::DocV;
use crate::model::SnapV;
use crate::model::FragV;
use crate::model::pushed;
use crate::model::snap_of;
use crate::model::save_state;
use crate::model::spec_undo;
use crate::model::spec_redo;
use crate::model::spec_new_document;
use crate::model::spec_add_plot_after;
use crate::model::spec_remove_plot;
use crate::model::spec_move_plot_up;
use crate::model::spec_move_plot_down;
use crate::model::spec_set_plot_text;
use crate::model::spec_confirm_delete;
use crate::model::wf_doc;
use crate::model::lemma_new_document_wf;
use crate::model::lemma_add_plot_wf;
use crate::model::lemma_remove_plot_wf;
use crate::model::lemma_move_plot_up_wf;
use crate::model::lemma_move_plot_down_wf;
use crate::model::lemma_set_plot_text_wf;
use crate::model::lemma_confirm_delete_wf;
use crate::model::lemma_undo_wf;
use crate::model::lemma_redo_wf;
use crate::compose::lemma_compose_wf;
use crate::search::spec_replace_all;
use crate::search::lemma_replace_all_wf;
use crate::model::spec_load;
use crate::model::ids_unique;
use crate::model::ids_below;
use crate::codec::emit_doc;
use crate::codec::p_doc;
use crate::codec::lemma_parse_emit_round_trip;
use crate::MAX_PLOTS;
use crate::MAX_UNDO_HISTORY;

verus! {

/// However the commands are sequenced, a well-formed document never runs out
/// of fragments: every command's result keeps at least one.
pub proof fn lemma_fragments_never_empty(
    d: DocV,
    index: int,
    needle: Seq<u8>,
    repl: Seq<u8>,
    text: Seq<u8>,
)
    requires
        wf_doc(d),
        0 <= index < d.plots.len(),
    ensures
        d.plots.len() >= 1,
        spec_new_document(d).plots.len() >= 1,
        spec_add_plot_after(d, index).plots.len() >= 1,
        spec_remove_plot(d, index).plots.len() >= 1,
        spec_move_plot_up(d, index).plots.len() >= 1,
        spec_move_plot_down(d, index).plots.len() >= 1,
        spec_compose(d).plots.len() >= 1,
        spec_replace_all(d, needle, repl).plots.len() >= 1,
        spec_set_plot_text(d, index, text).plots.len() >= 1,
        spec_confirm_delete(d).plots.len() >= 1,
        spec_undo(d).plots.len() >= 1,
        spec_redo(d).plots.len() >= 1,
{
    lemma_new_document_wf(d);
    lemma_add_plot_wf(d, index);
    lemma_remove_plot_wf(d, index);
    lemma_move_plot_up_wf(d, index);
    lemma_move_plot_down_wf(d, index);
    lemma_compose_wf(d);
    lemma_replace_all_wf(d, needle, repl);
    lemma_set_plot_text_wf(d, index, text);
    lemma_confirm_delete_wf(d);
    lemma_undo_wf(d);
    lemma_redo_wf(d);
}

/// Ids never repeat: in a well-formed document two distinct fragments never
/// hold the same id.
pub proof fn lemma_ids_never_repeat(d: DocV, i: int, j: int)
    requires
        wf_doc(d),
        0 <= i < d.plots.len(),
        0 <= j < d.plots.len(),
        i != j,
    ensures
        d.plots[i].id != d.plots[j].id,
{
}

/// Ids are handed out in strictly increasing creation order: a fragment
/// created by an insertion takes the counter's value, which strictly exceeds
/// every id held by a live fragment or by any fragment in a restorable
/// snapshot, and the counter then strictly grows, so no created id can ever
/// repeat an earlier one.
pub proof fn lemma_ids_strictly_increase(d: DocV, index: int)
    requires
        wf_doc(d),
        0 <= index < d.plots.len(),
        d.plots.len() < MAX_PLOTS,
        d.next_id < usize::MAX,
    ensures
        spec_add_plot_after(d, index).plots[index + 1].id == d.next_id,
        spec_add_plot_after(d, index).next_id == d.next_id + 1,
        forall|t: int| 0 <= t < d.plots.len() ==> #[trigger] d.plots[t].id < d.next_id,
        forall|k: int, t: int|
            0 <= k < d.undo.len() && 0 <= t < d.undo[k].plots.len()
                ==> #[trigger] d.undo[k].plots[t].id < d.next_id,
{
    let e = save_state(d);
    let f = FragV { id: d.next_id, text: Seq::empty() };
    e.plots.insert_ensures(index + 1, f);
}

/// Undo right after a mutating command restores the exact `(plots,
/// composed)` pair the command started from, and redo right after that undo
/// restores the pair the undo started from. `e` is the state a mutating
/// command left behind: its snapshot of `d` is the newest undo entry and its
/// redo stack is empty.
pub proof fn lemma_undo_then_redo_restores(d: DocV, e: DocV)
    requires
        e.undo == pushed(d.undo, snap_of(d)),
        e.redo.len() == 0,
    ensures
        spec_undo(e).plots == d.plots,
        spec_undo(e).composed == d.composed,
        spec_redo(spec_undo(e)).plots == e.plots,
        spec_redo(spec_undo(e)).composed == e.composed,
{
    let grown = d.undo.push(snap_of(d));
    assert(grown.last() == snap_of(d));
    if grown.len() > MAX_UNDO_HISTORY {
        assert(e.undo == grown.drop_first());
        assert(e.undo.last() == grown[grown.len() - 1]);
    }
    assert(e.undo.last() == snap_of(d));
    let u = spec_undo(e);
    assert(u.redo == pushed(e.redo, snap_of(e)));
    assert(e.redo.push(snap_of(e)).len() == 1);
    assert(u.redo == e.redo.push(snap_of(e)));
    assert(u.redo.last() == snap_of(e));
}

/// A mutating command discards every pending redo entry: whatever could be
/// redone before, nothing can be after. Each clause covers one mutating
/// command, under the condition on which it actually mutates.
pub proof fn lemma_new_edit_discards_redo(d: DocV, index: int, needle: Seq<u8>, repl: Seq<u8>)
    requires
        needle.len() > 0,
        0 <= index,
    ensures
        save_state(d).redo.len() == 0,
        spec_compose(d).redo.len() == 0,
        spec_replace_all(d, needle, repl).redo.len() == 0,
        (d.plots.len() < MAX_PLOTS && d.next_id < usize::MAX) ==> spec_add_plot_after(
            d,
            index,
        ).redo.len() == 0,
        d.plots.len() > 1 ==> spec_remove_plot(d, index).redo.len() == 0,
        index != 0 ==> spec_move_plot_up(d, index).redo.len() == 0,
        index < d.plots.len() - 1 ==> spec_move_plot_down(d, index).redo.len() == 0,
{
}

/// The history stays within its cap: a push beyond the cap evicts the
/// oldest entry (the front), never the newest, which is always what was just
/// pushed.
pub proof fn lemma_history_bounded(stack: Seq<SnapV>, s: SnapV)
    requires
        stack.len() <= MAX_UNDO_HISTORY,
    ensures
        pushed(stack, s).len() <= MAX_UNDO_HISTORY,
        pushed(stack, s).last() == s,
        stack.len() < MAX_UNDO_HISTORY ==> pushed(stack, s) == stack.push(s),
        stack.len() == MAX_UNDO_HISTORY ==> pushed(stack, s) == stack.drop_first().push(s),
{
    let grown = stack.push(s);
    if grown.len() > MAX_UNDO_HISTORY {
        assert(pushed(stack, s) =~= stack.drop_first().push(s));
        assert(pushed(stack, s).last() == grown[grown.len() - 1]);
    }
}

/// Saving a well-formed document and loading the bytes back — into the same
/// document or any other — reproduces the exact `(plots, composed)` pair,
/// non-ASCII text included: the written bytes read back as what was
/// written, they pass the load's validation, and the load installs them
/// verbatim.
pub proof fn lemma_save_then_load_restores(d: DocV, e: DocV)
    requires
        wf_doc(d),
    ensures
        p_doc(emit_doc(d.plots, d.composed)) == Some((d.plots, d.composed)),
        d.plots.len() >= 1 && ids_unique(d.plots) && ids_below(d.plots, usize::MAX as nat),
        spec_load(e, d.plots, d.composed).plots == d.plots,
        spec_load(e, d.plots, d.composed).composed == d.composed,
{
    assert forall|t: int| 0 <= t < d.plots.len() implies #[trigger] d.plots[t].id
        <= usize::MAX as nat by {
        assert(d.plots[t].id < d.next_id);
    }
    lemma_parse_emit_round_trip(d.plots, d.composed);
}

} // verus!
