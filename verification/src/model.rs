//! Mathematical model of a document: ghost views of fragments, snapshots and
//! the whole document, the well-formedness invariant, and the state
//! transitions that the executable commands are specified against.

use vstd::prelude::*;
use crate::MAX_PLOTS;
use crate::MAX_UNDO_HISTORY;

verus! {

/// View of one fragment: its stable identity and its text as bytes.
#[verifier::ext_equal]
pub ghost struct FragV {
    pub id: nat,
    pub text: Seq<u8>,
}

/// View of one history snapshot: the pair a snapshot preserves.
#[verifier::ext_equal]
pub ghost struct SnapV {
    pub plots: Seq<FragV>,
    pub composed: Seq<u8>,
}

/// View of a whole document, history and bookkeeping included.
#[verifier::ext_equal]
pub ghost struct DocV {
    pub plots: Seq<FragV>,
    pub composed: Seq<u8>,
    pub next_id: nat,
    pub undo: Seq<SnapV>,
    pub redo: Seq<SnapV>,
    pub dirty: bool,
    pub pending_delete: Option<nat>,
    pub path: Option<Seq<char>>,
}

/// The snapshot that preserves the document's current `(plots, composed)` pair.
pub open spec fn snap_of(d: DocV) -> SnapV {
    SnapV { plots: d.plots, composed: d.composed }
}

/// Push a snapshot onto a bounded history stack: the newest entry goes to the
/// back, and when the cap is exceeded the oldest entry (the front) is evicted.
pub open spec fn pushed(stack: Seq<SnapV>, s: SnapV) -> Seq<SnapV> {
    let grown = stack.push(s);
    if grown.len() > MAX_UNDO_HISTORY { grown.drop_first() } else { grown }
}

/// Record the current state for undo: push it onto the undo stack, discard
/// every pending redo entry, and mark the document dirty.
pub open spec fn save_state(d: DocV) -> DocV {
    DocV {
        undo: pushed(d.undo, snap_of(d)),
        redo: Seq::empty(),
        dirty: true,
        ..d
    }
}

/// Undo: restore the most recent snapshot, moving the current pair onto the
/// redo stack. A no-op when there is nothing to undo. The dirty flag is
/// deliberately left unchanged.
pub open spec fn spec_undo(d: DocV) -> DocV {
    if d.undo.len() == 0 {
        d
    } else {
        let s = d.undo.last();
        DocV {
            plots: s.plots,
            composed: s.composed,
            undo: d.undo.drop_last(),
            redo: pushed(d.redo, snap_of(d)),
            ..d
        }
    }
}

/// Redo: symmetric to undo.
pub open spec fn spec_redo(d: DocV) -> DocV {
    if d.redo.len() == 0 {
        d
    } else {
        let s = d.redo.last();
        DocV {
            plots: s.plots,
            composed: s.composed,
            redo: d.redo.drop_last(),
            undo: pushed(d.undo, snap_of(d)),
            ..d
        }
    }
}

/// The state of a freshly created document: one empty fragment with id 0.
pub open spec fn fresh_doc() -> DocV {
    DocV {
        plots: seq![FragV { id: 0, text: Seq::empty() }],
        composed: Seq::empty(),
        next_id: 1,
        undo: Seq::empty(),
        redo: Seq::empty(),
        dirty: false,
        pending_delete: None,
        path: None,
    }
}

/// Reset to the fresh state: path, history and dirty flag are cleared; a
/// pending delete confirmation is left as it was.
pub open spec fn spec_new_document(d: DocV) -> DocV {
    DocV { pending_delete: d.pending_delete, ..fresh_doc() }
}

/// Insert a fresh, empty fragment immediately after `index`, giving it the
/// next free id. A silent no-op when the fragment cap is reached or no id is
/// left to hand out.
pub open spec fn spec_add_plot_after(d: DocV, index: int) -> DocV {
    if d.plots.len() >= MAX_PLOTS || d.next_id >= usize::MAX {
        d
    } else {
        let e = save_state(d);
        DocV {
            plots: e.plots.insert(index + 1, FragV { id: d.next_id, text: Seq::empty() }),
            next_id: d.next_id + 1,
            ..e
        }
    }
}

/// Remove the fragment at `index`. A silent no-op when it is the last one.
pub open spec fn spec_remove_plot(d: DocV, index: int) -> DocV {
    if d.plots.len() <= 1 {
        d
    } else {
        let e = save_state(d);
        DocV { plots: e.plots.remove(index), ..e }
    }
}

/// A sequence with the elements at `i` and `j` exchanged.
pub open spec fn seq_swapped<T>(s: Seq<T>, i: int, j: int) -> Seq<T> {
    s.update(i, s[j]).update(j, s[i])
}

/// Swap the fragment at `index` with its predecessor. A no-op at the top.
pub open spec fn spec_move_plot_up(d: DocV, index: int) -> DocV {
    if index == 0 {
        d
    } else {
        let e = save_state(d);
        DocV { plots: seq_swapped(e.plots, index, index - 1), ..e }
    }
}

/// Swap the fragment at `index` with its successor. A no-op at the bottom.
pub open spec fn spec_move_plot_down(d: DocV, index: int) -> DocV {
    if index >= d.plots.len() - 1 {
        d
    } else {
        let e = save_state(d);
        DocV { plots: seq_swapped(e.plots, index, index + 1), ..e }
    }
}

/// Overwrite the text of the fragment at `index`. Direct edits mark the
/// document dirty but are not recorded for undo.
pub open spec fn spec_set_plot_text(d: DocV, index: int, text: Seq<u8>) -> DocV {
    DocV {
        plots: d.plots.update(index, FragV { id: d.plots[index].id, text: text }),
        dirty: true,
        ..d
    }
}

/// Overwrite the composed text. Direct edits mark the document dirty but are
/// not recorded for undo.
pub open spec fn spec_set_composed_text(d: DocV, text: Seq<u8>) -> DocV {
    DocV { composed: text, dirty: true, ..d }
}

/// Whether some fragment holds the given id.
pub open spec fn has_id(plots: Seq<FragV>, id: nat) -> bool {
    exists|i: int| 0 <= i < plots.len() && plots[i].id == id
}

/// The index of the fragment holding the given id (meaningful when ids are
/// unique and some fragment holds it).
pub open spec fn index_of_id(plots: Seq<FragV>, id: nat) -> int {
    choose|i: int| 0 <= i < plots.len() && plots[i].id == id
}

/// First phase of a deletion: remember which fragment the user asked to
/// delete, by id, pending confirmation.
pub open spec fn spec_request_delete(d: DocV, id: nat) -> DocV {
    DocV { pending_delete: Some(id), ..d }
}

/// Abandon a pending deletion.
pub open spec fn spec_cancel_delete(d: DocV) -> DocV {
    DocV { pending_delete: None, ..d }
}

/// Second phase of a deletion: look the pending id up (indices may have
/// shifted since the request) and remove that fragment; the pending token is
/// consumed either way. Without a pending token, or when no fragment holds
/// the id any more, nothing else changes.
pub open spec fn spec_confirm_delete(d: DocV) -> DocV {
    match d.pending_delete {
        None => d,
        Some(id) => {
            let e = DocV { pending_delete: None, ..d };
            if has_id(d.plots, id) {
                spec_remove_plot(e, index_of_id(d.plots, id))
            } else {
                e
            }
        },
    }
}

/// A successful save: the document is clean again and remembers its path.
pub open spec fn spec_mark_saved(d: DocV, path: Seq<char>) -> DocV {
    DocV { path: Some(path), dirty: false, ..d }
}

/// Record or clear the path the document is associated with.
pub open spec fn spec_set_file_path(d: DocV, path: Option<Seq<char>>) -> DocV {
    DocV { path: path, ..d }
}

/// The id counter after a load: never below what it was, and strictly above
/// every loaded id, so no id is ever handed out twice, not even after an
/// undo back across the load.
pub open spec fn next_after(plots: Seq<FragV>, cur: nat) -> nat
    decreases plots.len(),
{
    if plots.len() == 0 {
        cur
    } else {
        let m = next_after(plots.drop_last(), cur);
        if plots.last().id + 1 > m {
            plots.last().id + 1
        } else {
            m
        }
    }
}

/// Loading replaces the fragments and the composed text, snapshots first so
/// the load can be undone, and reindexes the id counter.
pub open spec fn spec_load(d: DocV, plots: Seq<FragV>, composed: Seq<u8>) -> DocV {
    let e = save_state(d);
    DocV { plots: plots, composed: composed, next_id: next_after(plots, d.next_id), ..e }
}

/// What reindexing guarantees of the id counter.
pub proof fn lemma_next_after(plots: Seq<FragV>, cur: nat)
    ensures
        next_after(plots, cur) >= cur,
        ids_below(plots, next_after(plots, cur)),
        (cur <= usize::MAX && ids_below(plots, usize::MAX as nat)) ==> next_after(plots, cur)
            <= usize::MAX,
    decreases plots.len(),
{
    if plots.len() > 0 {
        lemma_next_after(plots.drop_last(), cur);
        assert forall|t: int| 0 <= t < plots.len() implies #[trigger] plots[t].id < next_after(
            plots,
            cur,
        ) by {
            if t < plots.len() - 1 {
                assert(plots.drop_last()[t] == plots[t]);
            }
        }
        if cur <= usize::MAX && ids_below(plots, usize::MAX as nat) {
            assert(forall|t: int|
                0 <= t < plots.drop_last().len() ==> #[trigger] plots.drop_last()[t].id
                    < usize::MAX);
            assert(plots.last().id < usize::MAX);
        }
    }
}

/// A load of validated data preserves well-formedness.
pub proof fn lemma_load_wf(d: DocV, plots: Seq<FragV>, composed: Seq<u8>)
    requires
        wf_doc(d),
        plots.len() >= 1,
        ids_unique(plots),
        ids_below(plots, usize::MAX as nat),
    ensures
        wf_doc(spec_load(d, plots, composed)),
{
    lemma_save_state_wf(d);
    lemma_next_after(plots, d.next_id);
    let r = spec_load(d, plots, composed);
    assert forall|k: int| 0 <= k < r.undo.len() implies snap_wf(#[trigger] r.undo[k], r.next_id) by {
        assert(snap_wf(save_state(d).undo[k], d.next_id));
        lemma_ids_below_mono(r.undo[k].plots, d.next_id, r.next_id);
    }
}

/// Ids are pairwise distinct.
pub open spec fn ids_unique(plots: Seq<FragV>) -> bool {
    forall|i: int, j: int| 0 <= i < j < plots.len() ==> plots[i].id != plots[j].id
}

/// Every id lies strictly below `bound`.
pub open spec fn ids_below(plots: Seq<FragV>, bound: nat) -> bool {
    forall|i: int| 0 <= i < plots.len() ==> #[trigger] plots[i].id < bound
}

/// What holds of every snapshot kept in the history of a document whose id
/// counter stands at `bound`.
pub open spec fn snap_wf(s: SnapV, bound: nat) -> bool {
    &&& s.plots.len() >= 1
    &&& ids_unique(s.plots)
    &&& ids_below(s.plots, bound)
}

/// Well-formedness of a document: at least one fragment at all times, ids
/// pairwise distinct and below the id counter (so a fresh id never repeats an
/// id a live fragment holds, now or in any restorable state), the counter
/// representable, and both history stacks within their cap and themselves
/// well formed.
pub open spec fn wf_doc(d: DocV) -> bool {
    &&& d.plots.len() >= 1
    &&& ids_unique(d.plots)
    &&& ids_below(d.plots, d.next_id)
    &&& d.next_id <= usize::MAX
    &&& d.undo.len() <= MAX_UNDO_HISTORY
    &&& d.redo.len() <= MAX_UNDO_HISTORY
    &&& (forall|k: int| 0 <= k < d.undo.len() ==> snap_wf(#[trigger] d.undo[k], d.next_id))
    &&& (forall|k: int| 0 <= k < d.redo.len() ==> snap_wf(#[trigger] d.redo[k], d.next_id))
}

/// Removing the element at `i` and reinserting it one place earlier swaps it
/// with its predecessor.
pub proof fn lemma_swap_up<T>(s: Seq<T>, i: int)
    requires
        1 <= i < s.len(),
    ensures
        s.remove(i).insert(i - 1, s[i]) == seq_swapped(s, i, i - 1),
{
    s.remove_ensures(i);
    s.remove(i).insert_ensures(i - 1, s[i]);
    assert(s.remove(i).insert(i - 1, s[i]) =~= seq_swapped(s, i, i - 1));
}

/// Removing the element at `i` and reinserting it one place later swaps it
/// with its successor.
pub proof fn lemma_swap_down<T>(s: Seq<T>, i: int)
    requires
        0 <= i < s.len() - 1,
    ensures
        s.remove(i).insert(i + 1, s[i]) == seq_swapped(s, i, i + 1),
{
    s.remove_ensures(i);
    s.remove(i).insert_ensures(i + 1, s[i]);
    assert(s.remove(i).insert(i + 1, s[i]) =~= seq_swapped(s, i, i + 1));
}

/// `ids_below` is monotone in its bound.
pub proof fn lemma_ids_below_mono(plots: Seq<FragV>, b1: nat, b2: nat)
    requires
        ids_below(plots, b1),
        b1 <= b2,
    ensures
        ids_below(plots, b2),
{
}

/// What `pushed` does to a bounded stack of well-formed snapshots: the new
/// entry becomes the newest (the back), the length never exceeds the cap, and
/// when the stack is full the oldest entry (the front) is the one evicted.
pub proof fn lemma_pushed(stack: Seq<SnapV>, s: SnapV, bound: nat)
    requires
        stack.len() <= MAX_UNDO_HISTORY,
        forall|k: int| 0 <= k < stack.len() ==> snap_wf(#[trigger] stack[k], bound),
        snap_wf(s, bound),
    ensures
        1 <= pushed(stack, s).len() <= MAX_UNDO_HISTORY,
        pushed(stack, s).last() == s,
        forall|k: int| 0 <= k < pushed(stack, s).len() ==> snap_wf(#[trigger] pushed(stack, s)[k], bound),
        stack.len() < MAX_UNDO_HISTORY ==> pushed(stack, s) == stack.push(s),
        stack.len() == MAX_UNDO_HISTORY ==> pushed(stack, s) == stack.drop_first().push(s),
{
    let grown = stack.push(s);
    if grown.len() > MAX_UNDO_HISTORY {
        assert(pushed(stack, s) =~= stack.drop_first().push(s));
        assert forall|k: int| 0 <= k < pushed(stack, s).len() implies snap_wf(
            #[trigger] pushed(stack, s)[k],
            bound,
        ) by {
            assert(pushed(stack, s)[k] == grown[k + 1]);
        }
    }
}

/// Recording the current state for undo preserves well-formedness.
pub proof fn lemma_save_state_wf(d: DocV)
    requires
        wf_doc(d),
    ensures
        wf_doc(save_state(d)),
{
    lemma_pushed(d.undo, snap_of(d), d.next_id);
}

/// Undo preserves well-formedness.
pub proof fn lemma_undo_wf(d: DocV)
    requires
        wf_doc(d),
    ensures
        wf_doc(spec_undo(d)),
{
    if d.undo.len() > 0 {
        lemma_pushed(d.redo, snap_of(d), d.next_id);
        assert(d.undo.last() == d.undo[d.undo.len() - 1]);
        assert(snap_wf(d.undo[d.undo.len() - 1], d.next_id));
        assert(forall|k: int|
            0 <= k < d.undo.drop_last().len() ==> #[trigger] d.undo.drop_last()[k] == d.undo[k]);
    }
}

/// Redo preserves well-formedness.
pub proof fn lemma_redo_wf(d: DocV)
    requires
        wf_doc(d),
    ensures
        wf_doc(spec_redo(d)),
{
    if d.redo.len() > 0 {
        lemma_pushed(d.undo, snap_of(d), d.next_id);
        assert(d.redo.last() == d.redo[d.redo.len() - 1]);
        assert(snap_wf(d.redo[d.redo.len() - 1], d.next_id));
        assert(forall|k: int|
            0 <= k < d.redo.drop_last().len() ==> #[trigger] d.redo.drop_last()[k] == d.redo[k]);
    }
}

/// The fresh document is well formed, and so is a reset of any document.
pub proof fn lemma_new_document_wf(d: DocV)
    ensures
        wf_doc(fresh_doc()),
        wf_doc(spec_new_document(d)),
{
}

/// Inserting a fresh fragment preserves well-formedness: the new fragment
/// takes the id counter's value, which no live or restorable fragment holds.
pub proof fn lemma_add_plot_wf(d: DocV, index: int)
    requires
        wf_doc(d),
        0 <= index < d.plots.len(),
    ensures
        wf_doc(spec_add_plot_after(d, index)),
{
    if !(d.plots.len() >= MAX_PLOTS || d.next_id >= usize::MAX) {
        lemma_save_state_wf(d);
        let e = save_state(d);
        let f = FragV { id: d.next_id, text: Seq::empty() };
        let p2 = e.plots.insert(index + 1, f);
        e.plots.insert_ensures(index + 1, f);
        let r = spec_add_plot_after(d, index);
        assert forall|i: int, j: int| 0 <= i < j < p2.len() implies p2[i].id != p2[j].id by {
            if i < index + 1 {
                assert(p2[i] == e.plots[i]);
            } else if i > index + 1 {
                assert(p2[i] == e.plots[i - 1]);
            }
            if j < index + 1 {
                assert(p2[j] == e.plots[j]);
            } else if j > index + 1 {
                assert(p2[j] == e.plots[j - 1]);
            }
        }
        assert forall|i: int| 0 <= i < p2.len() implies #[trigger] p2[i].id < r.next_id by {
            if i < index + 1 {
                assert(p2[i] == e.plots[i]);
            } else if i > index + 1 {
                assert(p2[i] == e.plots[i - 1]);
            }
        }
        assert forall|k: int| 0 <= k < r.undo.len() implies snap_wf(#[trigger] r.undo[k], r.next_id) by {
            assert(snap_wf(e.undo[k], d.next_id));
            lemma_ids_below_mono(e.undo[k].plots, d.next_id, r.next_id);
        }
    }
}

/// Removing a fragment preserves well-formedness: what remains is a
/// subsequence of what was there, and at least one fragment survives.
pub proof fn lemma_remove_plot_wf(d: DocV, index: int)
    requires
        wf_doc(d),
        0 <= index < d.plots.len(),
    ensures
        wf_doc(spec_remove_plot(d, index)),
{
    if d.plots.len() > 1 {
        lemma_save_state_wf(d);
        let e = save_state(d);
        e.plots.remove_ensures(index);
        let p2 = e.plots.remove(index);
        assert forall|i: int, j: int| 0 <= i < j < p2.len() implies p2[i].id != p2[j].id by {
            if i >= index {
                assert(p2[i] == e.plots[i + 1]);
            }
            if j >= index {
                assert(p2[j] == e.plots[j + 1]);
            }
        }
        assert forall|i: int| 0 <= i < p2.len() implies #[trigger] p2[i].id < d.next_id by {
            if i >= index {
                assert(p2[i] == e.plots[i + 1]);
            }
        }
    }
}

/// Swapping two fragments preserves well-formedness: the ids are permuted.
pub proof fn lemma_swap_plots_wf(d: DocV, plots: Seq<FragV>, i: int, j: int)
    requires
        wf_doc(d),
        plots == d.plots,
        0 <= i < plots.len(),
        0 <= j < plots.len(),
    ensures
        ids_unique(seq_swapped(plots, i, j)),
        ids_below(seq_swapped(plots, i, j), d.next_id),
        seq_swapped(plots, i, j).len() == plots.len(),
{
    let p2 = seq_swapped(plots, i, j);
    assert forall|a: int, b: int| 0 <= a < b < p2.len() implies p2[a].id != p2[b].id by {
        let a0: int = if a == i { j } else if a == j { i } else { a };
        let b0: int = if b == i { j } else if b == j { i } else { b };
        assert(p2[a] == plots[a0]);
        assert(p2[b] == plots[b0]);
    }
}

/// Moving a fragment up preserves well-formedness.
pub proof fn lemma_move_plot_up_wf(d: DocV, index: int)
    requires
        wf_doc(d),
        0 <= index < d.plots.len(),
    ensures
        wf_doc(spec_move_plot_up(d, index)),
{
    if index != 0 {
        lemma_save_state_wf(d);
        lemma_swap_plots_wf(d, d.plots, index, index - 1);
    }
}

/// Moving a fragment down preserves well-formedness.
pub proof fn lemma_move_plot_down_wf(d: DocV, index: int)
    requires
        wf_doc(d),
        0 <= index < d.plots.len(),
    ensures
        wf_doc(spec_move_plot_down(d, index)),
{
    if index < d.plots.len() - 1 {
        lemma_save_state_wf(d);
        lemma_swap_plots_wf(d, d.plots, index, index + 1);
    }
}

/// Overwriting a fragment's text preserves well-formedness: every id is as
/// it was.
pub proof fn lemma_set_plot_text_wf(d: DocV, index: int, text: Seq<u8>)
    requires
        wf_doc(d),
        0 <= index < d.plots.len(),
    ensures
        wf_doc(spec_set_plot_text(d, index, text)),
{
    let p2 = spec_set_plot_text(d, index, text).plots;
    assert forall|i: int| 0 <= i < p2.len() implies #[trigger] p2[i].id == d.plots[i].id by {
    }
}

/// Confirming a deletion preserves well-formedness.
pub proof fn lemma_confirm_delete_wf(d: DocV)
    requires
        wf_doc(d),
    ensures
        wf_doc(spec_confirm_delete(d)),
{
    match d.pending_delete {
        None => {},
        Some(id) => {
            let e = DocV { pending_delete: None, ..d };
            if has_id(d.plots, id) {
                let i = index_of_id(d.plots, id);
                assert(0 <= i < d.plots.len() && d.plots[i].id == id);
                lemma_remove_plot_wf(e, i);
            }
        },
    }
}

} // verus!
