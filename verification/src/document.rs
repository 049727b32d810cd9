//! The document controller: the single aggregate that owns the fragments,
//! the composed text, the undo/redo history and the bookkeeping flags, and
//! that exposes the command surface. Every command is specified against the
//! model transitions in `model` and preserves well-formedness.

use vstd::prelude::*;
use std::collections::VecDeque;
use crate::fragment::Fragment;
use crate::fragment::Snapshot;
use crate::fragment::plots_view;
use crate::fragment::snaps_view;
use crate::fragment::snapshot_of;
use crate::fragment::lemma_snaps_view_push;
use crate::fragment::lemma_snaps_view_subrange;
use crate::fragment::lemma_plots_view_insert;
use crate::fragment::lemma_plots_view_remove;
use crate::fragment::lemma_plots_view_update;
use crate::fragment::lemma_plots_view_swapped;
use crate::model::DocV;
use crate::model::FragV;
use crate::model::fresh_doc;
use crate::model::save_state;
use crate::model::spec_undo;
use crate::model::spec_redo;
use crate::model::spec_new_document;
use crate::model::spec_add_plot_after;
use crate::model::spec_remove_plot;
use crate::model::spec_move_plot_up;
use crate::model::spec_move_plot_down;
use crate::model::spec_set_plot_text;
use crate::model::spec_set_composed_text;
use crate::model::spec_request_delete;
use crate::model::spec_cancel_delete;
use crate::model::spec_confirm_delete;
use crate::model::spec_mark_saved;
use crate::model::spec_set_file_path;
use crate::model::has_id;
use crate::model::index_of_id;
use crate::model::wf_doc;
use crate::model::lemma_save_state_wf;
use crate::model::lemma_undo_wf;
use crate::model::lemma_redo_wf;
use crate::model::lemma_new_document_wf;
use crate::model::lemma_add_plot_wf;
use crate::model::lemma_remove_plot_wf;
use crate::model::lemma_move_plot_up_wf;
use crate::model::lemma_move_plot_down_wf;
use crate::model::lemma_set_plot_text_wf;
use crate::model::lemma_confirm_delete_wf;
use crate::model::lemma_swap_up;
use crate::model::lemma_swap_down;
use crate::codec::parse_document;
use crate::codec::emit_document;
use crate::codec::emit_doc;
use crate::codec::p_doc;
use crate::model::spec_load;
use crate::model::next_after;
use crate::model::ids_unique;
use crate::model::ids_below;
use crate::model::lemma_load_wf;
use crate::search::SearchResult;
use crate::search::spec_search;
use crate::search::spec_replace_all;
use crate::search::frag_replaced;
use crate::search::plot_hits;
use crate::search::hits_for_text;
use crate::search::hits_in_text;
use crate::search::replace_in_text;
use crate::search::replace_bytes;
use crate::search::lemma_plot_hits_step;
use crate::search::lemma_replace_all_wf;
use crate::MAX_PLOTS;
use crate::MAX_UNDO_HISTORY;
use vstd::pervasive::VecAdditionalExecFns;

verus! {

/// The stored bytes do not hold a well-formed document: the load was
/// aborted and the document left untouched.
#[derive(Debug)]
pub struct DeserializeError;

/// Whether loaded fragments may enter a document: at least one, ids
/// pairwise distinct, and every id representable.
fn plots_valid(plots: &Vec<Fragment>) -> (r: bool)
    ensures
        r == (plots_view(plots@).len() >= 1 && ids_unique(plots_view(plots@)) && ids_below(
            plots_view(plots@),
            usize::MAX as nat,
        )),
{
    let ghost pv = plots_view(plots@);
    if plots.len() == 0 {
        return false;
    }
    let mut a: usize = 0;
    while a < plots.len()
        invariant
            a <= plots@.len(),
            pv == plots_view(plots@),
            forall|i: int| 0 <= i < a ==> #[trigger] pv[i].id < usize::MAX,
            forall|i: int, j: int| 0 <= i < j < pv.len() && i < a ==> pv[i].id != pv[j].id,
        decreases plots@.len() - a,
    {
        proof {
            assert(pv[a as int] == plots@[a as int]@);
        }
        if plots[a].id == usize::MAX {
            proof {
                assert(!ids_below(pv, usize::MAX as nat)) by {
                    if ids_below(pv, usize::MAX as nat) {
                        assert(pv[a as int].id < usize::MAX);
                    }
                }
            }
            return false;
        }
        let mut c: usize = a + 1;
        while c < plots.len()
            invariant
                pv == plots_view(plots@),
                a < c <= plots@.len(),
                a < plots@.len(),
                forall|j: int| a < j < c ==> pv[a as int].id != #[trigger] pv[j].id,
            decreases plots@.len() - c,
        {
            proof {
                assert(pv[c as int] == plots@[c as int]@);
                assert(pv[a as int] == plots@[a as int]@);
            }
            if plots[a].id == plots[c].id {
                proof {
                    assert(!ids_unique(pv)) by {
                        if ids_unique(pv) {
                            assert(pv[a as int].id != pv[c as int].id);
                        }
                    }
                }
                return false;
            }
            c = c + 1;
        }
        a = a + 1;
    }
    proof {
        assert(ids_unique(pv));
        assert(ids_below(pv, usize::MAX as nat));
    }
    true
}

/// The one document the controller operates on.
pub struct Document {
    plots: Vec<Fragment>,
    composed_text: Vec<u8>,
    next_id: usize,
    file_path: Option<String>,
    undo_stack: VecDeque<Snapshot>,
    redo_stack: VecDeque<Snapshot>,
    pending_delete: Option<usize>,
    is_dirty: bool,
}

impl View for Document {
    type V = DocV;

    closed spec fn view(&self) -> DocV {
        DocV {
            plots: plots_view(self.plots@),
            composed: self.composed_text@,
            next_id: self.next_id as nat,
            undo: snaps_view(self.undo_stack@),
            redo: snaps_view(self.redo_stack@),
            dirty: self.is_dirty,
            pending_delete: match self.pending_delete {
                Some(id) => Some(id as nat),
                None => None,
            },
            path: match self.file_path {
                Some(ref p) => Some(p@),
                None => None,
            },
        }
    }
}

impl Document {
    /// A new document: a single empty fragment with id 0, empty composed
    /// text, no path, no history, clean.
    pub fn new() -> (d: Document)
        ensures
            d@ == fresh_doc(),
            wf_doc(d@),
    {
        let mut plots: Vec<Fragment> = Vec::new();
        plots.push(Fragment { id: 0, text: Vec::new() });
        let d = Document {
            plots,
            composed_text: Vec::new(),
            next_id: 1,
            file_path: None,
            undo_stack: VecDeque::new(),
            redo_stack: VecDeque::new(),
            pending_delete: None,
            is_dirty: false,
        };
        proof {
            assert(d@ =~~= fresh_doc());
        }
        d
    }

    /// Record the current `(plots, composed)` pair for undo, discard any
    /// pending redo entries, and mark the document dirty. Evicts the oldest
    /// entry when the history cap is exceeded.
    pub fn save_state_for_undo(&mut self)
        requires
            wf_doc(old(self)@),
        ensures
            final(self)@ == save_state(old(self)@),
            wf_doc(final(self)@),
    {
        let snap = snapshot_of(&self.plots, &self.composed_text);
        proof {
            lemma_snaps_view_push(self.undo_stack@, snap);
        }
        self.undo_stack.push_back(snap);
        if self.undo_stack.len() > MAX_UNDO_HISTORY {
            proof {
                lemma_snaps_view_subrange(
                    self.undo_stack@,
                    1,
                    self.undo_stack@.len() as int,
                );
            }
            self.undo_stack.pop_front();
        }
        self.redo_stack.clear();
        self.is_dirty = true;
        proof {
            lemma_save_state_wf(old(self)@);
            assert(self@ =~~= save_state(old(self)@));
        }
    }

    /// Undo: restore the most recent snapshot, moving the current pair onto
    /// the redo stack; a no-op when there is nothing to undo. Leaves the
    /// dirty flag as it was.
    pub fn undo(&mut self)
        requires
            wf_doc(old(self)@),
        ensures
            final(self)@ == spec_undo(old(self)@),
            wf_doc(final(self)@),
    {
        proof {
            if self.undo_stack@.len() > 0 {
                lemma_snaps_view_subrange(
                    self.undo_stack@,
                    0,
                    self.undo_stack@.len() as int - 1,
                );
            }
        }
        if let Some(state) = self.undo_stack.pop_back() {
            let cur = snapshot_of(&self.plots, &self.composed_text);
            proof {
                lemma_snaps_view_push(self.redo_stack@, cur);
            }
            self.redo_stack.push_back(cur);
            if self.redo_stack.len() > MAX_UNDO_HISTORY {
                proof {
                    lemma_snaps_view_subrange(
                        self.redo_stack@,
                        1,
                        self.redo_stack@.len() as int,
                    );
                }
                self.redo_stack.pop_front();
            }
            self.plots = state.plots;
            self.composed_text = state.composed_text;
        }
        proof {
            lemma_undo_wf(old(self)@);
            assert(self@ =~~= spec_undo(old(self)@));
        }
    }

    /// Redo: symmetric to undo; a no-op when there is nothing to redo.
    pub fn redo(&mut self)
        requires
            wf_doc(old(self)@),
        ensures
            final(self)@ == spec_redo(old(self)@),
            wf_doc(final(self)@),
    {
        proof {
            if self.redo_stack@.len() > 0 {
                lemma_snaps_view_subrange(
                    self.redo_stack@,
                    0,
                    self.redo_stack@.len() as int - 1,
                );
            }
        }
        if let Some(state) = self.redo_stack.pop_back() {
            let cur = snapshot_of(&self.plots, &self.composed_text);
            proof {
                lemma_snaps_view_push(self.undo_stack@, cur);
            }
            self.undo_stack.push_back(cur);
            if self.undo_stack.len() > MAX_UNDO_HISTORY {
                proof {
                    lemma_snaps_view_subrange(
                        self.undo_stack@,
                        1,
                        self.undo_stack@.len() as int,
                    );
                }
                self.undo_stack.pop_front();
            }
            self.plots = state.plots;
            self.composed_text = state.composed_text;
        }
        proof {
            lemma_redo_wf(old(self)@);
            assert(self@ =~~= spec_redo(old(self)@));
        }
    }

    /// Compose: snapshot for undo, then set the composed text to the join of
    /// the fragments' texts in order, separated by `"\n\n---\n\n"`.
    pub fn compose(&mut self)
        requires
            wf_doc(old(self)@),
        ensures
            final(self)@ == crate::compose::spec_compose(old(self)@),
            wf_doc(final(self)@),
    {
        self.save_state_for_undo();
        self.composed_text = crate::compose::join_plots(&self.plots);
        proof {
            crate::compose::lemma_compose_wf(old(self)@);
            assert(self@ =~~= crate::compose::spec_compose(old(self)@));
        }
    }

    /// Reset to the fresh single-empty-fragment state: path, history and
    /// dirty flag are cleared. Not undoable.
    pub fn new_document(&mut self)
        ensures
            final(self)@ == spec_new_document(old(self)@),
            wf_doc(final(self)@),
    {
        let mut plots: Vec<Fragment> = Vec::new();
        plots.push(Fragment { id: 0, text: Vec::new() });
        self.plots = plots;
        self.composed_text = Vec::new();
        self.next_id = 1;
        self.file_path = None;
        self.undo_stack.clear();
        self.redo_stack.clear();
        self.is_dirty = false;
        proof {
            lemma_new_document_wf(old(self)@);
            assert(self@ =~~= spec_new_document(old(self)@));
        }
    }

    /// Insert a fresh empty fragment immediately after `index`, giving it the
    /// next free id. Undoable. A silent no-op when the fragment cap is
    /// reached or no id is left to hand out.
    pub fn add_plot_after(&mut self, index: usize)
        requires
            wf_doc(old(self)@),
            index < old(self)@.plots.len(),
        ensures
            final(self)@ == spec_add_plot_after(old(self)@, index as int),
            wf_doc(final(self)@),
    {
        if self.plots.len() >= MAX_PLOTS || self.next_id == usize::MAX {
            return;
        }
        self.save_state_for_undo();
        let new_plot = Fragment { id: self.next_id, text: Vec::new() };
        self.next_id = self.next_id + 1;
        proof {
            lemma_plots_view_insert(self.plots@, index as int + 1, new_plot);
        }
        self.plots.insert(index + 1, new_plot);
        proof {
            lemma_add_plot_wf(old(self)@, index as int);
            assert(new_plot@ =~= (FragV { id: old(self)@.next_id, text: Seq::empty() }));
            assert(self@ =~~= spec_add_plot_after(old(self)@, index as int));
        }
    }

    /// Remove the fragment at `index`; later fragments shift down by one.
    /// Undoable. A silent no-op when only one fragment is left.
    pub fn remove_plot(&mut self, index: usize)
        requires
            wf_doc(old(self)@),
            index < old(self)@.plots.len(),
        ensures
            final(self)@ == spec_remove_plot(old(self)@, index as int),
            wf_doc(final(self)@),
    {
        if self.plots.len() <= 1 {
            return;
        }
        self.save_state_for_undo();
        proof {
            lemma_plots_view_remove(self.plots@, index as int);
        }
        self.plots.remove(index);
        proof {
            lemma_remove_plot_wf(old(self)@, index as int);
            assert(self@ =~~= spec_remove_plot(old(self)@, index as int));
        }
    }

    /// Swap the fragment at `index` with its predecessor. Undoable. A no-op
    /// at the top.
    pub fn move_plot_up(&mut self, index: usize)
        requires
            wf_doc(old(self)@),
            index < old(self)@.plots.len(),
        ensures
            final(self)@ == spec_move_plot_up(old(self)@, index as int),
            wf_doc(final(self)@),
    {
        if index == 0 {
            return;
        }
        self.save_state_for_undo();
        let ghost before = self.plots@;
        let f = self.plots.remove(index);
        self.plots.insert(index - 1, f);
        proof {
            lemma_swap_up(before, index as int);
            lemma_plots_view_swapped(before, index as int, index as int - 1);
            lemma_move_plot_up_wf(old(self)@, index as int);
            assert(self@ =~~= spec_move_plot_up(old(self)@, index as int));
        }
    }

    /// Swap the fragment at `index` with its successor. Undoable. A no-op at
    /// the bottom.
    pub fn move_plot_down(&mut self, index: usize)
        requires
            wf_doc(old(self)@),
            index < old(self)@.plots.len(),
        ensures
            final(self)@ == spec_move_plot_down(old(self)@, index as int),
            wf_doc(final(self)@),
    {
        if index >= self.plots.len() - 1 {
            return;
        }
        self.save_state_for_undo();
        let ghost before = self.plots@;
        let f = self.plots.remove(index);
        self.plots.insert(index + 1, f);
        proof {
            lemma_swap_down(before, index as int);
            lemma_plots_view_swapped(before, index as int, index as int + 1);
            lemma_move_plot_down_wf(old(self)@, index as int);
            assert(self@ =~~= spec_move_plot_down(old(self)@, index as int));
        }
    }

    /// Overwrite the text of the fragment at `index`. Marks the document
    /// dirty; direct edits are not recorded for undo.
    pub fn set_plot_text(&mut self, index: usize, text: Vec<u8>)
        requires
            wf_doc(old(self)@),
            index < old(self)@.plots.len(),
        ensures
            final(self)@ == spec_set_plot_text(old(self)@, index as int, text@),
            wf_doc(final(self)@),
    {
        let id = self.plots[index].id;
        let replacement = Fragment { id, text };
        proof {
            lemma_plots_view_update(self.plots@, index as int, replacement);
        }
        self.plots.set(index, replacement);
        self.is_dirty = true;
        proof {
            lemma_set_plot_text_wf(old(self)@, index as int, text@);
            assert(self@ =~~= spec_set_plot_text(old(self)@, index as int, text@));
        }
    }

    /// Overwrite the composed text. Marks the document dirty; direct edits
    /// are not recorded for undo.
    pub fn set_composed_text(&mut self, text: Vec<u8>)
        requires
            wf_doc(old(self)@),
        ensures
            final(self)@ == spec_set_composed_text(old(self)@, text@),
            wf_doc(final(self)@),
    {
        self.composed_text = text;
        self.is_dirty = true;
        proof {
            assert(self@ =~~= spec_set_composed_text(old(self)@, text@));
        }
    }

    /// Search: scan every fragment in document order, then the composed
    /// text, and report every occurrence of the needle, overlapping ones
    /// included, as byte offsets. An empty needle finds nothing. Results go
    /// stale at the next mutating command.
    pub fn search(&self, needle: &Vec<u8>) -> (results: Vec<SearchResult>)
        ensures
            results@ == spec_search(self@, needle@),
    {
        let mut results: Vec<SearchResult> = Vec::new();
        if needle.len() == 0 {
            return results;
        }
        let mut k: usize = 0;
        while k < self.plots.len()
            invariant
                needle@.len() > 0,
                k <= self.plots@.len(),
                self@.plots.len() == self.plots@.len(),
                results@ == plot_hits(self@.plots.take(k as int), needle@),
            decreases self.plots@.len() - k,
        {
            hits_in_text(&self.plots[k].text, needle, Some(k), &mut results);
            proof {
                lemma_plot_hits_step(self@.plots, needle@, k as int);
                assert(self@.plots[k as int].text == self.plots@[k as int]@.text);
            }
            k = k + 1;
        }
        proof {
            assert(self@.plots.take(self@.plots.len() as int) =~= self@.plots);
        }
        hits_in_text(&self.composed_text, needle, None, &mut results);
        results
    }

    /// Replace every occurrence of the needle, left to right without
    /// overlap, in every fragment's text and independently in the composed
    /// text. Undoable. A no-op on an empty needle. Any previously obtained
    /// search results are stale after this.
    pub fn replace_all(&mut self, needle: &Vec<u8>, replacement: &Vec<u8>)
        requires
            wf_doc(old(self)@),
        ensures
            final(self)@ == spec_replace_all(old(self)@, needle@, replacement@),
            wf_doc(final(self)@),
    {
        if needle.len() == 0 {
            return;
        }
        self.save_state_for_undo();
        let ghost mid = self@;
        let mut k: usize = 0;
        while k < self.plots.len()
            invariant
                needle@.len() > 0,
                k <= self.plots@.len(),
                self.plots@.len() == mid.plots.len(),
                self@.composed == mid.composed,
                self@.next_id == mid.next_id,
                self@.undo == mid.undo,
                self@.redo == mid.redo,
                self@.dirty == mid.dirty,
                self@.pending_delete == mid.pending_delete,
                self@.path == mid.path,
                forall|t: int| 0 <= t < k ==> self@.plots[t] == frag_replaced(
                    mid.plots[t],
                    needle@,
                    replacement@,
                ),
                forall|t: int| k <= t < mid.plots.len() ==> self@.plots[t] == mid.plots[t],
            decreases self.plots@.len() - k,
        {
            let ghost prev = self@.plots;
            proof {
                assert(self@.plots[k as int] == self.plots@[k as int]@);
            }
            let new_text = replace_in_text(&self.plots[k].text, needle, replacement);
            let id = self.plots[k].id;
            let replacement_frag = Fragment { id, text: new_text };
            let ghost rf = replacement_frag@;
            proof {
                lemma_plots_view_update(self.plots@, k as int, replacement_frag);
                assert(rf == frag_replaced(mid.plots[k as int], needle@, replacement@));
            }
            self.plots.set(k, replacement_frag);
            proof {
                assert(self@.plots == prev.update(k as int, rf));
            }
            k = k + 1;
        }
        let ghost done_plots = self@.plots;
        self.composed_text = replace_in_text(&self.composed_text, needle, replacement);
        proof {
            lemma_replace_all_wf(old(self)@, needle@, replacement@);
            assert(self@.plots == done_plots);
            assert(self@.plots.len() == mid.plots.len());
            assert forall|t: int| 0 <= t < mid.plots.len() implies self@.plots[t] == frag_replaced(
                mid.plots[t],
                needle@,
                replacement@,
            ) by {
                assert(done_plots[t] == frag_replaced(mid.plots[t], needle@, replacement@));
            }
            assert(self@.plots =~= mid.plots.map_values(
                |f: FragV| frag_replaced(f, needle@, replacement@),
            ));
            assert(self@ =~~= spec_replace_all(old(self)@, needle@, replacement@));
        }
    }

    /// The composed text as it would be exported: every line feed expanded
    /// to a carriage return and line feed pair.
    pub fn export_bytes(&self) -> (r: Vec<u8>)
        ensures
            r@ == replace_bytes(self@.composed, seq![10u8], seq![13u8, 10u8]),
    {
        let mut needle: Vec<u8> = Vec::new();
        needle.push(10);
        let mut repl: Vec<u8> = Vec::new();
        repl.push(13);
        repl.push(10);
        proof {
            assert(needle@ =~= seq![10u8]);
            assert(repl@ =~= seq![13u8, 10u8]);
        }
        replace_in_text(&self.composed_text, &needle, &repl)
    }

    /// First phase of a deletion: remember the fragment to delete, by id,
    /// pending confirmation.
    pub fn request_delete(&mut self, id: usize)
        requires
            wf_doc(old(self)@),
        ensures
            final(self)@ == spec_request_delete(old(self)@, id as nat),
            wf_doc(final(self)@),
    {
        self.pending_delete = Some(id);
        proof {
            assert(self@ =~~= spec_request_delete(old(self)@, id as nat));
        }
    }

    /// Abandon a pending deletion.
    pub fn cancel_delete(&mut self)
        requires
            wf_doc(old(self)@),
        ensures
            final(self)@ == spec_cancel_delete(old(self)@),
            wf_doc(final(self)@),
    {
        self.pending_delete = None;
        proof {
            assert(self@ =~~= spec_cancel_delete(old(self)@));
        }
    }

    /// Second phase of a deletion: look the pending id up and remove that
    /// fragment (undoable); the pending token is consumed either way.
    pub fn confirm_delete(&mut self)
        requires
            wf_doc(old(self)@),
        ensures
            final(self)@ == spec_confirm_delete(old(self)@),
            wf_doc(final(self)@),
    {
        let pending = self.pending_delete;
        self.pending_delete = None;
        if let Some(id) = pending {
            let ghost cleared = self@;
            let mut i: usize = 0;
            while i < self.plots.len() && self.plots[i].id != id
                invariant
                    i <= self@.plots.len(),
                    self@.plots.len() == self.plots@.len(),
                    forall|k: int| 0 <= k < i ==> #[trigger] self@.plots[k].id != id as nat,
                decreases self.plots.len() - i,
            {
                i = i + 1;
            }
            if i < self.plots.len() {
                proof {
                    assert(self@.plots[i as int] == self.plots@[i as int]@);
                    assert(old(self)@.plots[i as int].id == id as nat);
                    assert(has_id(old(self)@.plots, id as nat));
                    let ci = index_of_id(old(self)@.plots, id as nat);
                    assert(0 <= ci < old(self)@.plots.len() && old(self)@.plots[ci].id
                        == id as nat);
                    if ci != i as int {
                        assert(old(self)@.plots[i as int].id == old(self)@.plots[ci].id);
                        assert(false);
                    }
                }
                self.remove_plot(i);
            } else {
                proof {
                    assert(!has_id(old(self)@.plots, id as nat));
                }
            }
        }
        proof {
            lemma_confirm_delete_wf(old(self)@);
            assert(self@ =~~= spec_confirm_delete(old(self)@));
        }
    }

    /// A successful save: the document is clean again and remembers where it
    /// was written.
    pub fn mark_saved(&mut self, path: String)
        requires
            wf_doc(old(self)@),
        ensures
            final(self)@ == spec_mark_saved(old(self)@, path@),
            wf_doc(final(self)@),
    {
        let ghost pv = path@;
        self.file_path = Some(path);
        self.is_dirty = false;
        proof {
            assert(self@ =~~= spec_mark_saved(old(self)@, pv));
        }
    }

    /// The persisted form of the document: the fragments and the composed
    /// text, written in the library's pretty-printed format. Reading those
    /// bytes back yields exactly the same pair.
    pub fn save_to_bytes(&self) -> (r: Vec<u8>)
        ensures
            r@ == emit_doc(self@.plots, self@.composed),
    {
        emit_document(&self.plots, &self.composed_text)
    }

    /// Load a persisted document: read the bytes, and reject them whole —
    /// leaving the document untouched — unless they hold a well-formed
    /// document with at least one fragment, pairwise distinct ids, and every
    /// id representable. On success the load is undoable, replaces the
    /// fragments and the composed text, reindexes the id counter and marks
    /// the document dirty; the caller records the path separately.
    pub fn load_from_bytes(&mut self, bytes: &Vec<u8>) -> (r: Result<(), DeserializeError>)
        requires
            wf_doc(old(self)@),
        ensures
            wf_doc(final(self)@),
            (match p_doc(bytes@) {
                Some((plots, composed)) => {
                    if plots.len() >= 1 && ids_unique(plots) && ids_below(
                        plots,
                        usize::MAX as nat,
                    ) {
                        r is Ok && final(self)@ == spec_load(old(self)@, plots, composed)
                    } else {
                        r is Err && final(self)@ == old(self)@
                    }
                },
                None => r is Err && final(self)@ == old(self)@,
            }),
    {
        match parse_document(bytes) {
            None => Err(DeserializeError),
            Some((plots, composed)) => {
                if !plots_valid(&plots) {
                    return Err(DeserializeError);
                }
                let ghost pv = plots_view(plots@);
                let ghost cv = composed@;
                self.save_state_for_undo();
                let mut m: usize = self.next_id;
                let mut t: usize = 0;
                proof {
                    assert(pv.take(0) =~= Seq::<FragV>::empty());
                }
                while t < plots.len()
                    invariant
                        t <= plots@.len(),
                        pv == plots_view(plots@),
                        ids_below(pv, usize::MAX as nat),
                        m as nat == next_after(pv.take(t as int), old(self)@.next_id),
                    decreases plots@.len() - t,
                {
                    proof {
                        assert(pv[t as int] == plots@[t as int]@);
                        assert(pv[t as int].id < usize::MAX);
                        assert(pv.take(t as int + 1).drop_last() =~= pv.take(t as int));
                        assert(pv.take(t as int + 1).last() == pv[t as int]);
                    }
                    if plots[t].id >= m {
                        m = plots[t].id + 1;
                    }
                    t = t + 1;
                }
                proof {
                    assert(pv.take(pv.len() as int) =~= pv);
                }
                self.plots = plots;
                self.composed_text = composed;
                self.next_id = m;
                proof {
                    lemma_load_wf(old(self)@, pv, cv);
                    assert(self@ =~~= spec_load(old(self)@, pv, cv));
                }
                Ok(())
            },
        }
    }

    /// How many fragments the document holds.
    pub fn plot_count(&self) -> (n: usize)
        ensures
            n == self@.plots.len(),
    {
        self.plots.len()
    }

    /// The id of the fragment at `index`.
    pub fn plot_id(&self, index: usize) -> (id: usize)
        requires
            index < self@.plots.len(),
        ensures
            id as nat == self@.plots[index as int].id,
    {
        self.plots[index].id
    }

    /// The text of the fragment at `index`.
    pub fn plot_text(&self, index: usize) -> (text: &Vec<u8>)
        requires
            index < self@.plots.len(),
        ensures
            text@ == self@.plots[index as int].text,
    {
        &self.plots[index].text
    }

    /// The composed text as it stands; it is only brought up to date by
    /// compose, load and replace, and may be stale meanwhile.
    pub fn composed_text(&self) -> (text: &Vec<u8>)
        ensures
            text@ == self@.composed,
    {
        &self.composed_text
    }

    /// The id the next created fragment will take.
    pub fn next_id(&self) -> (n: usize)
        ensures
            n as nat == self@.next_id,
    {
        self.next_id
    }

    /// How many undo steps are available.
    pub fn undo_len(&self) -> (n: usize)
        ensures
            n == self@.undo.len(),
    {
        self.undo_stack.len()
    }

    /// How many redo steps are available.
    pub fn redo_len(&self) -> (n: usize)
        ensures
            n == self@.redo.len(),
    {
        self.redo_stack.len()
    }

    /// Whether the document has unsaved changes. Undo and redo leave this
    /// flag as it is: undoing back to the saved state still reports unsaved.
    pub fn is_dirty(&self) -> (b: bool)
        ensures
            b == self@.dirty,
    {
        self.is_dirty
    }

    /// The path the document is associated with, if any.
    pub fn file_path(&self) -> (p: &Option<String>)
        ensures
            (match p {
                Some(s) => self@.path == Some(s@),
                None => self@.path is None,
            }),
    {
        &self.file_path
    }

    /// The id awaiting deletion confirmation, if any.
    pub fn pending_delete(&self) -> (p: Option<usize>)
        ensures
            (match p {
                Some(id) => self@.pending_delete == Some(id as nat),
                None => self@.pending_delete is None,
            }),
    {
        self.pending_delete
    }

    /// Record or clear the path the document is associated with.
    pub fn set_file_path(&mut self, path: Option<String>)
        requires
            wf_doc(old(self)@),
        ensures
            (match path {
                Some(ref p) => final(self)@ == spec_set_file_path(old(self)@, Some(p@)),
                None => final(self)@ == spec_set_file_path(old(self)@, None),
            }),
            wf_doc(final(self)@),
    {
        let ghost pv: Option<Seq<char>> = match path {
            Some(ref p) => Some(p@),
            None => None,
        };
        self.file_path = path;
        proof {
            assert(self@ =~~= spec_set_file_path(old(self)@, pv));
        }
    }
}

} // verus!
