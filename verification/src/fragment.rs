//! Executable fragment and snapshot types, their views into the model, and
//! verified deep-copy helpers used when the history takes a snapshot.

use vstd::prelude::*;
use crate::model::FragV;
use crate::model::SnapV;

verus! {

/// One user-editable block of text with a stable identity.
pub struct Fragment {
    pub id: usize,
    pub text: Vec<u8>,
}

impl View for Fragment {
    type V = FragV;

    open spec fn view(&self) -> FragV {
        FragV { id: self.id as nat, text: self.text@ }
    }
}

/// The views of a sequence of fragments, in order.
pub open spec fn plots_view(plots: Seq<Fragment>) -> Seq<FragV> {
    plots.map_values(|f: Fragment| f@)
}

/// An immutable copy of the document's `(plots, composed)` pair, kept on the
/// undo and redo stacks.
pub struct Snapshot {
    pub plots: Vec<Fragment>,
    pub composed_text: Vec<u8>,
}

impl View for Snapshot {
    type V = SnapV;

    open spec fn view(&self) -> SnapV {
        SnapV { plots: plots_view(self.plots@), composed: self.composed_text@ }
    }
}

/// The views of a sequence of snapshots, in order.
pub open spec fn snaps_view(snaps: Seq<Snapshot>) -> Seq<SnapV> {
    snaps.map_values(|s: Snapshot| s@)
}

/// `plots_view` distributes over `insert`.
pub proof fn lemma_plots_view_insert(s: Seq<Fragment>, k: int, f: Fragment)
    requires
        0 <= k <= s.len(),
    ensures
        plots_view(s.insert(k, f)) == plots_view(s).insert(k, f@),
{
    s.insert_ensures(k, f);
    plots_view(s).insert_ensures(k, f@);
    assert forall|t: int| 0 <= t < s.len() + 1 implies plots_view(s.insert(k, f))[t] == plots_view(
        s,
    ).insert(k, f@)[t] by {
        if t < k {
            assert(s.insert(k, f)[t] == s[t]);
        } else if t > k {
            assert(s.insert(k, f)[t] == s[t - 1]);
            assert(plots_view(s).insert(k, f@)[t] == plots_view(s)[t - 1]);
        }
    }
    assert(plots_view(s.insert(k, f)) =~= plots_view(s).insert(k, f@));
}

/// `plots_view` distributes over `remove`.
pub proof fn lemma_plots_view_remove(s: Seq<Fragment>, k: int)
    requires
        0 <= k < s.len(),
    ensures
        plots_view(s.remove(k)) == plots_view(s).remove(k),
{
    s.remove_ensures(k);
    plots_view(s).remove_ensures(k);
    assert forall|t: int| 0 <= t < s.len() - 1 implies plots_view(s.remove(k))[t] == plots_view(
        s,
    ).remove(k)[t] by {
        if t >= k {
            assert(s.remove(k)[t] == s[t + 1]);
            assert(plots_view(s).remove(k)[t] == plots_view(s)[t + 1]);
        }
    }
    assert(plots_view(s.remove(k)) =~= plots_view(s).remove(k));
}

/// `plots_view` distributes over `update`.
pub proof fn lemma_plots_view_update(s: Seq<Fragment>, k: int, f: Fragment)
    requires
        0 <= k < s.len(),
    ensures
        plots_view(s.update(k, f)) == plots_view(s).update(k, f@),
{
    assert(plots_view(s.update(k, f)) =~= plots_view(s).update(k, f@));
}

/// `plots_view` distributes over a swap of two positions.
pub proof fn lemma_plots_view_swapped(s: Seq<Fragment>, i: int, j: int)
    requires
        0 <= i < s.len(),
        0 <= j < s.len(),
    ensures
        plots_view(crate::model::seq_swapped(s, i, j)) == crate::model::seq_swapped(
            plots_view(s),
            i,
            j,
        ),
{
    lemma_plots_view_update(s, i, s[j]);
    lemma_plots_view_update(s.update(i, s[j]), j, s[i]);
}

/// `snaps_view` distributes over `push`.
pub proof fn lemma_snaps_view_push(s: Seq<Snapshot>, x: Snapshot)
    ensures
        snaps_view(s.push(x)) == snaps_view(s).push(x@),
{
    assert(snaps_view(s.push(x)) =~= snaps_view(s).push(x@));
}

/// `snaps_view` distributes over `subrange`.
pub proof fn lemma_snaps_view_subrange(s: Seq<Snapshot>, a: int, b: int)
    requires
        0 <= a <= b <= s.len(),
    ensures
        snaps_view(s.subrange(a, b)) == snaps_view(s).subrange(a, b),
{
    assert(snaps_view(s.subrange(a, b)) =~= snaps_view(s).subrange(a, b));
}

/// A byte-for-byte copy of a text.
pub fn copy_bytes(src: &Vec<u8>) -> (r: Vec<u8>)
    ensures
        r@ == src@,
{
    let mut r: Vec<u8> = Vec::new();
    let mut i: usize = 0;
    while i < src.len()
        invariant
            i <= src.len(),
            r@ == src@.take(i as int),
        decreases src.len() - i,
    {
        r.push(src[i]);
        i = i + 1;
    }
    proof {
        assert(r@ =~= src@);
    }
    r
}

/// Append every byte of `src` to `out`.
pub fn push_all(out: &mut Vec<u8>, src: &Vec<u8>)
    ensures
        final(out)@ == old(out)@ + src@,
{
    let mut i: usize = 0;
    while i < src.len()
        invariant
            i <= src.len(),
            out@ == old(out)@ + src@.take(i as int),
        decreases src.len() - i,
    {
        out.push(src[i]);
        i = i + 1;
        proof {
            assert(out@ =~= old(out)@ + src@.take(i as int));
        }
    }
    proof {
        assert(out@ =~= old(out)@ + src@);
    }
}

/// A deep copy of one fragment.
pub fn copy_fragment(f: &Fragment) -> (r: Fragment)
    ensures
        r@ == f@,
{
    Fragment { id: f.id, text: copy_bytes(&f.text) }
}

/// A deep copy of an ordered fragment list.
pub fn copy_plots(src: &Vec<Fragment>) -> (r: Vec<Fragment>)
    ensures
        plots_view(r@) == plots_view(src@),
{
    let mut r: Vec<Fragment> = Vec::new();
    let mut i: usize = 0;
    while i < src.len()
        invariant
            i <= src.len(),
            r@.len() == i,
            forall|k: int| 0 <= k < i ==> (#[trigger] r@[k])@ == src@[k]@,
        decreases src.len() - i,
    {
        r.push(copy_fragment(&src[i]));
        i = i + 1;
    }
    proof {
        assert(plots_view(r@) =~= plots_view(src@));
    }
    r
}

/// The snapshot of the given `(plots, composed)` pair, as a deep copy.
pub fn snapshot_of(plots: &Vec<Fragment>, composed_text: &Vec<u8>) -> (s: Snapshot)
    ensures
        s@ == (SnapV { plots: plots_view(plots@), composed: composed_text@ }),
{
    Snapshot { plots: copy_plots(plots), composed_text: copy_bytes(composed_text) }
}

} // verus!
