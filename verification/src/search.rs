//! The search/replace engine: substring search over fragments and composed
//! text reporting every occurrence, overlapping ones included, and global
//! replacement with the standard non-overlapping left-to-right policy. The
//! two policies differ on purpose and must not be unified.

use vstd::prelude::*;
use crate::fragment::push_all;
use crate::model::DocV;
use crate::model::FragV;
use crate::model::save_state;
use crate::model::wf_doc;
use crate::model::lemma_save_state_wf;

verus! {

/// Where a search hit was found: in one fragment, or in the composed text.
#[derive(PartialEq, Eq, Structural)]
pub enum SearchLocation {
    Plot,
    ComposedText,
}

/// One search hit. `start` and `end` are byte offsets into the text the hit
/// was found in, valid only until the next mutating command.
pub struct SearchResult {
    pub location: SearchLocation,
    pub plot_index: Option<usize>,
    pub start: usize,
    pub end: usize,
}

/// The needle occurs in `text` at byte offset `i`.
pub open spec fn matches_at(text: Seq<u8>, needle: Seq<u8>, i: int) -> bool {
    &&& 0 <= i
    &&& i + needle.len() <= text.len()
    &&& text.subrange(i, i + needle.len()) == needle
}

/// Every offset at or after `i` where the needle occurs, in increasing
/// order. This is the overlapping policy: after a hit the scan resumes one
/// byte later, so overlapping occurrences are all reported.
pub open spec fn occurrences_from(text: Seq<u8>, needle: Seq<u8>, i: int) -> Seq<int>
    decreases text.len() - i,
{
    if i < 0 || i + needle.len() > text.len() || needle.len() == 0 {
        Seq::empty()
    } else if matches_at(text, needle, i) {
        seq![i] + occurrences_from(text, needle, i + 1)
    } else {
        occurrences_from(text, needle, i + 1)
    }
}

/// Every offset where the needle occurs in `text`, in increasing order.
pub open spec fn occurrences(text: Seq<u8>, needle: Seq<u8>) -> Seq<int> {
    occurrences_from(text, needle, 0)
}

/// The scan is sound and complete: it reports exactly the offsets at or
/// after `i` where the needle occurs.
pub proof fn lemma_occurrences_from_exact(text: Seq<u8>, needle: Seq<u8>, i: int, j: int)
    requires
        needle.len() > 0,
        0 <= i,
    ensures
        occurrences_from(text, needle, i).contains(j) <==> (i <= j && matches_at(text, needle, j)),
    decreases text.len() - i,
{
    if i + needle.len() > text.len() {
        assert(!occurrences_from(text, needle, i).contains(j));
    } else {
        lemma_occurrences_from_exact(text, needle, i + 1, j);
        let rest = occurrences_from(text, needle, i + 1);
        if matches_at(text, needle, i) {
            let whole = seq![i] + rest;
            assert forall|x: int| whole.contains(x) implies x == i || rest.contains(x) by {
                let k = choose|k: int| 0 <= k < whole.len() && whole[k] == x;
                if k > 0 {
                    assert(rest[k - 1] == x);
                }
            }
            assert forall|x: int| x == i || rest.contains(x) implies whole.contains(x) by {
                if x == i {
                    assert(whole[0] == i);
                } else {
                    let k = choose|k: int| 0 <= k < rest.len() && rest[k] == x;
                    assert(whole[k + 1] == x);
                }
            }
        }
    }
}

/// The scan reports offsets in strictly increasing order.
pub proof fn lemma_occurrences_from_sorted(text: Seq<u8>, needle: Seq<u8>, i: int, k1: int, k2: int)
    requires
        0 <= k1 < k2 < occurrences_from(text, needle, i).len(),
    ensures
        occurrences_from(text, needle, i)[k1] < occurrences_from(text, needle, i)[k2],
    decreases text.len() - i,
{
    lemma_occurrences_from_lower(text, needle, i);
    let occ = occurrences_from(text, needle, i);
    if !(i < 0 || i + needle.len() > text.len() || needle.len() == 0) {
        let rest = occurrences_from(text, needle, i + 1);
        if matches_at(text, needle, i) {
            lemma_occurrences_from_lower(text, needle, i + 1);
            if k1 > 0 {
                lemma_occurrences_from_sorted(text, needle, i + 1, k1 - 1, k2 - 1);
                assert(occ[k1] == rest[k1 - 1]);
                assert(occ[k2] == rest[k2 - 1]);
            } else {
                assert(occ[k2] == rest[k2 - 1]);
            }
        } else {
            lemma_occurrences_from_sorted(text, needle, i + 1, k1, k2);
        }
    }
}

/// Every reported offset lies at or after where the scan started.
pub proof fn lemma_occurrences_from_lower(text: Seq<u8>, needle: Seq<u8>, i: int)
    ensures
        forall|k: int|
            0 <= k < occurrences_from(text, needle, i).len()
                ==> #[trigger] occurrences_from(text, needle, i)[k] >= i,
    decreases text.len() - i,
{
    let occ = occurrences_from(text, needle, i);
    if !(i < 0 || i + needle.len() > text.len() || needle.len() == 0) {
        lemma_occurrences_from_lower(text, needle, i + 1);
        let rest = occurrences_from(text, needle, i + 1);
        if matches_at(text, needle, i) {
            assert forall|k: int| 0 <= k < occ.len() implies #[trigger] occ[k] >= i by {
                if k > 0 {
                    assert(occ[k] == rest[k - 1]);
                }
            }
        }
    }
}

/// `text` with, from offset `i` on, every occurrence of the needle replaced
/// left to right without overlap: after a hit the scan resumes past the
/// consumed occurrence, unlike the search scan above.
pub open spec fn replace_from(text: Seq<u8>, needle: Seq<u8>, repl: Seq<u8>, i: int) -> Seq<u8>
    decreases text.len() - i,
{
    if i < 0 || i + needle.len() > text.len() || needle.len() == 0 {
        text.skip(i)
    } else if matches_at(text, needle, i) {
        repl + replace_from(text, needle, repl, i + needle.len())
    } else {
        seq![text[i]] + replace_from(text, needle, repl, i + 1)
    }
}

/// `text` with every occurrence of the needle replaced, left to right,
/// without overlap; `text` itself when the needle is empty.
pub open spec fn replace_bytes(text: Seq<u8>, needle: Seq<u8>, repl: Seq<u8>) -> Seq<u8> {
    if needle.len() == 0 {
        text
    } else {
        replace_from(text, needle, repl, 0)
    }
}

/// The fragment with its text replaced and its identity kept.
pub open spec fn frag_replaced(f: FragV, needle: Seq<u8>, repl: Seq<u8>) -> FragV {
    FragV { id: f.id, text: replace_bytes(f.text, needle, repl) }
}

/// Replace-all snapshots for undo, then replaces in every fragment's text
/// and, independently, in the composed text. A no-op on an empty needle.
pub open spec fn spec_replace_all(d: DocV, needle: Seq<u8>, repl: Seq<u8>) -> DocV {
    if needle.len() == 0 {
        d
    } else {
        let e = save_state(d);
        DocV {
            plots: e.plots.map_values(|f: FragV| frag_replaced(f, needle, repl)),
            composed: replace_bytes(e.composed, needle, repl),
            ..e
        }
    }
}

/// Replace-all preserves well-formedness: every id is as it was.
pub proof fn lemma_replace_all_wf(d: DocV, needle: Seq<u8>, repl: Seq<u8>)
    requires
        wf_doc(d),
    ensures
        wf_doc(spec_replace_all(d, needle, repl)),
{
    if needle.len() > 0 {
        lemma_save_state_wf(d);
        let p2 = spec_replace_all(d, needle, repl).plots;
        assert forall|i: int| 0 <= i < p2.len() implies #[trigger] p2[i].id == d.plots[i].id by {
        }
    }
}

/// The hit record for an occurrence of a needle of length `nlen` at offset
/// `pos` of the text identified by `plot_index`.
pub open spec fn mk_hit(pos: int, nlen: nat, plot_index: Option<usize>) -> SearchResult {
    SearchResult {
        location: match plot_index {
            Some(_) => SearchLocation::Plot,
            None => SearchLocation::ComposedText,
        },
        plot_index: plot_index,
        start: pos as usize,
        end: (pos + nlen) as usize,
    }
}

/// The hit records for the given occurrence offsets, in order.
pub open spec fn map_hits(ps: Seq<int>, nlen: nat, plot_index: Option<usize>) -> Seq<SearchResult> {
    ps.map_values(|p: int| mk_hit(p, nlen, plot_index))
}

/// All hits in one text, in increasing offset order, overlapping policy.
pub open spec fn hits_for_text(text: Seq<u8>, needle: Seq<u8>, plot_index: Option<usize>) -> Seq<
    SearchResult,
> {
    map_hits(occurrences(text, needle), needle.len(), plot_index)
}

/// All hits in the fragments, scanned in document order.
pub open spec fn plot_hits(plots: Seq<FragV>, needle: Seq<u8>) -> Seq<SearchResult>
    decreases plots.len(),
{
    if plots.len() == 0 {
        Seq::empty()
    } else {
        plot_hits(plots.drop_last(), needle) + hits_for_text(
            plots.last().text,
            needle,
            Some((plots.len() - 1) as usize),
        )
    }
}

/// A search scans every fragment in order, then the composed text, and
/// reports every occurrence with the overlapping policy. An empty needle
/// finds nothing.
pub open spec fn spec_search(d: DocV, needle: Seq<u8>) -> Seq<SearchResult> {
    if needle.len() == 0 {
        Seq::empty()
    } else {
        plot_hits(d.plots, needle) + hits_for_text(d.composed, needle, None)
    }
}

/// One scanning step of `plot_hits`.
pub proof fn lemma_plot_hits_step(plots: Seq<FragV>, needle: Seq<u8>, k: int)
    requires
        0 <= k < plots.len(),
    ensures
        plot_hits(plots.take(k + 1), needle) == plot_hits(plots.take(k), needle) + hits_for_text(
            plots[k].text,
            needle,
            Some(k as usize),
        ),
{
    assert(plots.take(k + 1).drop_last() =~= plots.take(k));
    assert(plots.take(k + 1).last() == plots[k]);
}

/// Whether the needle occurs in `text` at offset `i`.
pub fn is_match(text: &Vec<u8>, needle: &Vec<u8>, i: usize) -> (b: bool)
    requires
        i + needle@.len() <= text@.len(),
    ensures
        b == matches_at(text@, needle@, i as int),
{
    let tlen: usize = text.len();
    let mut j: usize = 0;
    while j < needle.len()
        invariant
            j <= needle@.len(),
            tlen == text@.len(),
            i + needle@.len() <= text@.len(),
            forall|t: int| 0 <= t < j ==> text@[i + t] == needle@[t],
        decreases needle@.len() - j,
    {
        proof {
            assert(i + j < text@.len());
        }
        if text[i + j] != needle[j] {
            proof {
                assert(text@.subrange(i as int, i + needle@.len())[j as int] != needle@[j as int]);
            }
            return false;
        }
        j = j + 1;
    }
    proof {
        assert(text@.subrange(i as int, i + needle@.len()) =~= needle@);
    }
    true
}

/// Append to `out` every hit in `text`, in increasing offset order,
/// overlapping policy.
pub fn hits_in_text(
    text: &Vec<u8>,
    needle: &Vec<u8>,
    plot_index: Option<usize>,
    out: &mut Vec<SearchResult>,
)
    requires
        needle@.len() > 0,
    ensures
        final(out)@ == old(out)@ + hits_for_text(text@, needle@, plot_index),
{
    let mut i: usize = 0;
    while i <= text.len() && needle.len() <= text.len() - i
        invariant
            needle@.len() > 0,
            i <= text@.len(),
            out@ + map_hits(occurrences_from(text@, needle@, i as int), needle@.len(), plot_index)
                == old(out)@ + hits_for_text(text@, needle@, plot_index),
        decreases text@.len() - i,
    {
        let ghost occ_here = occurrences_from(text@, needle@, i as int);
        let ghost occ_next = occurrences_from(text@, needle@, i as int + 1);
        if is_match(text, needle, i) {
            let hit = SearchResult {
                location: match plot_index {
                    Some(_) => SearchLocation::Plot,
                    None => SearchLocation::ComposedText,
                },
                plot_index: plot_index,
                start: i,
                end: i + needle.len(),
            };
            proof {
                assert(occ_here == seq![i as int] + occ_next);
                assert(map_hits(occ_here, needle@.len(), plot_index) =~= seq![
                    mk_hit(i as int, needle@.len(), plot_index),
                ] + map_hits(occ_next, needle@.len(), plot_index));
                assert(hit == mk_hit(i as int, needle@.len(), plot_index));
                assert(out@.push(hit) + map_hits(occ_next, needle@.len(), plot_index) =~= out@
                    + map_hits(occ_here, needle@.len(), plot_index));
            }
            out.push(hit);
        } else {
            proof {
                assert(occ_here == occ_next);
            }
        }
        i = i + 1;
    }
    proof {
        assert(occurrences_from(text@, needle@, i as int) == Seq::<int>::empty());
        assert(map_hits(Seq::empty(), needle@.len(), plot_index) =~= Seq::<SearchResult>::empty());
        assert(out@ + Seq::<SearchResult>::empty() =~= out@);
    }
}

/// `text` with every occurrence of the needle replaced, left to right,
/// without overlap.
pub fn replace_in_text(text: &Vec<u8>, needle: &Vec<u8>, repl: &Vec<u8>) -> (r: Vec<u8>)
    requires
        needle@.len() > 0,
    ensures
        r@ == replace_bytes(text@, needle@, repl@),
{
    let mut out: Vec<u8> = Vec::new();
    let mut i: usize = 0;
    while i < text.len()
        invariant
            needle@.len() > 0,
            i <= text@.len(),
            out@ + replace_from(text@, needle@, repl@, i as int) == replace_from(
                text@,
                needle@,
                repl@,
                0,
            ),
        decreases text@.len() - i,
    {
        if needle.len() <= text.len() - i && is_match(text, needle, i) {
            let ghost prev = out@;
            proof {
                assert(replace_from(text@, needle@, repl@, i as int) == repl@ + replace_from(
                    text@,
                    needle@,
                    repl@,
                    i + needle@.len(),
                ));
                assert((prev + repl@) + replace_from(text@, needle@, repl@, i + needle@.len()) =~=
                    prev + (repl@ + replace_from(text@, needle@, repl@, i + needle@.len())));
            }
            push_all(&mut out, repl);
            i = i + needle.len();
        } else {
            proof {
                let rest = replace_from(text@, needle@, repl@, i as int);
                if i + needle@.len() > text@.len() {
                    assert(rest == text@.skip(i as int));
                    assert(text@.skip(i as int) =~= seq![text@[i as int]] + text@.skip(
                        i as int + 1,
                    ));
                    assert(replace_from(text@, needle@, repl@, i as int + 1) == text@.skip(
                        i as int + 1,
                    ));
                }
                assert(rest == seq![text@[i as int]] + replace_from(
                    text@,
                    needle@,
                    repl@,
                    i as int + 1,
                ));
                assert(out@.push(text@[i as int]) + replace_from(text@, needle@, repl@, i as int + 1)
                    =~= out@ + rest);
            }
            out.push(text[i]);
            i = i + 1;
        }
    }
    proof {
        assert(replace_from(text@, needle@, repl@, i as int) =~= text@.skip(i as int));
        assert(text@.skip(text@.len() as int) =~= Seq::<u8>::empty());
        assert(out@ + Seq::<u8>::empty() =~= out@);
    }
    out
}

} // verus!
