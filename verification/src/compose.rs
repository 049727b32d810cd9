//! The compose engine: the deterministic join of the fragments' texts into
//! one document-level text, with a fixed separator between consecutive
//! fragments.

use vstd::prelude::*;
use crate::fragment::Fragment;
use crate::fragment::plots_view;
use crate::fragment::push_all;
use crate::model::DocV;
use crate::model::FragV;
use crate::model::save_state;
use crate::model::wf_doc;
use crate::model::lemma_save_state_wf;

verus! {

/// The literal separator placed between consecutive fragments, the bytes of
/// `"\n\n---\n\n"`.
pub open spec fn separator() -> Seq<u8> {
    seq![10u8, 10u8, 45u8, 45u8, 45u8, 10u8, 10u8]
}

/// The fragments' texts joined in order: the separator stands between
/// consecutive fragments, never before the first nor after the last.
pub open spec fn join_texts(plots: Seq<FragV>) -> Seq<u8>
    decreases plots.len(),
{
    if plots.len() == 0 {
        Seq::empty()
    } else if plots.len() == 1 {
        plots[0].text
    } else {
        join_texts(plots.drop_last()) + separator() + plots.last().text
    }
}

/// Composing snapshots the current state for undo, then replaces the
/// composed text with the join of the fragments as they stand.
pub open spec fn spec_compose(d: DocV) -> DocV {
    let e = save_state(d);
    DocV { composed: join_texts(d.plots), ..e }
}

/// Composing preserves well-formedness.
pub proof fn lemma_compose_wf(d: DocV)
    requires
        wf_doc(d),
    ensures
        wf_doc(spec_compose(d)),
{
    lemma_save_state_wf(d);
}

/// One joining step: extending the joined prefix by one fragment appends the
/// separator (except before the first fragment) and that fragment's text.
pub proof fn lemma_join_step(s: Seq<FragV>, k: int)
    requires
        0 <= k < s.len(),
    ensures
        join_texts(s.take(k + 1)) == (if k == 0 {
            s[0].text
        } else {
            join_texts(s.take(k)) + separator() + s[k].text
        }),
{
    assert(s.take(k + 1).drop_last() =~= s.take(k));
    assert(s.take(k + 1).last() == s[k]);
}

/// Append the separator bytes to `out`.
fn push_separator(out: &mut Vec<u8>)
    ensures
        final(out)@ == old(out)@ + separator(),
{
    out.push(10);
    out.push(10);
    out.push(45);
    out.push(45);
    out.push(45);
    out.push(10);
    out.push(10);
    proof {
        assert(out@ =~= old(out)@ + separator());
    }
}

/// The join of the given fragments' texts, separator included.
pub fn join_plots(plots: &Vec<Fragment>) -> (r: Vec<u8>)
    ensures
        r@ == join_texts(plots_view(plots@)),
{
    let mut r: Vec<u8> = Vec::new();
    let mut k: usize = 0;
    while k < plots.len()
        invariant
            k <= plots.len(),
            r@ == join_texts(plots_view(plots@).take(k as int)),
        decreases plots.len() - k,
    {
        if k > 0 {
            push_separator(&mut r);
        }
        push_all(&mut r, &plots[k].text);
        proof {
            lemma_join_step(plots_view(plots@), k as int);
            assert(plots_view(plots@)[k as int].text == plots@[k as int]@.text);
        }
        k = k + 1;
    }
    proof {
        assert(plots_view(plots@).take(plots@.len() as int) =~= plots_view(plots@));
    }
    r
}

} // verus!
