//! Resuming from a persisted run: find the first block whose text still
//! equals the source — everything before it was already translated — and
//! collect the context lines just before that point.

use crate::srt::{lines_eq, BlockModel, SrtBlock};
use crate::translate::spec_context;
use vstd::prelude::*;

verus! {

/// The resume scan: walk forward while the reloaded text differs from
/// the source text, and stop at the first position where they agree (or
/// where either sequence ends).
pub open spec fn spec_resume_from(orig: Seq<BlockModel>, loaded: Seq<BlockModel>, i: int) -> int
    decreases loaded.len() - i,
{
    if 0 <= i < loaded.len() && i < orig.len() && loaded[i].text != orig[i].text {
        spec_resume_from(orig, loaded, i + 1)
    } else {
        i
    }
}

/// The resume point of a reloaded checkpoint against its source.
pub open spec fn spec_resume_index(orig: Seq<BlockModel>, loaded: Seq<BlockModel>) -> int {
    spec_resume_from(orig, loaded, 0)
}

/// Resume correctness: when exactly the first `k` blocks of the
/// checkpoint differ from the source and all later blocks agree with it,
/// the scan lands exactly on `k`; with `resume_point`'s contract, a load
/// then reports index `k` and the joined source text of blocks
/// `[max(0, k - 4), k)` as context.
pub proof fn lemma_resume_correctness(orig: Seq<BlockModel>, loaded: Seq<BlockModel>, k: int)
    requires
        orig.len() == loaded.len(),
        0 <= k <= orig.len(),
        forall|i: int| 0 <= i < k ==> (#[trigger] loaded[i]).text != orig[i].text,
        forall|i: int| k <= i < orig.len() ==> (#[trigger] loaded[i]).text == orig[i].text,
    ensures
        spec_resume_index(orig, loaded) == k,
{
    lemma_resume_from(orig, loaded, k, 0);
}

proof fn lemma_resume_from(orig: Seq<BlockModel>, loaded: Seq<BlockModel>, k: int, i: int)
    requires
        orig.len() == loaded.len(),
        0 <= i <= k <= orig.len(),
        forall|j: int| 0 <= j < k ==> (#[trigger] loaded[j]).text != orig[j].text,
        forall|j: int| k <= j < orig.len() ==> (#[trigger] loaded[j]).text == orig[j].text,
    ensures
        spec_resume_from(orig, loaded, i) == k,
    decreases k - i,
{
    if i < k {
        lemma_resume_from(orig, loaded, k, i + 1);
    }
}

/// Compute the resume point of a reloaded block sequence and the joined
/// source text of the up-to-four blocks just before it.
#[verifier::loop_isolation(false)]
pub fn resume_point(original: &Vec<SrtBlock>, loaded: &Vec<SrtBlock>) -> (r: (usize, Vec<String>))
    ensures
        r.0 as int == spec_resume_index(original.deep_view(), loaded.deep_view()),
        r.0 <= loaded@.len(),
        r.1.deep_view() == spec_context(original.deep_view(), r.0 as int),
{
    let ghost ov = original.deep_view();
    let ghost lv = loaded.deep_view();
    let n = loaded.len();
    let on = original.len();
    let mut i: usize = 0;
    while i < n && i < on && !lines_eq(&loaded[i].text, &original[i].text)
        invariant
            i <= n,
            i <= on,
            spec_resume_from(ov, lv, 0) == spec_resume_from(ov, lv, i as int),
        decreases n - i,
    {
        proof {
            assert(lv[i as int].text == loaded@[i as int].text.deep_view());
            assert(ov[i as int].text == original@[i as int].text.deep_view());
        }
        i = i + 1;
    }
    proof {
        if i < n && i < on {
            assert(lv[i as int].text == loaded@[i as int].text.deep_view());
            assert(ov[i as int].text == original@[i as int].text.deep_view());
        }
        assert(spec_resume_from(ov, lv, i as int) == i as int);
    }
    let idx = i;
    let pstart = if idx >= crate::translate::CONTEXT_LINES {
        idx - crate::translate::CONTEXT_LINES
    } else {
        0
    };
    let mut history: Vec<String> = Vec::new();
    let mut p = pstart;
    proof {
        assert(idx <= on);
        assert(history.deep_view() =~~= ov.subrange(pstart as int, p as int).map_values(
            |b: BlockModel| crate::chars::spec_join_nl(b.text),
        ));
    }
    while p < idx
        invariant
            pstart <= p <= idx <= on,
            history.deep_view() == ov.subrange(pstart as int, p as int).map_values(
                |b: BlockModel| crate::chars::spec_join_nl(b.text),
            ),
        decreases idx - p,
    {
        let s = crate::chars::join_lines(&original[p].text);
        let ghost before = history.deep_view();
        let ghost beforev = history@;
        proof {
            assert(original@[p as int].text.deep_view() == ov[p as int].text);
            assert(before.len() == p - pstart);
            assert(beforev.len() == p - pstart);
        }
        history.push(s);
        proof {
            let f = |b: BlockModel| crate::chars::spec_join_nl(b.text);
            let target = ov.subrange(pstart as int, p + 1).map_values(f);
            assert(history@ == beforev.push(s));
            assert forall|k: int| 0 <= k < p - pstart + 1 implies #[trigger] history.deep_view()[k]
                == target[k] by {
                assert(history.deep_view()[k] == history@[k].deep_view());
                assert(target[k] == f(ov.subrange(pstart as int, p + 1)[k]));
                assert(ov.subrange(pstart as int, p + 1)[k] == ov[pstart + k]);
                if k < p - pstart {
                    assert(history@[k] == beforev[k]);
                    assert(before[k] == beforev[k].deep_view());
                    assert(before[k] == ov.subrange(pstart as int, p as int).map_values(f)[k]);
                    assert(ov.subrange(pstart as int, p as int)[k] == ov[pstart + k]);
                } else {
                    assert(history@[k] == s);
                }
            }
            assert(history.deep_view() =~= target);
        }
        p = p + 1;
    }
    (idx, history)
}

} // verus!
