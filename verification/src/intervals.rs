//! Maximal runs of `true` in a boolean mask (the index part of interval
//! detection; the time padding and merging work on sample times).
use vstd::prelude::*;

verus! {

/// `(s, e)` is a maximal run of `true` in `mask`: all of `s..e` is true and
/// the run extends to neither side.
pub open spec fn is_maximal_run(mask: Seq<bool>, s: int, e: int) -> bool {
    &&& 0 <= s < e <= mask.len()
    &&& forall|p: int| s <= p < e ==> #[trigger] mask[p]
    &&& s == 0 || !mask[s - 1]
    &&& e == mask.len() || !mask[e]
}

/// Index `p` lies in the run `r`.
pub open spec fn in_run(r: (usize, usize), p: int) -> bool {
    r.0 <= p < r.1
}

/// `runs` lists every maximal run of `mask`, in increasing order.
pub open spec fn runs_of(mask: Seq<bool>, runs: Seq<(usize, usize)>) -> bool {
    &&& forall|i: int| 0 <= i < runs.len() ==> is_maximal_run(mask, #[trigger] runs[i].0 as int, runs[i].1 as int)
    &&& forall|i: int| 0 <= i < runs.len() - 1 ==> #[trigger] runs[i].1 < runs[i + 1].0
    &&& forall|p: int|
        0 <= p < mask.len() && #[trigger] mask[p] ==> exists|i: int|
            0 <= i < runs.len() && #[trigger] in_run(runs[i], p)
}

/// The maximal runs of `true` in `mask` as half-open index ranges, in
/// order.
pub fn mask_runs(mask: &[bool]) -> (r: Vec<(usize, usize)>)
    requires
        mask.len() >= 1,
    ensures
        runs_of(mask@, r@),
{
    let n = mask.len();
    let mut runs: Vec<(usize, usize)> = Vec::new();
    let mut start: usize = 0;
    let mut open = false;
    let mut i: usize = 0;
    while i < n
        invariant
            i <= n,
            n == mask.len(),
            open == (i > 0 && mask@[i - 1]),
            open ==> start < i && (start == 0 || !mask@[start - 1]) && forall|p: int|
                start <= p < i ==> #[trigger] mask@[p],
            forall|k: int|
                0 <= k < runs@.len() ==> is_maximal_run(
                    mask@,
                    #[trigger] runs@[k].0 as int,
                    runs@[k].1 as int,
                ),
            forall|k: int| 0 <= k < runs@.len() - 1 ==> #[trigger] runs@[k].1 < runs@[k + 1].0,
            forall|k: int| 0 <= k < runs@.len() ==> #[trigger] runs@[k].1 < i,
            open && runs@.len() > 0 ==> runs@[runs@.len() - 1].1 < start,
            forall|p: int|
                0 <= p < i && #[trigger] mask@[p] ==> (exists|k: int|
                    0 <= k < runs@.len() && #[trigger] in_run(runs@[k], p)) || (open && start <= p),
        decreases n - i,
    {
        let ghost before = runs@;
        if mask[i] {
            if !open {
                start = i;
                open = true;
            }
        } else if open {
            runs.push((start, i));
            open = false;
            proof {
                assert forall|p: int|
                    0 <= p < i + 1 && #[trigger] mask@[p] implies (exists|k: int|
                        0 <= k < runs@.len() && #[trigger] in_run(runs@[k], p)) by {
                    if start <= p {
                        assert(in_run(runs@[runs@.len() - 1], p));
                    } else {
                        let k = choose|k: int| 0 <= k < before.len() && #[trigger] in_run(before[k], p);
                        assert(in_run(runs@[k], p));
                    }
                }
            }
        }
        i = i + 1;
    }
    if open {
        let ghost before = runs@;
        runs.push((start, n));
        proof {
            assert forall|p: int|
                0 <= p < n && #[trigger] mask@[p] implies (exists|k: int|
                    0 <= k < runs@.len() && #[trigger] in_run(runs@[k], p)) by {
                if start <= p {
                    assert(in_run(runs@[runs@.len() - 1], p));
                } else {
                    let k = choose|k: int| 0 <= k < before.len() && #[trigger] in_run(before[k], p);
                    assert(in_run(runs@[k], p));
                }
            }
        }
    }
    runs
}

} // verus!
