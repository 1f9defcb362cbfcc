//! Maximal runs of valid samples along a sweep.
//!
//! An analytic intersection curve is sampled at `n + 1` parameters along a
//! profile; a sample is valid when it lands inside the other surface's
//! domain. Each maximal stretch of consecutive valid samples becomes one
//! intersection branch. On a closed profile the first and last samples are
//! the same point, so a run ending at the last sample continues into the
//! run starting at the first one and the two are joined across the seam.

use vstd::prelude::*;

verus! {

/// `[s, e]` is a maximal run of valid samples of `v`: every sample in it
/// is valid and the samples just outside it (where they exist) are not.
pub open spec fn maximal_run(v: Seq<bool>, s: int, e: int) -> bool {
    &&& 0 <= s <= e < v.len()
    &&& forall|k: int| s <= k <= e ==> #[trigger] v[k]
    &&& (s == 0 || !v[s - 1])
    &&& (e == v.len() - 1 || !v[e + 1])
}

/// `runs` lists the maximal runs of `v` in order: each is a maximal run,
/// each ends before the next begins, and every valid sample lies in one.
pub open spec fn lists_maximal_runs(v: Seq<bool>, runs: Seq<(usize, usize)>) -> bool {
    &&& forall|i: int| 0 <= i < runs.len() ==> #[trigger] maximal_run(v, runs[i].0 as int, runs[i].1 as int)
    &&& forall|i: int, j: int| 0 <= i < j < runs.len() ==> #[trigger] runs[i].1 < #[trigger] runs[j].0
    &&& forall|k: int|
        0 <= k < v.len() && #[trigger] v[k] ==> exists|i: int|
            0 <= i < runs.len() && #[trigger] runs[i].0 <= k <= runs[i].1
}

proof fn lemma_same_run(v: Seq<bool>, s1: int, e1: int, s2: int, e2: int, k: int)
    requires
        maximal_run(v, s1, e1),
        maximal_run(v, s2, e2),
        s1 <= k <= e1,
        s2 <= k <= e2,
    ensures
        s1 == s2 && e1 == e2,
{
    if s1 < s2 {
        assert(v[s2 - 1]);
    }
    if s2 < s1 {
        assert(v[s1 - 1]);
    }
    if e1 < e2 {
        assert(v[e1 + 1]);
    }
    if e2 < e1 {
        assert(v[e2 + 1]);
    }
}

proof fn lemma_run_in_other_list(v: Seq<bool>, a: Seq<(usize, usize)>, b: Seq<(usize, usize)>, i: int) -> (j: int)
    requires
        lists_maximal_runs(v, a),
        lists_maximal_runs(v, b),
        0 <= i < a.len(),
    ensures
        0 <= j < b.len(),
        b[j] == a[i],
{
    assert(maximal_run(v, a[i].0 as int, a[i].1 as int));
    let k = a[i].0 as int;
    assert(v[k]);
    let j = choose|j: int| 0 <= j < b.len() && #[trigger] b[j].0 <= k <= b[j].1;
    assert(maximal_run(v, b[j].0 as int, b[j].1 as int));
    lemma_same_run(v, a[i].0 as int, a[i].1 as int, b[j].0 as int, b[j].1 as int, k);
    j
}

proof fn lemma_runs_agree_upto(v: Seq<bool>, a: Seq<(usize, usize)>, b: Seq<(usize, usize)>, m: int)
    requires
        lists_maximal_runs(v, a),
        lists_maximal_runs(v, b),
        0 <= m <= a.len(),
        m <= b.len(),
    ensures
        forall|i: int| 0 <= i < m ==> a[i] == b[i],
    decreases m,
{
    if m > 0 {
        lemma_runs_agree_upto(v, a, b, m - 1);
        let x = m - 1;
        assert(maximal_run(v, a[x].0 as int, a[x].1 as int));
        assert(maximal_run(v, b[x].0 as int, b[x].1 as int));
        let j = lemma_run_in_other_list(v, a, b, x);
        if j < x {
            assert(a[j] == b[j]);
            assert(a[j].1 < a[x].0);
        } else if j > x {
            let i = lemma_run_in_other_list(v, b, a, x);
            assert(b[x].1 < b[j].0);
            if i >= x {
                if i > x {
                    assert(a[x].1 < a[i].0);
                }
            } else {
                assert(a[i] == b[i]);
                assert(b[i].1 < b[x].0);
            }
        }
    }
}

/// The maximal runs of a sample sequence are unique: two lists that both
/// list them are equal.
pub proof fn lemma_maximal_runs_unique(v: Seq<bool>, a: Seq<(usize, usize)>, b: Seq<(usize, usize)>)
    requires
        lists_maximal_runs(v, a),
        lists_maximal_runs(v, b),
    ensures
        a == b,
{
    if a.len() <= b.len() {
        lemma_runs_agree_upto(v, a, b, a.len() as int);
        if a.len() < b.len() {
            let x = a.len() as int;
            let j = lemma_run_in_other_list(v, b, a, x);
            assert(b[j] == a[j]);
            assert(b[j].1 < b[x].0);
            assert(maximal_run(v, b[x].0 as int, b[x].1 as int));
        }
    } else {
        lemma_runs_agree_upto(v, a, b, b.len() as int);
        let x = b.len() as int;
        let j = lemma_run_in_other_list(v, a, b, x);
        assert(a[j] == b[j]);
        assert(a[j].1 < a[x].0);
        assert(maximal_run(v, a[x].0 as int, a[x].1 as int));
    }
    assert(a =~= b);
}

/// The maximal runs of valid samples, in order of position.
pub fn maximal_runs(valid: &Vec<bool>) -> (r: Vec<(usize, usize)>)
    ensures
        lists_maximal_runs(valid@, r@),
{
    let ghost v = valid@;
    let mut runs: Vec<(usize, usize)> = Vec::new();
    let mut start: Option<usize> = None;
    let mut i: usize = 0;
    while i < valid.len()
        invariant
            v == valid@,
            i <= v.len(),
            start matches Some(s) ==> {
                &&& s < i
                &&& forall|k: int| s <= k < i ==> #[trigger] v[k]
                &&& (s == 0 || !v[s - 1])
                &&& forall|j: int| 0 <= j < runs@.len() ==> #[trigger] runs@[j].1 + 1 < s
            },
            start is None ==> (i == 0 || !v[i - 1]) && forall|j: int|
                0 <= j < runs@.len() ==> #[trigger] runs@[j].1 < i,
            forall|j: int| 0 <= j < runs@.len() ==> #[trigger] maximal_run(v, runs@[j].0 as int, runs@[j].1 as int),
            forall|a: int, b: int| 0 <= a < b < runs@.len() ==> #[trigger] runs@[a].1 < #[trigger] runs@[b].0,
            forall|k: int|
                0 <= k < i && #[trigger] v[k] ==> (exists|j: int|
                    0 <= j < runs@.len() && #[trigger] runs@[j].0 <= k <= runs@[j].1) || (start matches Some(
                    s,
                ) && s <= k),
        decreases v.len() - i,
    {
        let ok = valid[i];
        match start {
            None => {
                if ok {
                    proof {
                        assert forall|j: int| 0 <= j < runs@.len() implies #[trigger] runs@[j].1 + 1
                            < i by {
                            assert(maximal_run(v, runs@[j].0 as int, runs@[j].1 as int));
                            assert(v[runs@[j].1 as int]);
                        }
                    }
                    start = Some(i);
                }
            },
            Some(s) => {
                if !ok {
                    let ghost old_runs = runs@;
                    runs.push((s, i - 1));
                    proof {
                        assert(maximal_run(v, s as int, i - 1));
                        assert forall|k: int|
                            0 <= k < i + 1 && #[trigger] v[k] implies (exists|j: int|
                                0 <= j < runs@.len() && #[trigger] runs@[j].0 <= k <= runs@[j].1) by {
                            if s <= k {
                                assert(runs@[runs@.len() - 1].0 <= k <= runs@[runs@.len() - 1].1);
                            } else {
                                let j = choose|j: int|
                                    0 <= j < old_runs.len() && #[trigger] old_runs[j].0 <= k <= old_runs[j].1;
                                assert(runs@[j] == old_runs[j]);
                            }
                        }
                    }
                    start = None;
                }
            },
        }
        i += 1;
    }
    match start {
        Some(s) => {
            let ghost old_runs = runs@;
            runs.push((s, valid.len() - 1));
            proof {
                assert(maximal_run(v, s as int, v.len() - 1));
                assert forall|k: int| 0 <= k < v.len() && #[trigger] v[k] implies exists|j: int|
                    0 <= j < runs@.len() && #[trigger] runs@[j].0 <= k <= runs@[j].1 by {
                    if s <= k {
                        assert(runs@[runs@.len() - 1].0 <= k <= runs@[runs@.len() - 1].1);
                    } else {
                        let j = choose|j: int|
                            0 <= j < old_runs.len() && #[trigger] old_runs[j].0 <= k <= old_runs[j].1;
                        assert(runs@[j] == old_runs[j]);
                    }
                }
            }
        },
        None => {},
    }
    runs
}

/// How the valid samples of a sweep turn into branches.
#[derive(Debug)]
pub enum SweepRuns {
    /// Closed profile with every sample valid: one closed branch.
    Whole,
    /// Open branches, one per run; `seam` holds a run ending at the last
    /// sample and a run starting at the first, to be joined in that order.
    Runs { runs: Vec<(usize, usize)>, seam: Option<((usize, usize), (usize, usize))> },
}

/// Every sample of `v` is valid.
pub open spec fn all_valid(v: Seq<bool>) -> bool {
    forall|k: int| 0 <= k < v.len() ==> #[trigger] v[k]
}

/// The runs of a sweep's samples grouped into branches.
///
/// On a closed profile with every sample valid the result is `Whole`.
/// Otherwise the maximal runs are listed in order; on a closed profile with
/// at least two runs, where the first starts at the first sample and the
/// last ends at the last sample, those two are taken out of the list and
/// returned as the seam pair `(last, first)`.
pub fn group_sweep_runs(valid: &Vec<bool>, closed: bool) -> (r: SweepRuns)
    ensures
        r is Whole <==> closed && all_valid(valid@),
        r matches SweepRuns::Runs { runs, seam } ==> exists|full: Seq<(usize, usize)>|
            #[trigger] lists_maximal_runs(valid@, full) && if closed && full.len() >= 2 && full[0].0
                == 0 && full[full.len() - 1].1 == valid@.len() - 1 {
                seam == Some((full[full.len() - 1], full[0])) && runs@ == full.subrange(
                    1,
                    full.len() - 1,
                )
            } else {
                seam is None && runs@ == full
            },
{
    if closed {
        let mut all = true;
        let mut k: usize = 0;
        while k < valid.len()
            invariant
                k <= valid@.len(),
                all == forall|j: int| 0 <= j < k ==> #[trigger] valid@[j],
            decreases valid@.len() - k,
        {
            if !valid[k] {
                all = false;
            }
            k += 1;
        }
        if all {
            return SweepRuns::Whole;
        }
    }
    let full = maximal_runs(valid);
    let ghost whole = full@;
    if closed && full.len() >= 2 && full[0].0 == 0 && full[full.len() - 1].1 == valid.len() - 1 {
        let last = full[full.len() - 1];
        let first = full[0];
        let mut middle: Vec<(usize, usize)> = Vec::new();
        let end = full.len() - 1;
        let mut j: usize = 1;
        while j < end
            invariant
                end == full@.len() - 1,
                1 <= j <= end,
                full@ == whole,
                middle@ == whole.subrange(1, j as int),
            decreases full@.len() - j,
        {
            middle.push(full[j]);
            proof {
                assert(middle@ =~= whole.subrange(1, j + 1));
            }
            j += 1;
        }
        proof {
            assert(lists_maximal_runs(valid@, whole));
        }
        SweepRuns::Runs { runs: middle, seam: Some((last, first)) }
    } else {
        proof {
            assert(lists_maximal_runs(valid@, whole));
        }
        SweepRuns::Runs { runs: full, seam: None }
    }
}

} // verus!
