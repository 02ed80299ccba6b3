//! Maximal runs of marked positions: how a line falls into tokens.

use vstd::prelude::*;

verus! {

/// A run of positions, from `start` up to and without `end`.
pub struct Run {
    pub start: int,
    pub end: int,
}

/// The maximal runs of positions that a mask marks, from left to right.
pub open spec fn runs(mask: Seq<bool>) -> Seq<Run>
    decreases mask.len(),
{
    if mask.len() == 0 {
        Seq::empty()
    } else {
        let before = runs(mask.drop_last());
        let n = mask.len() as int;
        if !mask.last() {
            before
        } else if before.len() > 0 && before.last().end == n - 1 {
            before.drop_last().push(Run { start: before.last().start, end: n })
        } else {
            before.push(Run { start: n - 1, end: n })
        }
    }
}

/// A run moved to the right.
pub open spec fn shift(r: Run, by: int) -> Run {
    Run { start: r.start + by, end: r.end + by }
}

/// Runs moved to the right.
pub open spec fn shift_all(rs: Seq<Run>, by: int) -> Seq<Run> {
    rs.map_values(|r: Run| shift(r, by))
}

/// Each run lies within the mask, is not empty, is marked throughout and is bounded by
/// positions that are not marked; and the runs are in order.
pub proof fn lemma_runs(mask: Seq<bool>)
    ensures
        forall|k: int|
            0 <= k < runs(mask).len() ==> {
                let r = #[trigger] runs(mask)[k];
                &&& 0 <= r.start < r.end <= mask.len()
                &&& forall|i: int| r.start <= i < r.end ==> #[trigger] mask[i]
                &&& r.start > 0 ==> !mask[r.start - 1]
                &&& r.end < mask.len() ==> !mask[r.end]
            },
        forall|j: int, k: int|
            0 <= j < k < runs(mask).len() ==> (#[trigger] runs(mask)[j]).end < (
            #[trigger] runs(mask)[k]).start,
        mask.len() > 0 && mask.last() ==> runs(mask).len() > 0 && runs(mask).last().end
            == mask.len(),
        mask.len() > 0 && !mask.last() && runs(mask).len() > 0 ==> runs(mask).last().end
            < mask.len(),
    decreases mask.len(),
{
    if mask.len() > 0 {
        let shorter = mask.drop_last();
        let before = runs(shorter);
        let after = runs(mask);
        lemma_runs(shorter);
        assert forall|k: int| 0 <= k < after.len() implies {
            let r = #[trigger] after[k];
            &&& 0 <= r.start < r.end <= mask.len()
            &&& forall|i: int| r.start <= i < r.end ==> #[trigger] mask[i]
            &&& r.start > 0 ==> !mask[r.start - 1]
            &&& r.end < mask.len() ==> !mask[r.end]
        } by {
            let r = after[k];
            if k < before.len() {
                let b = before[k];
                assert(b.start < b.end <= shorter.len());
                assert(b.start > 0 ==> !shorter[b.start - 1]);
                assert(b.end < shorter.len() ==> !shorter[b.end]);
                assert forall|i: int| r.start <= i < r.end implies #[trigger] mask[i] by {
                    if i < b.end {
                        assert(shorter[i]);
                    }
                }
                assert(r.start > 0 ==> !mask[r.start - 1]);
                if b.end == shorter.len() && !(k == before.len() - 1) {
                    assert(before[k].end < before[before.len() - 1].start);
                }
            } else {
                assert(r.start == mask.len() - 1);
                if r.start > 0 {
                    assert(shorter.last() == mask[r.start - 1]);
                }
            }
        }
        assert forall|j: int, k: int| 0 <= j < k < after.len() implies (#[trigger] after[j]).end < (
        #[trigger] after[k]).start by {
            assert(after[j] == before[j]);
            if k < before.len() {
                assert(before[j].end < before[k].start);
            } else {
                assert(before[j].end <= shorter.len());
                if before[j].end == shorter.len() {
                    assert(j == before.len() - 1) by {
                        if j < before.len() - 1 {
                            assert(before[j].end < before[before.len() - 1].start);
                        }
                    }
                }
            }
        }
    }
}

/// A mask that marks nothing has no runs.
pub proof fn lemma_runs_none(mask: Seq<bool>)
    requires
        forall|i: int| 0 <= i < mask.len() ==> !#[trigger] mask[i],
    ensures
        runs(mask) == Seq::<Run>::empty(),
    decreases mask.len(),
{
    if mask.len() > 0 {
        lemma_runs_none(mask.drop_last());
    }
}

/// A mask that is marked throughout has one run.
pub proof fn lemma_runs_full(mask: Seq<bool>)
    requires
        mask.len() > 0,
        forall|i: int| 0 <= i < mask.len() ==> #[trigger] mask[i],
    ensures
        runs(mask) == seq![Run { start: 0, end: mask.len() as int }],
    decreases mask.len(),
{
    if mask.len() == 1 {
        reveal_with_fuel(runs, 2);
        assert(runs(mask) =~= seq![Run { start: 0, end: 1 }]);
    } else {
        assert forall|i: int| 0 <= i < mask.len() - 1 implies #[trigger] mask.drop_last()[i] by {
            assert(mask[i]);
        }
        lemma_runs_full(mask.drop_last());
        assert(mask[mask.len() - 1]);
        assert(runs(mask) =~= seq![Run { start: 0, end: mask.len() as int }]);
    }
}

/// Where no run goes across, the runs of two masks side by side are those of the one and
/// then those of the other.
pub proof fn lemma_runs_concat(a: Seq<bool>, b: Seq<bool>)
    requires
        a.len() == 0 || b.len() == 0 || !a.last() || !b[0],
    ensures
        runs(a + b) == runs(a) + shift_all(runs(b), a.len() as int),
    decreases b.len(),
{
    if b.len() == 0 {
        assert(a + b =~= a);
        assert(runs(a) + shift_all(runs(b), a.len() as int) =~= runs(a));
    } else {
        let c = b.drop_last();
        assert((a + b).drop_last() =~= a + c);
        lemma_runs_concat(a, c);
        lemma_runs(a);
        lemma_runs(c);
        let n = a.len() as int;
        let left = runs(a);
        let whole = runs(a + c);
        assert(whole == left + shift_all(runs(c), n));
        if b.last() {
            if runs(c).len() > 0 {
                assert(whole.last() == shift(runs(c).last(), n));
                assert(runs(a + b) =~= left + shift_all(runs(b), n));
            } else {
                assert(whole =~= left);
                if left.len() > 0 {
                    assert(left.last().end <= n);
                    if left.last().end == n + b.len() - 1 {
                        assert(b.len() == 1);
                        assert(a.len() > 0);
                        assert(!a.last());
                        assert(false);
                    }
                }
                assert(runs(a + b) =~= left + shift_all(runs(b), n));
            }
        } else {
            assert(runs(a + b) =~= left + shift_all(runs(b), n));
        }
    }
}

/// The runs that pairs of positions stand for.
pub open spec fn run_pairs(v: Seq<(usize, usize)>) -> Seq<Run> {
    v.map_values(|p: (usize, usize)| Run { start: p.0 as int, end: p.1 as int })
}

/// Finds the maximal runs of positions that a mask marks.
pub fn find_runs(mask: &[bool]) -> (r: Vec<(usize, usize)>)
    ensures
        run_pairs(r@) == runs(mask@),
{
    let mut r: Vec<(usize, usize)> = Vec::new();
    let mut open: Option<usize> = None;
    let mut i: usize = 0;
    assert(run_pairs(r@) =~= runs(mask@.take(0)));
    while i < mask.len()
        invariant
            i <= mask.len(),
            match open {
                Some(start) => runs(mask@.take(i as int)) == run_pairs(r@).push(
                    Run { start: start as int, end: i as int },
                ),
                None => runs(mask@.take(i as int)) == run_pairs(r@) && (i > 0 ==> !mask[i - 1]),
            },
        decreases mask.len() - i,
    {
        proof {
            assert(mask@.take(i + 1).drop_last() =~= mask@.take(i as int));
            lemma_runs(mask@.take(i as int));
        }
        let ghost before = run_pairs(r@);
        if mask[i] {
            if open.is_none() {
                open = Some(i);
            }
        } else {
            if let Some(start) = open {
                r.push((start, i));
                assert(run_pairs(r@) =~= before.push(Run { start: start as int, end: i as int }));
            }
            open = None;
        }
        i = i + 1;
        proof {
            if let Some(start) = open {
                assert(runs(mask@.take(i as int)) =~= before.push(
                    Run { start: start as int, end: i as int },
                ));
            }
        }
    }
    assert(mask@.take(i as int) =~= mask@);
    let ghost before = run_pairs(r@);
    if let Some(start) = open {
        r.push((start, i));
        assert(run_pairs(r@) =~= before.push(Run { start: start as int, end: i as int }));
    }
    r
}

} // verus!
