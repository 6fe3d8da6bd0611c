//! Sequences of closed integer ranges, as the range tree reports them.
//!
//! A pair `(lo, hi)` stands for the values `lo` to `hi`, both included.

use vstd::prelude::*;

verus! {

/// Some range of `ranges` holds `v`.
pub open spec fn covers(ranges: Seq<(int, int)>, v: int) -> bool {
    exists|i: int| 0 <= i < ranges.len() && (#[trigger] ranges[i]).0 <= v <= ranges[i].1
}

/// The ranges are not empty, lie within `lo` to `hi`, ascend, and no two of
/// them overlap or touch.
pub open spec fn spaced(ranges: Seq<(int, int)>, lo: int, hi: int) -> bool {
    &&& forall|i: int|
        0 <= i < ranges.len() ==> lo <= (#[trigger] ranges[i]).0 <= ranges[i].1 <= hi
    &&& forall|i: int, j: int|
        0 <= i < j < ranges.len() ==> (#[trigger] ranges[i]).1 + 1 < (#[trigger] ranges[j]).0
}

/// The ranges between those of `ranges`, within `lo` to `hi`: what lies
/// before the first, between each two neighbors, and behind the last.
pub open spec fn gaps(ranges: Seq<(int, int)>, lo: int, hi: int) -> Seq<(int, int)> {
    if ranges.len() == 0 {
        seq![(lo, hi)]
    } else {
        let head = if ranges[0].0 != lo {
            seq![(lo, ranges[0].0 - 1)]
        } else {
            Seq::<(int, int)>::empty()
        };
        let middle = Seq::new(
            (ranges.len() - 1) as nat,
            |i: int| (ranges[i].1 + 1, ranges[i + 1].0 - 1),
        );
        let tail = if ranges[ranges.len() - 1].1 != hi {
            seq![(ranges[ranges.len() - 1].1 + 1, hi)]
        } else {
            Seq::<(int, int)>::empty()
        };
        head + middle + tail
    }
}

/// The `k`-th of spaced ranges starts at least `2 * k` above the lower bound.
pub proof fn lemma_spaced_start(ranges: Seq<(int, int)>, lo: int, hi: int, k: int)
    requires
        spaced(ranges, lo, hi),
        0 <= k < ranges.len(),
    ensures
        ranges[k].0 >= lo + 2 * k,
    decreases k,
{
    if k > 0 {
        lemma_spaced_start(ranges, lo, hi, k - 1);
        assert(ranges[k - 1].1 + 1 < ranges[k].0);
    }
}

/// Spaced ranges are no more than half the values of their bounds, rounded
/// up.
pub proof fn lemma_spaced_len(ranges: Seq<(int, int)>, lo: int, hi: int)
    requires
        spaced(ranges, lo, hi),
        lo <= hi,
    ensures
        ranges.len() <= (hi - lo) / 2 + 1,
{
    if ranges.len() > 0 {
        lemma_spaced_start(ranges, lo, hi, ranges.len() - 1);
    }
}

/// What is left of spaced ranges without the first of them.
proof fn lemma_spaced_tail(ranges: Seq<(int, int)>, lo: int, hi: int)
    requires
        spaced(ranges, lo, hi),
        ranges.len() > 0,
    ensures
        spaced(ranges.drop_first(), lo, hi),
        forall|x: int|
            covers(ranges.drop_first(), x) <==> covers(ranges, x) && x > ranges[0].1,
{
    let rest = ranges.drop_first();
    assert forall|i: int| 0 <= i < rest.len() implies lo <= (#[trigger] rest[i]).0 <= rest[i].1
        <= hi by {
        assert(rest[i] == ranges[i + 1]);
    }
    assert forall|i: int, j: int| 0 <= i < j < rest.len() implies (#[trigger] rest[i]).1 + 1 < (
    #[trigger] rest[j]).0 by {
        assert(rest[i] == ranges[i + 1]);
        assert(rest[j] == ranges[j + 1]);
    }
    assert forall|x: int| covers(rest, x) <==> covers(ranges, x) && x > ranges[0].1 by {
        if covers(rest, x) {
            let i = choose|i: int| 0 <= i < rest.len() && (#[trigger] rest[i]).0 <= x <= rest[i].1;
            assert(rest[i] == ranges[i + 1]);
            assert(ranges[0].1 + 1 < ranges[i + 1].0);
        }
        if covers(ranges, x) && x > ranges[0].1 {
            let i = choose|i: int|
                0 <= i < ranges.len() && (#[trigger] ranges[i]).0 <= x <= ranges[i].1;
            assert(i > 0);
            assert(rest[i - 1] == ranges[i]);
        }
    }
}

/// The first of spaced ranges starts at the least value that the ranges
/// hold, and ends before the first value above it that they do not hold.
proof fn lemma_spaced_head(a: Seq<(int, int)>, b: Seq<(int, int)>, lo: int, hi: int)
    requires
        spaced(a, lo, hi),
        spaced(b, lo, hi),
        forall|x: int| covers(a, x) <==> covers(b, x),
        a.len() > 0,
    ensures
        b.len() > 0,
        a[0].0 <= b[0].0,
        a[0].1 <= b[0].1,
{
    assert(covers(a, a[0].0));
    assert(covers(b, a[0].0));
    let j = choose|j: int| 0 <= j < b.len() && (#[trigger] b[j]).0 <= a[0].0 <= b[j].1;
    assert(covers(b, b[0].0));
    assert(covers(a, b[0].0));
    let i = choose|i: int| 0 <= i < a.len() && (#[trigger] a[i]).0 <= b[0].0 <= a[i].1;
    if i > 0 {
        assert(a[0].1 + 1 < a[i].0);
    }
    if j > 0 {
        assert(b[0].1 + 1 < b[j].0);
    }
    assert(a[0].0 <= b[0].0);
    if a[0].1 > b[0].1 {
        // the value behind the first range of `b` is held by `a`, so by `b`
        let x = b[0].1 + 1;
        assert(b[0].0 <= a[0].0);
        assert(a[0].0 <= x <= a[0].1);
        assert(covers(a, x));
        assert(covers(b, x));
        let k = choose|k: int| 0 <= k < b.len() && (#[trigger] b[k]).0 <= x <= b[k].1;
        if k > 0 {
            assert(b[0].1 + 1 < b[k].0);
        }
    }
}

/// Spaced ranges are determined by the values that they hold.
pub proof fn lemma_spaced_unique(a: Seq<(int, int)>, b: Seq<(int, int)>, lo: int, hi: int)
    requires
        spaced(a, lo, hi),
        spaced(b, lo, hi),
        forall|x: int| covers(a, x) <==> covers(b, x),
    ensures
        a == b,
    decreases a.len(),
{
    if a.len() == 0 {
        if b.len() > 0 {
            assert(covers(b, b[0].0));
            assert(covers(a, b[0].0));
        }
        assert(a =~= b);
    } else {
        lemma_spaced_head(a, b, lo, hi);
        lemma_spaced_head(b, a, lo, hi);
        lemma_spaced_tail(a, lo, hi);
        lemma_spaced_tail(b, lo, hi);
        assert(a[0] == b[0]);
        assert forall|x: int| covers(a.drop_first(), x) <==> covers(b.drop_first(), x) by {
            assert(covers(a.drop_first(), x) <==> covers(a, x) && x > a[0].1);
            assert(covers(b.drop_first(), x) <==> covers(b, x) && x > b[0].1);
        }
        lemma_spaced_unique(a.drop_first(), b.drop_first(), lo, hi);
        assert(a =~= seq![a[0]] + a.drop_first());
        assert(b =~= seq![b[0]] + b.drop_first());
    }
}

/// A value that is taken and released at once leaves the ranges as they
/// were.
pub proof fn lemma_take_release(
    before: Seq<(int, int)>,
    taken: Seq<(int, int)>,
    released: Seq<(int, int)>,
    lo: int,
    hi: int,
    v: int,
)
    requires
        spaced(before, lo, hi),
        spaced(released, lo, hi),
        covers(before, v),
        forall|x: int| covers(taken, x) <==> covers(before, x) && x != v,
        forall|x: int| covers(released, x) <==> covers(taken, x) || x == v,
    ensures
        released == before,
{
    lemma_spaced_unique(released, before, lo, hi);
}

/// One range gives way to another that fits between its neighbors.
pub proof fn lemma_range_changed(
    ranges: Seq<(int, int)>,
    lo: int,
    hi: int,
    i: int,
    range: (int, int),
)
    requires
        spaced(ranges, lo, hi),
        0 <= i < ranges.len(),
        lo <= range.0 <= range.1 <= hi,
        i > 0 ==> ranges[i - 1].1 + 1 < range.0,
        i + 1 < ranges.len() ==> range.1 + 1 < ranges[i + 1].0,
    ensures
        spaced(ranges.update(i, range), lo, hi),
        forall|x: int|
            #![trigger covers(ranges.update(i, range), x)]
            #![trigger covers(ranges, x)]
            covers(ranges.update(i, range), x) <==> (covers(ranges, x) && !(ranges[i].0 <= x
                <= ranges[i].1)) || range.0 <= x <= range.1,
{
    let after = ranges.update(i, range);
    assert forall|j: int, k: int| 0 <= j < k < after.len() implies (#[trigger] after[j]).1 + 1 < (
    #[trigger] after[k]).0 by {
        if k == i {
            if j < i - 1 {
                assert(ranges[j].1 + 1 < ranges[i - 1].0);
            }
        } else if j == i {
            if k > i + 1 {
                assert(ranges[i + 1].1 + 1 < ranges[k].0);
            }
        } else {
            assert(ranges[j].1 + 1 < ranges[k].0);
        }
    }
    assert forall|x: int|
        #![trigger covers(after, x)]
        #![trigger covers(ranges, x)]
        covers(after, x) <==> (covers(ranges, x) && !(ranges[i].0 <= x <= ranges[i].1))
            || range.0 <= x <= range.1 by {
        if covers(after, x) {
            let j = choose|j: int|
                0 <= j < after.len() && (#[trigger] after[j]).0 <= x <= after[j].1;
            if j != i {
                assert(ranges[j].0 <= x <= ranges[j].1);
                if j < i {
                    assert(ranges[j].1 + 1 < ranges[i].0);
                } else {
                    assert(ranges[i].1 + 1 < ranges[j].0);
                }
            }
        }
        if covers(ranges, x) && !(ranges[i].0 <= x <= ranges[i].1) {
            let j = choose|j: int|
                0 <= j < ranges.len() && (#[trigger] ranges[j]).0 <= x <= ranges[j].1;
            assert(after[j].0 <= x <= after[j].1);
        }
        if range.0 <= x <= range.1 {
            assert(after[i].0 <= x <= after[i].1);
        }
    }
}

/// One range leaves.
pub proof fn lemma_range_removed(ranges: Seq<(int, int)>, lo: int, hi: int, i: int)
    requires
        spaced(ranges, lo, hi),
        0 <= i < ranges.len(),
    ensures
        spaced(ranges.remove(i), lo, hi),
        forall|x: int|
            #![trigger covers(ranges.remove(i), x)]
            #![trigger covers(ranges, x)]
            covers(ranges.remove(i), x) <==> covers(ranges, x) && !(ranges[i].0 <= x
                <= ranges[i].1),
{
    let after = ranges.remove(i);
    assert forall|j: int| 0 <= j < after.len() implies lo <= (#[trigger] after[j]).0 <= after[j].1
        <= hi by {
        let jj = if j < i {
            j
        } else {
            j + 1
        };
        assert(after[j] == ranges[jj]);
    }
    assert forall|j: int, k: int| 0 <= j < k < after.len() implies (#[trigger] after[j]).1 + 1 < (
    #[trigger] after[k]).0 by {
        let jj = if j < i {
            j
        } else {
            j + 1
        };
        let kk = if k < i {
            k
        } else {
            k + 1
        };
        assert(after[j] == ranges[jj]);
        assert(after[k] == ranges[kk]);
    }
    assert forall|x: int|
        #![trigger covers(after, x)]
        #![trigger covers(ranges, x)]
        covers(after, x) <==> covers(ranges, x) && !(ranges[i].0 <= x <= ranges[i].1) by {
        if covers(after, x) {
            let j = choose|j: int|
                0 <= j < after.len() && (#[trigger] after[j]).0 <= x <= after[j].1;
            let jj = if j < i {
                j
            } else {
                j + 1
            };
            assert(after[j] == ranges[jj]);
            if jj < i {
                assert(ranges[jj].1 + 1 < ranges[i].0);
            } else {
                assert(ranges[i].1 + 1 < ranges[jj].0);
            }
        }
        if covers(ranges, x) && !(ranges[i].0 <= x <= ranges[i].1) {
            let j = choose|j: int|
                0 <= j < ranges.len() && (#[trigger] ranges[j]).0 <= x <= ranges[j].1;
            let jj = if j < i {
                j
            } else {
                j - 1
            };
            assert(after[jj] == ranges[j]);
        }
    }
}

/// One range comes in between two neighbors that it does not touch.
pub proof fn lemma_range_added(
    ranges: Seq<(int, int)>,
    lo: int,
    hi: int,
    i: int,
    range: (int, int),
)
    requires
        spaced(ranges, lo, hi),
        0 <= i <= ranges.len(),
        lo <= range.0 <= range.1 <= hi,
        i > 0 ==> ranges[i - 1].1 + 1 < range.0,
        i < ranges.len() ==> range.1 + 1 < ranges[i].0,
    ensures
        spaced(ranges.insert(i, range), lo, hi),
        forall|x: int|
            #![trigger covers(ranges.insert(i, range), x)]
            #![trigger covers(ranges, x)]
            covers(ranges.insert(i, range), x) <==> covers(ranges, x) || range.0 <= x <= range.1,
{
    let after = ranges.insert(i, range);
    assert forall|j: int| 0 <= j < after.len() implies lo <= (#[trigger] after[j]).0 <= after[j].1
        <= hi by {
        if j < i {
            assert(after[j] == ranges[j]);
        } else if j > i {
            assert(after[j] == ranges[j - 1]);
        }
    }
    assert forall|j: int, k: int| 0 <= j < k < after.len() implies (#[trigger] after[j]).1 + 1 < (
    #[trigger] after[k]).0 by {
        let jj = if j < i {
            j
        } else {
            j - 1
        };
        let kk = if k < i {
            k
        } else {
            k - 1
        };
        if j != i && k != i {
            assert(after[j] == ranges[jj]);
            assert(after[k] == ranges[kk]);
        } else if k == i {
            assert(after[j] == ranges[j]);
            if j < i - 1 {
                assert(ranges[j].1 + 1 < ranges[i - 1].0);
            }
        } else {
            assert(after[k] == ranges[k - 1]);
            if k - 1 > i {
                assert(ranges[i].1 + 1 < ranges[k - 1].0);
            }
        }
    }
    assert forall|x: int|
        #![trigger covers(after, x)]
        #![trigger covers(ranges, x)]
        covers(after, x) <==> covers(ranges, x) || range.0 <= x <= range.1 by {
        if covers(after, x) {
            let j = choose|j: int|
                0 <= j < after.len() && (#[trigger] after[j]).0 <= x <= after[j].1;
            if j < i {
                assert(after[j] == ranges[j]);
            } else if j > i {
                assert(after[j] == ranges[j - 1]);
            }
        }
        if covers(ranges, x) {
            let j = choose|j: int|
                0 <= j < ranges.len() && (#[trigger] ranges[j]).0 <= x <= ranges[j].1;
            if j < i {
                assert(after[j] == ranges[j]);
            } else {
                assert(after[j + 1] == ranges[j]);
            }
        }
        if range.0 <= x <= range.1 {
            assert(after[i] == range);
        }
    }
}

/// Where a value lies among spaced ranges: the one range that holds it.
pub proof fn lemma_covered_at(ranges: Seq<(int, int)>, lo: int, hi: int, i: int, x: int)
    requires
        spaced(ranges, lo, hi),
        0 <= i < ranges.len(),
        ranges[i].0 <= x <= ranges[i].1,
    ensures
        covers(ranges, x),
        lo <= x <= hi,
        forall|j: int| 0 <= j < i ==> (#[trigger] ranges[j]).1 + 1 < x,
        forall|j: int| i < j < ranges.len() ==> x + 1 < (#[trigger] ranges[j]).0,
{
    assert forall|j: int| 0 <= j < i implies (#[trigger] ranges[j]).1 + 1 < x by {
        assert(ranges[j].1 + 1 < ranges[i].0);
    }
    assert forall|j: int| i < j < ranges.len() implies x + 1 < (#[trigger] ranges[j]).0 by {
        assert(ranges[i].1 + 1 < ranges[j].0);
    }
}

/// Spaced ranges ascend.
pub proof fn lemma_spaced_ascend(ranges: Seq<(int, int)>, lo: int, hi: int, i: int, j: int)
    requires
        spaced(ranges, lo, hi),
        0 <= i <= j < ranges.len(),
    ensures
        ranges[i].0 <= ranges[j].0,
        ranges[i].1 <= ranges[j].1,
        ranges[i].0 <= ranges[i].1,
        ranges[j].0 <= ranges[j].1,
{
    if i < j {
        assert(ranges[i].1 + 1 < ranges[j].0);
    }
}

/// The number of ranges that lie below a value which the ranges do not hold.
proof fn lemma_ranges_below(ranges: Seq<(int, int)>, lo: int, hi: int, x: int, k: int) -> (j: int)
    requires
        spaced(ranges, lo, hi),
        !covers(ranges, x),
        0 <= k <= ranges.len(),
        forall|i: int| 0 <= i < k ==> (#[trigger] ranges[i]).1 < x,
    ensures
        k <= j <= ranges.len(),
        forall|i: int| 0 <= i < j ==> (#[trigger] ranges[i]).1 < x,
        j < ranges.len() ==> x < ranges[j].0,
    decreases ranges.len() - k,
{
    if k == ranges.len() {
        k
    } else if x < ranges[k].0 {
        k
    } else {
        assert(!(ranges[k].0 <= x <= ranges[k].1));
        lemma_ranges_below(ranges, lo, hi, x, k + 1)
    }
}

/// The `k`-th of the gaps between spaced ranges: where it starts and ends.
proof fn lemma_gap_at(ranges: Seq<(int, int)>, lo: int, hi: int, k: int)
    requires
        spaced(ranges, lo, hi),
        ranges.len() > 0,
        0 <= k < gaps(ranges, lo, hi).len(),
    ensures
        ({
            let n = ranges.len() as int;
            let head: int = if ranges[0].0 != lo {
                1
            } else {
                0
            };
            let g = gaps(ranges, lo, hi)[k];
            &&& gaps(ranges, lo, hi).len() == head + (n - 1) + (if ranges[n - 1].1 != hi {
                1int
            } else {
                0int
            })
            &&& k < head ==> g == (lo, ranges[0].0 - 1)
            &&& head <= k < head + n - 1 ==> g == (
                ranges[k - head].1 + 1,
                ranges[k - head + 1].0 - 1,
            )
            &&& head + n - 1 <= k ==> g == (ranges[n - 1].1 + 1, hi)
        }),
{
}

/// The gaps between spaced ranges are spaced, and hold the values of the
/// bounds that the ranges do not hold.
pub proof fn lemma_gaps(ranges: Seq<(int, int)>, lo: int, hi: int)
    requires
        spaced(ranges, lo, hi),
        lo <= hi,
    ensures
        spaced(gaps(ranges, lo, hi), lo, hi),
        forall|x: int|
            #![trigger covers(gaps(ranges, lo, hi), x)]
            #![trigger covers(ranges, x)]
            covers(gaps(ranges, lo, hi), x) <==> lo <= x <= hi && !covers(ranges, x),
{
    let g = gaps(ranges, lo, hi);
    let n = ranges.len() as int;
    if n == 0 {
        assert forall|x: int|
            #![trigger covers(g, x)]
            #![trigger covers(ranges, x)]
            covers(g, x) <==> lo <= x <= hi && !covers(ranges, x) by {
            if lo <= x <= hi {
                assert(g[0].0 <= x <= g[0].1);
            }
        }
    } else {
        let head: int = if ranges[0].0 != lo {
            1
        } else {
            0
        };
        assert forall|k: int| 0 <= k < g.len() implies lo <= (#[trigger] g[k]).0 <= g[k].1
            <= hi by {
            lemma_gap_at(ranges, lo, hi, k);
            if head <= k < head + n - 1 {
                lemma_spaced_ascend(ranges, lo, hi, k - head, k - head + 1);
                assert(ranges[k - head].1 + 1 < ranges[k - head + 1].0);
            }
        }
        assert forall|j: int, k: int| 0 <= j < k < g.len() implies (#[trigger] g[j]).1 + 1 < (
        #[trigger] g[k]).0 by {
            lemma_gap_at(ranges, lo, hi, j);
            lemma_gap_at(ranges, lo, hi, k);
            // the gap `j` ends below the range `a`, and the gap `k` starts
            // above the range `b`, which is not before `a`
            let a = if j < head {
                0
            } else {
                j - head + 1
            };
            let b = if k < head + n - 1 {
                k - head
            } else {
                n - 1
            };
            lemma_spaced_ascend(ranges, lo, hi, a, b);
        }
        assert forall|x: int|
            #![trigger covers(g, x)]
            #![trigger covers(ranges, x)]
            covers(g, x) <==> lo <= x <= hi && !covers(ranges, x) by {
            if covers(g, x) {
                let k = choose|k: int| 0 <= k < g.len() && (#[trigger] g[k]).0 <= x <= g[k].1;
                lemma_gap_at(ranges, lo, hi, k);
                assert(lo <= g[k].0 <= g[k].1 <= hi);
                if covers(ranges, x) {
                    let i = choose|i: int|
                        0 <= i < n && (#[trigger] ranges[i]).0 <= x <= ranges[i].1;
                    if k < head {
                        lemma_spaced_ascend(ranges, lo, hi, 0, i);
                    } else if k < head + n - 1 {
                        if i <= k - head {
                            lemma_spaced_ascend(ranges, lo, hi, i, k - head);
                        } else {
                            lemma_spaced_ascend(ranges, lo, hi, k - head + 1, i);
                        }
                    } else {
                        lemma_spaced_ascend(ranges, lo, hi, i, n - 1);
                    }
                }
            }
            if lo <= x <= hi && !covers(ranges, x) {
                let j = lemma_ranges_below(ranges, lo, hi, x, 0);
                if j == 0 {
                    lemma_gap_at(ranges, lo, hi, 0);
                    assert(g[0].0 <= x <= g[0].1);
                } else if j < n {
                    lemma_gap_at(ranges, lo, hi, head + j - 1);
                    assert(ranges[j - 1].1 < x);
                    assert(g[head + j - 1].0 <= x <= g[head + j - 1].1);
                } else {
                    assert(ranges[n - 1].1 < x);
                    lemma_gap_at(ranges, lo, hi, head + n - 1);
                    assert(g[head + n - 1].0 <= x <= g[head + n - 1].1);
                }
            }
        }
    }
}

/// There is no gap exactly where one range spans the bounds.
pub proof fn lemma_no_gap(ranges: Seq<(int, int)>, lo: int, hi: int)
    requires
        spaced(ranges, lo, hi),
    ensures
        gaps(ranges, lo, hi).len() == 0 <==> ranges == seq![(lo, hi)],
{
    if ranges.len() > 0 {
        if gaps(ranges, lo, hi).len() == 0 {
            assert(ranges.len() == 1);
            assert(ranges =~= seq![(lo, hi)]);
        }
        if ranges == seq![(lo, hi)] {
            assert(ranges[0] == (lo, hi));
        }
    } else {
        assert(seq![(lo, hi)].len() == 1);
    }
}

} // verus!
