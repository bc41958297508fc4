//! Cutting the batches of a source into smaller ones.
//!
//! The database scans a source in parallel batch by batch, so a source in one large batch would be
//! scanned by one thread.
use vstd::prelude::*;

verus! {

/// The most rows of a batch that is registered: the number that the database scans at a time.
pub const TARGET_ROWS_PER_BATCH: usize = 122_880;

/// A range of the rows of a batch.
#[derive(Debug, Clone, Copy, PartialEq, Eq, Structural)]
pub struct RowRange {
    /// The position of the batch.
    pub batch: usize,
    /// The first row.
    pub start: usize,
    /// The number of rows.
    pub rows: usize,
}

/// The number of ranges that so many rows are cut into.
pub open spec fn range_count(rows: nat, target: nat) -> nat {
    if target == 0 || rows <= target {
        1
    } else {
        ((rows + target - 1) / target as int) as nat
    }
}

/// The range at position `k` of a batch: each holds `target` rows, but for the last, which holds the
/// rest. A batch of no more rows than that is one range, and so is any batch where the target is zero.
pub open spec fn range_at(batch: int, rows: nat, target: nat, k: int) -> RowRange {
    let start = k * target;
    RowRange {
        batch: batch as usize,
        start: start as usize,
        rows: if target == 0 || rows - start <= target {
            (rows - start) as usize
        } else {
            target as usize
        },
    }
}

/// The ranges that a batch is cut into, in order.
pub open spec fn batch_ranges(batch: int, rows: nat, target: nat) -> Seq<RowRange> {
    Seq::new(range_count(rows, target), |k: int| range_at(batch, rows, target, k))
}

/// The ranges that the batches are cut into, in order.
pub open spec fn all_ranges(rows: Seq<usize>, target: nat) -> Seq<RowRange>
    decreases rows.len(),
{
    if rows.len() == 0 {
        Seq::empty()
    } else {
        all_ranges(rows.drop_last(), target) + batch_ranges(
            rows.len() - 1,
            rows.last() as nat,
            target,
        )
    }
}

/// The count of ranges is reached exactly where the rows end.
proof fn count_is_reached(rows: nat, target: nat, k: nat)
    requires
        0 < target < rows,
    ensures
        k * target < rows <==> k < range_count(rows, target),
        range_count(rows, target) <= rows,
        k < range_count(rows, target) ==> (k + 1) * target <= rows + target - 1,
{
    let c = range_count(rows, target);
    let t = target as int;
    let n = rows as int;
    vstd::arithmetic::div_mod::lemma_fundamental_div_mod(n + t - 1, t);
    vstd::arithmetic::div_mod::lemma_mod_bound(n + t - 1, t);
    assert(t * c <= n + t - 1 < t * c + t);
    if k < c {
        assert((k + 1) * t <= c * t) by (nonlinear_arith)
            requires
                k < c,
                t > 0,
        ;
        assert(k * t + t == (k + 1) * t) by (nonlinear_arith);
        assert(c * t == t * c) by (nonlinear_arith);
    } else {
        assert(k * t >= c * t) by (nonlinear_arith)
            requires
                k >= c,
                t > 0,
        ;
        assert(c * t == t * c) by (nonlinear_arith);
    }
    assert(c <= n) by (nonlinear_arith)
        requires
            t * c <= n + t - 1,
            t >= 1,
            n > t,
            c >= 0,
    ;
}

/// Appends the ranges of one batch.
fn cut_batch(out: &mut Vec<RowRange>, batch: usize, rows: usize, target_rows: usize)
    ensures
        final(out)@ == old(out)@ + batch_ranges(batch as int, rows as nat, target_rows as nat),
{
    let ghost all = batch_ranges(batch as int, rows as nat, target_rows as nat);
    let ghost before = out@;
    if target_rows == 0 || rows <= target_rows {
        out.push(RowRange { batch, start: 0, rows });
        assert(all =~= seq![RowRange { batch, start: 0, rows }]);
        assert(out@ =~= before + all);
        return;
    }
    let mut offset: usize = 0;
    let ghost mut k: nat = 0;
    assert(out@ =~= before + all.take(0));
    proof {
        count_is_reached(rows as nat, target_rows as nat, 0);
    }
    while offset < rows
        invariant
            0 < target_rows < rows,
            all == batch_ranges(batch as int, rows as nat, target_rows as nat),
            k <= all.len(),
            offset < rows ==> offset == k * target_rows && k < all.len(),
            offset >= rows ==> k == all.len(),
            out@ == before + all.take(k as int),
        decreases rows - offset,
    {
        let len: usize = if rows - offset <= target_rows {
            rows - offset
        } else {
            target_rows
        };
        proof {
            count_is_reached(rows as nat, target_rows as nat, k);
            count_is_reached(rows as nat, target_rows as nat, k + 1);
            assert((k + 1) * target_rows == k * target_rows + target_rows) by (nonlinear_arith);
        }
        out.push(RowRange { batch, start: offset, rows: len });
        offset = offset + len;
        proof {
            assert(all[k as int] == out@.last());
            k = k + 1;
            assert(out@ =~= before + all.take(k as int));
        }
    }
    assert(all.take(k as int) =~= all);
}

/// Cuts every batch with more than `target_rows` rows into ranges of that many rows, the last of which
/// takes the rest. A smaller batch stays as it is, and where `target_rows` is zero every batch does.
pub fn rebatch(rows: &Vec<usize>, target_rows: usize) -> (r: Vec<RowRange>)
    ensures
        r@ == all_ranges(rows@, target_rows as nat),
{
    let mut out: Vec<RowRange> = Vec::new();
    let mut i: usize = 0;
    assert(rows@.take(0) =~= Seq::empty());
    while i < rows.len()
        invariant
            i <= rows.len(),
            out@ == all_ranges(rows@.take(i as int), target_rows as nat),
        decreases rows.len() - i,
    {
        proof {
            assert(rows@.take(i + 1).drop_last() =~= rows@.take(i as int));
        }
        cut_batch(&mut out, i, rows[i], target_rows);
        i = i + 1;
    }
    assert(rows@.take(i as int) =~= rows@);
    out
}

/// The rows of the ranges, one range after the other.
pub open spec fn cut_rows<T>(batches: Seq<Seq<T>>, ranges: Seq<RowRange>) -> Seq<T>
    decreases ranges.len(),
{
    if ranges.len() == 0 {
        Seq::empty()
    } else {
        let last = ranges.last();
        cut_rows(batches, ranges.drop_last()) + batches[last.batch as int].subrange(
            last.start as int,
            last.start + last.rows,
        )
    }
}

/// The rows of the batches, one batch after the other.
pub open spec fn batch_rows<T>(batches: Seq<Seq<T>>) -> Seq<T>
    decreases batches.len(),
{
    if batches.len() == 0 {
        Seq::empty()
    } else {
        batch_rows(batches.drop_last()) + batches.last()
    }
}

proof fn cut_rows_of_sum<T>(batches: Seq<Seq<T>>, a: Seq<RowRange>, b: Seq<RowRange>)
    ensures
        cut_rows(batches, a + b) == cut_rows(batches, a) + cut_rows(batches, b),
    decreases b.len(),
{
    if b.len() == 0 {
        assert(a + b =~= a);
        assert(cut_rows(batches, a) + cut_rows(batches, b) =~= cut_rows(batches, a));
    } else {
        assert((a + b).drop_last() =~= a + b.drop_last());
        cut_rows_of_sum(batches, a, b.drop_last());
        assert(cut_rows(batches, a + b) =~= cut_rows(batches, a) + cut_rows(batches, b));
    }
}

/// The first ranges of a batch hold its first rows.
proof fn first_ranges_hold_first_rows<T>(batches: Seq<Seq<T>>, batch: int, target: nat, k: nat)
    requires
        0 <= batch < batches.len(),
        batches.len() <= usize::MAX,
        batches[batch].len() <= usize::MAX,
        k <= range_count(batches[batch].len(), target),
    ensures
        ({
            let rows = batches[batch];
            cut_rows(batches, batch_ranges(batch, rows.len(), target).take(k as int))
                == if k == range_count(rows.len(), target) {
                rows
            } else {
                rows.take((k * target) as int)
            }
        }),
    decreases k,
{
    let rows = batches[batch];
    let n = rows.len();
    let all = batch_ranges(batch, n, target);
    let c = range_count(n, target);
    if k == 0 {
        assert(k * target == 0) by (nonlinear_arith)
            requires
                k == 0,
        ;
        assert(all.take(0) =~= Seq::empty());
        assert(rows.take(0) =~= Seq::empty());
        if 0 < target < n {
            count_is_reached(n, target, 0);
        }
    } else {
        let j = (k - 1) as nat;
        first_ranges_hold_first_rows(batches, batch, target, j);
        assert(all.take(k as int).drop_last() =~= all.take(j as int));
        assert(all.take(k as int).last() == range_at(batch, n, target, j as int));
        if target == 0 || n <= target {
            assert(j * target == 0) by (nonlinear_arith)
                requires
                    j == 0,
            ;
            assert(rows.take(0) + rows.subrange(0, n as int) =~= rows);
        } else {
            count_is_reached(n, target, j);
            count_is_reached(n, target, k);
            assert(k * target == j * target + target) by (nonlinear_arith)
                requires
                    k == j + 1,
            ;
            if k == c {
                let from = (j * target) as int;
                assert(rows.take(from) + rows.subrange(from, n as int) =~= rows);
            } else {
                let from = (j * target) as int;
                let to = (k * target) as int;
                assert(rows.take(from) + rows.subrange(from, to) =~= rows.take(to));
            }
        }
    }
}

/// Cutting batches loses nothing: the ranges, one after the other, hold the rows of the batches in order.
pub proof fn cutting_keeps_every_row<T>(batches: Seq<Seq<T>>, rows: Seq<usize>, target: nat)
    requires
        rows.len() <= usize::MAX,
        rows.len() <= batches.len(),
        batches.len() <= usize::MAX,
        forall|i: int| 0 <= i < rows.len() ==> (#[trigger] rows[i]) == batches[i].len(),
    ensures
        cut_rows(batches, all_ranges(rows, target)) == batch_rows(batches.take(rows.len() as int)),
    decreases rows.len(),
{
    if rows.len() == 0 {
        assert(batches.take(0) =~= Seq::empty());
    } else {
        let last = rows.len() - 1;
        let init = rows.drop_last();
        assert forall|i: int| 0 <= i < init.len() implies (#[trigger] init[i]) == batches[i].len() by {
            assert(init[i] == rows[i]);
        }
        cutting_keeps_every_row(batches, init, target);
        assert(rows[last] == rows.last());
        let n = batches[last].len();
        let ranges = batch_ranges(last, n, target);
        first_ranges_hold_first_rows(batches, last, target, range_count(n, target));
        assert(ranges.take(ranges.len() as int) =~= ranges);
        cut_rows_of_sum(batches, all_ranges(init, target), ranges);
        assert(batches.take(rows.len() as int).drop_last() =~= batches.take(init.len() as int));
        assert(batches.take(rows.len() as int).last() == batches[last]);
    }
}

/// No range has more rows than the target, and a batch gives as many ranges as its rows need.
pub proof fn ranges_are_small(batch: int, rows: nat, target: nat, k: int)
    requires
        target > 0,
        rows <= usize::MAX,
        0 <= k < batch_ranges(batch, rows, target).len(),
    ensures
        batch_ranges(batch, rows, target)[k].rows <= target,
        rows > target ==> batch_ranges(batch, rows, target).len() == (rows + target - 1)
            / target as int,
        rows <= target ==> batch_ranges(batch, rows, target).len() == 1,
{
    if rows > target {
        count_is_reached(rows, target, k as nat);
    } else {
        assert(k * target == 0) by (nonlinear_arith)
            requires
                k == 0,
        ;
    }
}

/// The range is one that the batches are cut into: a whole batch where it is small enough or nothing is
/// to be cut, else rows from a multiple of the target on, as many as the target where the batch has them
/// and the rest of the batch where it has not.
pub open spec fn is_cut(rows: Seq<usize>, target: nat, r: RowRange) -> bool {
    &&& r.batch < rows.len()
    &&& if target == 0 || rows[r.batch as int] <= target {
        r.start == 0 && r.rows == rows[r.batch as int]
    } else {
        &&& r.start < rows[r.batch as int]
        &&& r.start as int % target as int == 0
        &&& r.rows <= target
        &&& r.rows == target || r.start + r.rows == rows[r.batch as int]
        &&& r.start + r.rows <= rows[r.batch as int]
    }
}

/// The first range lies before the second.
pub open spec fn lies_before(a: RowRange, b: RowRange) -> bool {
    a.batch < b.batch || (a.batch == b.batch && a.start + a.rows <= b.start && a.start < b.start)
}

/// The ranges of one batch are cut from it, in order, and every range that is cut from it is there.
proof fn batch_is_cut(rows: Seq<usize>, target: nat, batch: int)
    requires
        0 <= batch < rows.len() <= usize::MAX,
    ensures
        ({
            let ranges = batch_ranges(batch, rows[batch] as nat, target);
            &&& forall|i: int|
                0 <= i < ranges.len() ==> is_cut(rows, target, #[trigger] ranges[i])
                    && ranges[i].batch == batch
            &&& forall|i: int, j: int|
                0 <= i < j < ranges.len() ==> lies_before(
                    #[trigger] ranges[i],
                    #[trigger] ranges[j],
                )
            &&& forall|r: RowRange|
                is_cut(rows, target, r) && r.batch == batch ==> #[trigger] ranges.contains(r)
        }),
{
    let n = rows[batch] as nat;
    let t = target as int;
    let ranges = batch_ranges(batch, n, target);
    if target == 0 || n <= target {
        assert(0 * target == 0) by (nonlinear_arith);
        assert(ranges.len() == 1);
        assert forall|r: RowRange| is_cut(rows, target, r) && r.batch == batch implies #[trigger]
            ranges.contains(r) by {
            assert(ranges[0] == r);
        }
    } else {
        assert forall|i: int| 0 <= i < ranges.len() implies is_cut(
            rows,
            target,
            #[trigger] ranges[i],
        ) && ranges[i].batch == batch by {
            count_is_reached(n, target, i as nat);
            assert(i * t >= 0) by (nonlinear_arith)
                requires
                    i >= 0,
                    t >= 0,
            ;
            assert(i * t + 0 == t * i) by (nonlinear_arith);
            vstd::arithmetic::div_mod::lemma_mod_multiples_basic(i, t);
        }
        assert forall|i: int, j: int| 0 <= i < j < ranges.len() implies lies_before(
            #[trigger] ranges[i],
            #[trigger] ranges[j],
        ) by {
            count_is_reached(n, target, i as nat);
            count_is_reached(n, target, j as nat);
            assert(i * t >= 0 && (i + 1) * t <= j * t && (i + 1) * t == i * t + t)
                by (nonlinear_arith)
                requires
                    0 <= i < j,
                    t > 0,
            ;
        }
        assert forall|r: RowRange| is_cut(rows, target, r) && r.batch == batch implies #[trigger]
            ranges.contains(r) by {
            let k = r.start as int / t;
            vstd::arithmetic::div_mod::lemma_fundamental_div_mod(r.start as int, t);
            assert(k >= 0 && k * t == t * k) by (nonlinear_arith)
                requires
                    k == r.start as int / t,
                    r.start >= 0,
                    t > 0,
            ;
            count_is_reached(n, target, k as nat);
            assert(ranges[k] == r);
        }
    }
}

/// The batches are cut into exactly the ranges that are to be cut from them, in order and none twice: a
/// range is listed where it is a whole batch that needs no cutting, or starts at a multiple of the target
/// and takes as many rows as the target where they are there. None is listed besides.
pub proof fn ranges_are_those_to_be_cut(rows: Seq<usize>, target: nat)
    requires
        rows.len() <= usize::MAX,
    ensures
        forall|r: RowRange| #[trigger]
            all_ranges(rows, target).contains(r) <==> is_cut(rows, target, r),
        forall|i: int, j: int|
            0 <= i < j < all_ranges(rows, target).len() ==> lies_before(
                #[trigger] all_ranges(rows, target)[i],
                #[trigger] all_ranges(rows, target)[j],
            ),
    decreases rows.len(),
{
    let all = all_ranges(rows, target);
    if rows.len() > 0 {
        let init = rows.drop_last();
        let last = rows.len() - 1;
        let before = all_ranges(init, target);
        let added = batch_ranges(last, rows[last] as nat, target);
        ranges_are_those_to_be_cut(init, target);
        batch_is_cut(rows, target, last);
        assert(all == before + added);
        assert forall|r: RowRange| r.batch < last implies (#[trigger] is_cut(rows, target, r)
            <==> is_cut(init, target, r)) by {
            assert(init[r.batch as int] == rows[r.batch as int]);
        }
        assert forall|i: int| 0 <= i < before.len() implies is_cut(
            init,
            target,
            #[trigger] before[i],
        ) by {
            assert(before.contains(before[i]));
        }
        assert forall|r: RowRange| #[trigger] all.contains(r) <==> is_cut(rows, target, r) by {
            if all.contains(r) {
                let i = choose|i: int| 0 <= i < all.len() && all[i] == r;
                if i < before.len() {
                    assert(is_cut(init, target, before[i]));
                } else {
                    assert(added[i - before.len()] == r);
                }
            }
            if is_cut(rows, target, r) {
                if r.batch < last {
                    assert(before.contains(r));
                    let i = choose|i: int| 0 <= i < before.len() && before[i] == r;
                    assert(all[i] == r);
                } else {
                    assert(added.contains(r));
                    let i = choose|i: int| 0 <= i < added.len() && added[i] == r;
                    assert(all[before.len() + i] == r);
                }
            }
        }
        assert forall|i: int, j: int| 0 <= i < j < all.len() implies lies_before(
            #[trigger] all[i],
            #[trigger] all[j],
        ) by {
            if j < before.len() {
                assert(lies_before(before[i], before[j]));
            } else if i >= before.len() {
                assert(lies_before(added[i - before.len()], added[j - before.len()]));
            } else {
                assert(is_cut(init, target, before[i]));
                assert(added[j - before.len()].batch == last);
            }
        }
    }
}

} // verus!
