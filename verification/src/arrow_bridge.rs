//! Converting batches to and from Arrow, batch by batch.
//!
//! The conversion of one batch is the caller's; what is stated here is which batches are converted, in
//! what order, and what becomes of an error.
use std::sync::Arc;
use vstd::prelude::*;

use crate::error::DaftError;
use crate::record_batch::{MicroPartition, RecordBatch};

verus! {

/// The conversion of the items up to `n` succeeded, with these results.
pub open spec fn converted<A, B, F: Fn(&A) -> Result<B, DaftError>>(
    items: Seq<A>,
    convert: F,
    out: Seq<B>,
    n: int,
) -> bool {
    &&& out.len() == n <= items.len()
    &&& forall|i: int|
        0 <= i < n ==> call_ensures(convert, (&items[i],), Ok::<B, DaftError>(#[trigger] out[i]))
}

/// The outcome of converting the items in order: every item converted, or the error of the first item
/// that could not be.
pub open spec fn conversion<A, B, F: Fn(&A) -> Result<B, DaftError>>(
    items: Seq<A>,
    convert: F,
    r: Result<Vec<B>, DaftError>,
) -> bool {
    match r {
        Ok(out) => converted(items, convert, out@, items.len() as int),
        Err(e) => exists|done: Seq<B>|
            #![trigger done.len()]
            done.len() < items.len() && converted(items, convert, done, done.len() as int)
                && call_ensures(
                convert,
                (&items[done.len() as int],),
                Err::<B, DaftError>(e),
            ),
    }
}

/// Converts the items and appends the results.
fn convert_onto<A, B, F: Fn(&A) -> Result<B, DaftError>>(
    items: &Vec<A>,
    convert: &F,
    out: &mut Vec<B>,
    Ghost(before): Ghost<Seq<A>>,
) -> (r: Result<(), DaftError>)
    requires
        forall|a: &A| call_requires(convert, (a,)),
        converted(before, *convert, old(out)@, before.len() as int),
    ensures
        match r {
            Ok(_) => converted(
                before + items@,
                *convert,
                final(out)@,
                (before.len() + items@.len()) as int,
            ),
            Err(e) => {
                &&& before.len() <= final(out)@.len() < before.len() + items@.len()
                &&& converted(before + items@, *convert, final(out)@, final(out)@.len() as int)
                &&& call_ensures(
                    *convert,
                    (&(before + items@)[final(out)@.len() as int],),
                    Err::<B, DaftError>(e),
                )
            },
        },
{
    let ghost all = before + items@;
    let mut i: usize = 0;
    proof {
        assert forall|k: int| 0 <= k < out@.len() implies call_ensures(
            *convert,
            (&all[k],),
            Ok::<B, DaftError>(#[trigger] out@[k]),
        ) by {
            assert(all[k] == before[k]);
        }
    }
    while i < items.len()
        invariant
            i <= items.len(),
            all == before + items@,
            forall|a: &A| call_requires(convert, (a,)),
            converted(all, *convert, out@, before.len() + i),
        decreases items.len() - i,
    {
        assert(all[before.len() + i] == items@[i as int]);
        match convert(&items[i]) {
            Ok(b) => {
                out.push(b);
            },
            Err(e) => {
                return Err(e);
            },
        }
        i = i + 1;
    }
    Ok(())
}

/// Converts the batches in order; the first error ends the conversion.
pub fn daft_batches_to_arrow<A, B, F: Fn(&A) -> Result<B, DaftError>>(
    batches: &Vec<A>,
    convert: F,
) -> (r: Result<Vec<B>, DaftError>)
    requires
        forall|a: &A| call_requires(convert, (a,)),
    ensures
        conversion(batches@, convert, r),
{
    let mut out: Vec<B> = Vec::new();
    let ghost none = Seq::<A>::empty();
    assert(none + batches@ =~= batches@);
    match convert_onto(batches, &convert, &mut out, Ghost(none)) {
        Ok(_) => Ok(out),
        Err(e) => {
            let ghost done = out@;
            assert(done.len() < batches@.len());
            Err(e)
        },
    }
}

/// The batches of the partitions, one partition after the other.
pub open spec fn all_batches<T>(mps: Seq<Arc<MicroPartition<T>>>) -> Seq<RecordBatch<T>>
    decreases mps.len(),
{
    if mps.len() == 0 {
        Seq::empty()
    } else {
        all_batches(mps.drop_last()) + mps.last().tables@
    }
}

proof fn later_batches_follow<T>(mps: Seq<Arc<MicroPartition<T>>>, i: int)
    requires
        0 <= i <= mps.len(),
    ensures
        all_batches(mps.take(i)).len() <= all_batches(mps).len(),
        forall|k: int|
            0 <= k < all_batches(mps.take(i)).len() ==> all_batches(mps)[k] == #[trigger] all_batches(
                mps.take(i),
            )[k],
    decreases mps.len(),
{
    if i < mps.len() {
        assert(mps.drop_last().take(i) =~= mps.take(i));
        later_batches_follow(mps.drop_last(), i);
    } else {
        assert(mps.take(i) =~= mps);
    }
}

/// Converts all batches of a source's partitions, in order; the first error ends the conversion.
pub fn source_to_arrow<T, B, F: Fn(&RecordBatch<T>) -> Result<B, DaftError>>(
    mps: &Vec<Arc<MicroPartition<T>>>,
    convert: F,
) -> (r: Result<Vec<B>, DaftError>)
    requires
        forall|a: &RecordBatch<T>| call_requires(convert, (a,)),
    ensures
        conversion(all_batches(mps@), convert, r),
{
    let ghost all = all_batches(mps@);
    let mut out: Vec<B> = Vec::new();
    let mut i: usize = 0;
    assert(mps@.take(0) =~= Seq::empty());
    while i < mps.len()
        invariant
            i <= mps.len(),
            all == all_batches(mps@),
            forall|a: &RecordBatch<T>| call_requires(convert, (a,)),
            converted(
                all_batches(mps@.take(i as int)),
                convert,
                out@,
                all_batches(mps@.take(i as int)).len() as int,
            ),
        decreases mps.len() - i,
    {
        let ghost before = all_batches(mps@.take(i as int));
        let ghost after = all_batches(mps@.take(i + 1));
        proof {
            assert(mps@.take(i + 1).drop_last() =~= mps@.take(i as int));
            assert(mps@.take(i + 1).last() == mps@[i as int]);
            assert(after == before + mps@[i as int].tables@);
        }
        match convert_onto(&mps[i].tables, &convert, &mut out, Ghost(before)) {
            Ok(_) => {},
            Err(e) => {
                proof {
                    let done = out@;
                    later_batches_follow(mps@, i + 1);
                    assert forall|k: int| 0 <= k < done.len() implies call_ensures(
                        convert,
                        (&all[k],),
                        Ok::<B, DaftError>(#[trigger] done[k]),
                    ) by {
                        assert(all[k] == after[k]);
                    }
                    assert(all[done.len() as int] == after[done.len() as int]);
                    assert(converted(all, convert, done, done.len() as int));
                }
                return Err(e);
            },
        }
        i = i + 1;
    }
    assert(mps@.take(i as int) =~= mps@);
    Ok(out)
}

/// Converts the Arrow batches back, in order; the first error ends the conversion.
pub fn arrow_to_daft_batches<A, B, F: Fn(&A) -> Result<B, DaftError>>(
    arrow_batches: Vec<A>,
    convert: F,
) -> (r: Result<Vec<B>, DaftError>)
    requires
        forall|a: &A| call_requires(convert, (a,)),
    ensures
        conversion(arrow_batches@, convert, r),
{
    daft_batches_to_arrow(&arrow_batches, convert)
}

/// The number of batches in the partitions up to `n`.
pub open spec fn batches_before<T>(mps: Seq<Arc<MicroPartition<T>>>, n: int) -> nat
    decreases n,
{
    if n <= 0 {
        0
    } else {
        batches_before(mps, n - 1) + mps[n - 1].tables@.len()
    }
}

/// The batch at that position of that partition stands behind those of the partitions before it.
pub open spec fn stands_in_order<T>(mps: Seq<Arc<MicroPartition<T>>>, p: int, b: int) -> bool {
    let at = batches_before(mps, p) + b;
    at < all_batches(mps).len() && all_batches(mps)[at] == mps[p].tables@[b]
}

/// The batches of a source are those of its partitions, in the order of the partitions and of the batches
/// within each: behind those of the partitions before it stand the batches of a partition, and there are
/// no others.
pub proof fn batches_keep_their_order<T>(mps: Seq<Arc<MicroPartition<T>>>)
    ensures
        all_batches(mps).len() == batches_before(mps, mps.len() as int),
        forall|p: int, b: int|
            0 <= p < mps.len() && 0 <= b < mps[p].tables@.len() ==> #[trigger] stands_in_order(
                mps,
                p,
                b,
            ),
    decreases mps.len(),
{
    if mps.len() > 0 {
        let init = mps.drop_last();
        let last = mps.len() - 1;
        batches_keep_their_order(init);
        batches_before_ignore_later(mps, last);
        assert forall|p: int, b: int|
            0 <= p < mps.len() && 0 <= b < mps[p].tables@.len() implies #[trigger] stands_in_order(
            mps,
            p,
            b,
        ) by {
            if p < last {
                batches_before_ignore_later(mps, p);
                assert(init[p] == mps[p]);
                assert(stands_in_order(init, p, b));
            }
        }
    }
}

proof fn batches_before_ignore_later<T>(mps: Seq<Arc<MicroPartition<T>>>, n: int)
    requires
        0 <= n < mps.len(),
    ensures
        batches_before(mps.drop_last(), n) == batches_before(mps, n),
    decreases n,
{
    if n > 0 {
        batches_before_ignore_later(mps, n - 1);
    }
}

/// Batches that are converted and converted back come back as they were, in number, order and content,
/// where the conversion back undoes that of one batch.
pub proof fn round_trip_keeps_batches<
    A,
    B,
    F: Fn(&A) -> Result<B, DaftError>,
    G: Fn(&B) -> Result<A, DaftError>,
>(batches: Seq<A>, there: F, back: G, arrow: Vec<B>, r: Result<Vec<A>, DaftError>)
    requires
        conversion(batches, there, Ok(arrow)),
        conversion(arrow@, back, r),
        forall|a: A, b: B, c: Result<A, DaftError>|
            #![trigger call_ensures(there, (&a,), Ok::<B, DaftError>(b)), call_ensures(back, (&b,), c)]
            call_ensures(there, (&a,), Ok::<B, DaftError>(b)) && call_ensures(back, (&b,), c) ==> c
                == Ok::<A, DaftError>(a),
    ensures
        r matches Ok(out) && out@ == batches,
{
    match r {
        Ok(out) => {
            assert forall|i: int| 0 <= i < out@.len() implies out@[i] == batches[i] by {
                assert(call_ensures(there, (&batches[i],), Ok::<B, DaftError>(arrow@[i])));
                assert(call_ensures(back, (&arrow@[i],), Ok::<A, DaftError>(out@[i])));
            }
            assert(out@ =~= batches);
        },
        Err(e) => {
            let done = choose|done: Seq<A>|
                #![trigger done.len()]
                done.len() < arrow@.len() && converted(arrow@, back, done, done.len() as int)
                    && call_ensures(
                    back,
                    (&arrow@[done.len() as int],),
                    Err::<A, DaftError>(e),
                );
            let i = done.len() as int;
            assert(call_ensures(there, (&batches[i],), Ok::<B, DaftError>(arrow@[i])));
            assert(call_ensures(back, (&arrow@[i],), Err::<A, DaftError>(e)));
        },
    }
}

} // verus!
