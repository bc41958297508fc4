//! The probe phase of an inner hash join.
//!
//! The probe table says for every row of an input batch which rows of the build side match it. From
//! these matches the join gathers the build rows and the probe rows, and puts the output columns
//! together: the common join columns, the other columns of the left side, and those of the right side.
use std::sync::Arc;
use vstd::prelude::*;

use crate::error::{DaftError, ErrorView};
use crate::probe_laws::{every_batch_is_joined, is_join_of};
use crate::record_batch::{
    batch_result, gatherable, gathered, gathering_from_one_table_is_taking, get_columns_by_name,
    total_rows, views, BatchView, GrowableRecordBatch, MicroPartition, RecordBatch,
};
use crate::schema::{Field, Schema};
use crate::text::{contains_text, texts};

verus! {

/// What the join needs to know besides its inputs.
#[derive(Debug)]
pub struct HashJoinParams {
    /// The left input is the build side.
    pub build_on_left: bool,
    pub left_schema: Arc<Schema>,
    pub right_schema: Arc<Schema>,
    /// The join columns that both sides name alike, each once.
    pub common_join_cols: Vec<String>,
    pub output_schema: Arc<Schema>,
}

/// The matches of one probe row: a build table and a row of it for each; `None` where nothing matches.
pub type RowMatches = Option<Vec<(u32, u64)>>;

/// The matches of one probe row, with its position.
pub open spec fn row_hits(row: RowMatches, p: int) -> Seq<(int, int, int)> {
    match row {
        None => Seq::empty(),
        Some(v) => Seq::new(v@.len(), |i: int| (p, v@[i].0 as int, v@[i].1 as int)),
    }
}

/// All matches of a batch in order: the probe row, the build table and the build row.
pub open spec fn hits(rows: Seq<RowMatches>) -> Seq<(int, int, int)>
    decreases rows.len(),
{
    if rows.len() == 0 {
        Seq::empty()
    } else {
        hits(rows.drop_last()) + row_hits(rows.last(), rows.len() - 1)
    }
}

/// Every match is a row of a build table.
pub open spec fn matches_in_range<T>(rows: Seq<RowMatches>, build: Seq<BatchView<T>>) -> bool {
    forall|p: int, i: int|
        0 <= p < rows.len() && rows[p] is Some && 0 <= i < rows[p]->0@.len() ==> {
            let hit = #[trigger] rows[p]->0@[i];
            hit.0 < build.len() && hit.1 < build[hit.0 as int].rows
        }
}

/// The build rows of the matches.
pub open spec fn build_picks(hits: Seq<(int, int, int)>) -> Seq<(int, int)> {
    hits.map_values(|h: (int, int, int)| (h.1, h.2))
}

/// The probe rows of the matches.
pub open spec fn probe_rows(hits: Seq<(int, int, int)>) -> Seq<int> {
    hits.map_values(|h: (int, int, int)| h.0)
}

/// The names of the fields that are not join columns.
pub open spec fn other_names(fields: Seq<Field>, common: Seq<Seq<char>>) -> Seq<Seq<char>>
    decreases fields.len(),
{
    if fields.len() == 0 {
        Seq::empty()
    } else if common.contains(fields.last().name@) {
        other_names(fields.drop_last(), common)
    } else {
        other_names(fields.drop_last(), common).push(fields.last().name@)
    }
}

/// The output of the join for one input batch.
pub open spec fn joined<T>(
    input: BatchView<T>,
    build: Seq<BatchView<T>>,
    hits: Seq<(int, int, int)>,
    params: HashJoinParams,
) -> Result<BatchView<T>, ErrorView> {
    let build_side = gathered(build, build_picks(hits));
    let probe_side = input.take(probe_rows(hits));
    let left = if params.build_on_left {
        build_side
    } else {
        probe_side
    };
    let right = if params.build_on_left {
        probe_side
    } else {
        build_side
    };
    let common = texts(params.common_join_cols@);
    match left.select(common) {
        Err(e) => Err(e),
        Ok(keys) => match left.select(other_names(params.left_schema.fields@, common)) {
            Err(e) => Err(e),
            Ok(left_rest) => match right.select(
                other_names(params.right_schema.fields@, common),
            ) {
                Err(e) => Err(e),
                Ok(right_rest) => Ok(keys.union(left_rest).union(right_rest)),
            },
        },
    }
}

/// The outputs of the join for the input batches, or the first error.
pub open spec fn joined_tables<T>(
    inputs: Seq<BatchView<T>>,
    build: Seq<BatchView<T>>,
    matches: Seq<Vec<RowMatches>>,
    params: HashJoinParams,
) -> Result<Seq<BatchView<T>>, ErrorView>
    decreases inputs.len(),
{
    if inputs.len() == 0 {
        Ok(Seq::empty())
    } else {
        match joined_tables(inputs.drop_last(), build, matches, params) {
            Err(e) => Err(e),
            Ok(done) => match joined(
                inputs.last(),
                build,
                hits(matches[inputs.len() - 1]@),
                params,
            ) {
                Err(e) => Err(e),
                Ok(table) => Ok(done.push(table)),
            },
        }
    }
}

proof fn joined_tables_stop<T>(
    inputs: Seq<BatchView<T>>,
    build: Seq<BatchView<T>>,
    matches: Seq<Vec<RowMatches>>,
    params: HashJoinParams,
    i: int,
)
    requires
        0 <= i <= inputs.len(),
        joined_tables(inputs.take(i), build, matches, params) is Err,
    ensures
        joined_tables(inputs, build, matches, params) == joined_tables(
            inputs.take(i),
            build,
            matches,
            params,
        ),
    decreases inputs.len(),
{
    if i < inputs.len() {
        assert(inputs.drop_last().take(i) =~= inputs.take(i));
        joined_tables_stop(inputs.drop_last(), build, matches, params, i);
    } else {
        assert(inputs.take(i) =~= inputs);
    }
}

/// A match is a probe row and a row of a build table.
pub open spec fn hit_in_range<T>(
    hit: (int, int, int),
    probe_len: int,
    build: Seq<BatchView<T>>,
) -> bool {
    &&& 0 <= hit.0 < probe_len
    &&& 0 <= hit.1 < build.len()
    &&& 0 <= hit.2 < build[hit.1].rows
}

proof fn hits_are_in_range<T>(rows: Seq<RowMatches>, build: Seq<BatchView<T>>)
    requires
        matches_in_range(rows, build),
    ensures
        forall|m: int|
            0 <= m < hits(rows).len() ==> hit_in_range(
                #[trigger] hits(rows)[m],
                rows.len() as int,
                build,
            ),
    decreases rows.len(),
{
    if rows.len() > 0 {
        let init = rows.drop_last();
        assert forall|p: int, i: int|
            0 <= p < init.len() && init[p] is Some && 0 <= i < init[p]->0@.len() implies {
            let hit = #[trigger] init[p]->0@[i];
            hit.0 < build.len() && hit.1 < build[hit.0 as int].rows
        } by {
            assert(rows[p]->0@[i] == init[p]->0@[i]);
        }
        hits_are_in_range(init, build);
        assert forall|m: int| 0 <= m < hits(rows).len() implies hit_in_range(
            #[trigger] hits(rows)[m],
            rows.len() as int,
            build,
        ) by {
            if m < hits(init).len() {
                assert(hits(rows)[m] == hits(init)[m]);
            } else {
                let p = rows.len() - 1;
                let i = m - hits(init).len();
                assert(rows[p] is Some);
                assert(hits(rows)[m] == row_hits(rows[p], p)[i]);
                assert(hits(rows)[m] == (p, rows[p]->0@[i].0 as int, rows[p]->0@[i].1 as int));
            }
        }
    }
}

fn non_join_columns(schema: &Schema, common: &Vec<String>) -> (r: Vec<String>)
    ensures
        texts(r@) == other_names(schema.fields@, texts(common@)),
{
    let ghost fields = schema.fields@;
    let ghost names = texts(common@);
    let mut out: Vec<String> = Vec::new();
    let mut i: usize = 0;
    assert(fields.take(0) =~= Seq::empty());
    assert(texts(out@) =~= Seq::empty());
    while i < schema.fields.len()
        invariant
            i <= schema.fields.len(),
            fields == schema.fields@,
            names == texts(common@),
            texts(out@) == other_names(fields.take(i as int), names),
        decreases schema.fields.len() - i,
    {
        proof {
            assert(fields.take(i + 1).drop_last() =~= fields.take(i as int));
            assert(fields.take(i + 1).last() == fields[i as int]);
        }
        if !contains_text(common, &schema.fields[i].name) {
            let ghost before = out@;
            out.push((*schema.fields[i].name).to_owned());
            assert(texts(out@) =~= texts(before).push(out@.last()@));
        }
        i = i + 1;
    }
    assert(fields.take(i as int) =~= fields);
    out
}

/// The positions of a list of unsigned row numbers.
spec fn positions(idx: Seq<u64>) -> Seq<int> {
    idx.map_values(|i: u64| i as int)
}

/// Collects the probe rows and the build rows of the matches.
fn collect_single(rows: &Vec<RowMatches>) -> (r: (Vec<u64>, Vec<u64>))
    ensures
        positions(r.0@) == probe_rows(hits(rows@)),
        positions(r.1@) == hits(rows@).map_values(|h: (int, int, int)| h.2),
{
    let mut probe_side_idxs: Vec<u64> = Vec::new();
    let mut build_row_idxs: Vec<u64> = Vec::new();
    let mut p: usize = 0;
    assert(rows@.take(0) =~= Seq::empty());
    while p < rows.len()
        invariant
            p <= rows.len(),
            positions(probe_side_idxs@) =~= probe_rows(hits(rows@.take(p as int))),
            positions(build_row_idxs@) =~= hits(rows@.take(p as int)).map_values(
                |h: (int, int, int)| h.2,
            ),
        decreases rows.len() - p,
    {
        let ghost done = hits(rows@.take(p as int));
        proof {
            assert(rows@.take(p + 1).drop_last() =~= rows@.take(p as int));
            assert(rows@.take(p + 1).last() == rows@[p as int]);
            assert(hits(rows@.take(p + 1)) == done + row_hits(rows@[p as int], p as int));
        }
        match &rows[p] {
            Some(row) => {
                let ghost all = row_hits(rows@[p as int], p as int);
                let mut i: usize = 0;
                while i < row.len()
                    invariant
                        i <= row.len(),
                        all == Seq::new(
                            row@.len(),
                            |i: int| (p as int, row@[i].0 as int, row@[i].1 as int),
                        ),
                        positions(probe_side_idxs@) =~= probe_rows(done + all.take(i as int)),
                        positions(build_row_idxs@) =~= (done + all.take(i as int)).map_values(
                            |h: (int, int, int)| h.2,
                        ),
                    decreases row.len() - i,
                {
                    let ghost before = probe_side_idxs@;
                    let ghost rows_before = build_row_idxs@;
                    build_row_idxs.push(row[i].1);
                    probe_side_idxs.push(p as u64);
                    i = i + 1;
                    proof {
                        let next = all[i - 1];
                        assert(done + all.take(i as int) =~= (done + all.take(i - 1)).push(next));
                        assert(positions(probe_side_idxs@) =~= positions(before).push(next.0));
                        assert(positions(build_row_idxs@) =~= positions(rows_before).push(next.2));
                    }
                }
                assert(all.take(i as int) =~= all);
            },
            None => {
                assert(done + row_hits(rows@[p as int], p as int) =~= done);
            },
        }
        p = p + 1;
    }
    assert(rows@.take(p as int) =~= rows@);
    (probe_side_idxs, build_row_idxs)
}

/// Gathers the build rows of the matches from several tables, and collects the probe rows.
fn collect_multi<T: Copy>(build_tables: &Vec<RecordBatch<T>>, rows: &Vec<RowMatches>) -> (r: (
    Vec<u64>,
    RecordBatch<T>,
))
    requires
        gatherable(views(build_tables@)),
        matches_in_range(rows@, views(build_tables@)),
    ensures
        positions(r.0@) == probe_rows(hits(rows@)),
        r.1@ == gathered(views(build_tables@), build_picks(hits(rows@))),
        r.1@.wf(),
{
    let ghost build = views(build_tables@);
    let mut probe_side_idxs: Vec<u64> = Vec::new();
    let mut growable = GrowableRecordBatch::new(build_tables);
    let mut p: usize = 0;
    assert(rows@.take(0) =~= Seq::empty());
    while p < rows.len()
        invariant
            p <= rows.len(),
            build == views(build_tables@),
            matches_in_range(rows@, build),
            growable.wf(),
            growable.sources() == build,
            growable.gathered_rows() =~= build_picks(hits(rows@.take(p as int))),
            positions(probe_side_idxs@) =~= probe_rows(hits(rows@.take(p as int))),
        decreases rows.len() - p,
    {
        let ghost done = hits(rows@.take(p as int));
        proof {
            assert(rows@.take(p + 1).drop_last() =~= rows@.take(p as int));
            assert(rows@.take(p + 1).last() == rows@[p as int]);
            assert(hits(rows@.take(p + 1)) == done + row_hits(rows@[p as int], p as int));
        }
        match &rows[p] {
            Some(row) => {
                let ghost all = row_hits(rows@[p as int], p as int);
                let mut i: usize = 0;
                while i < row.len()
                    invariant
                        i <= row.len(),
                        p < rows@.len(),
                        rows@[p as int] == Some(*row),
                        build == views(build_tables@),
                        matches_in_range(rows@, build),
                        all == Seq::new(
                            row@.len(),
                            |i: int| (p as int, row@[i].0 as int, row@[i].1 as int),
                        ),
                        growable.wf(),
                        growable.sources() == build,
                        growable.gathered_rows() =~= build_picks(done + all.take(i as int)),
                        positions(probe_side_idxs@) =~= probe_rows(done + all.take(i as int)),
                    decreases row.len() - i,
                {
                    let ghost before = probe_side_idxs@;
                    probe_side_idxs.push(p as u64);
                    proof {
                        assert(positions(before).len() == build_picks(
                            done + all.take(i as int),
                        ).len());
                        let hit = rows@[p as int]->0@[i as int];
                        assert(hit.0 < build.len() && hit.1 < build[hit.0 as int].rows);
                        assert(build[hit.0 as int] == build_tables@[hit.0 as int]@);
                        assert(probe_side_idxs.len() == growable.gathered_rows().len() + 1);
                    }
                    growable.extend(row[i].0 as usize, row[i].1 as usize, 1);
                    i = i + 1;
                    proof {
                        let next = all[i - 1];
                        assert(done + all.take(i as int) =~= (done + all.take(i - 1)).push(next));
                        assert(positions(probe_side_idxs@) =~= positions(before).push(p as int));
                    }
                }
                assert(all.take(i as int) =~= all);
            },
            None => {
                assert(done + row_hits(rows@[p as int], p as int) =~= done);
            },
        }
        p = p + 1;
    }
    assert(rows@.take(p as int) =~= rows@);
    (probe_side_idxs, growable.build())
}

/// Joins one input batch.
fn join_table<T: Copy>(
    input_table: &RecordBatch<T>,
    build_tables: &Vec<RecordBatch<T>>,
    rows: &Vec<RowMatches>,
    params: &HashJoinParams,
) -> (r: Result<RecordBatch<T>, DaftError>)
    requires
        input_table@.wf(),
        rows@.len() == input_table@.rows,
        gatherable(views(build_tables@)),
        matches_in_range(rows@, views(build_tables@)),
    ensures
        batch_result(r) == joined(input_table@, views(build_tables@), hits(rows@), *params),
{
    let ghost build = views(build_tables@);
    let ghost all = hits(rows@);
    proof {
        hits_are_in_range(rows@, build);
    }
    let (probe_side_idxs, build_side_table) = if build_tables.len() == 1 {
        // One build table: gather the matched rows with a single take, as on the probe side.
        let (probe_side_idxs, build_row_idxs) = collect_single(rows);
        let ghost build_rows = positions(build_row_idxs@);
        proof {
            assert(build =~= seq![build_tables@[0]@]);
            assert(build_rows.len() == all.len());
            assert forall|m: int| 0 <= m < build_row_idxs@.len() implies (
            #[trigger] build_row_idxs@[m]) < build_tables@[0]@.rows by {
                assert(build_rows[m] == all[m].2);
                assert(hit_in_range(all[m], rows@.len() as int, build));
            }
            gathering_from_one_table_is_taking(build_tables@[0]@, build_rows);
            assert(build_rows.map_values(|i: int| (0int, i)) =~= build_picks(all)) by {
                assert forall|m: int| 0 <= m < all.len() implies all[m].1 == 0 by {
                    assert(hit_in_range(all[m], rows@.len() as int, build));
                }
            }
        }
        (probe_side_idxs, build_tables[0].take(&build_row_idxs))
    } else {
        collect_multi(build_tables, rows)
    };
    proof {
        assert(positions(probe_side_idxs@).len() == all.len());
        assert forall|m: int| 0 <= m < probe_side_idxs@.len() implies (
        #[trigger] probe_side_idxs@[m]) < input_table@.rows by {
            assert(positions(probe_side_idxs@)[m] == all[m].0);
            assert(hit_in_range(all[m], rows@.len() as int, build));
        }
    }
    let probe_side_table = input_table.take(&probe_side_idxs);
    let (left_table, right_table) = if params.build_on_left {
        (build_side_table, probe_side_table)
    } else {
        (probe_side_table, build_side_table)
    };
    let left_non_join = non_join_columns(&params.left_schema, &params.common_join_cols);
    let right_non_join = non_join_columns(&params.right_schema, &params.common_join_cols);
    let join_keys_table = get_columns_by_name(&left_table, &params.common_join_cols)?;
    let left_non_join_columns = get_columns_by_name(&left_table, &left_non_join)?;
    let right_non_join_columns = get_columns_by_name(&right_table, &right_non_join)?;
    Ok(join_keys_table.union(&left_non_join_columns).union(&right_non_join_columns))
}

/// Joins the input with the build side, given the matches that the probe table found for every row of
/// every input batch.
pub fn probe_inner<T: Copy>(
    input: &MicroPartition<T>,
    build_tables: &Vec<RecordBatch<T>>,
    matches: &Vec<Vec<RowMatches>>,
    params: &HashJoinParams,
) -> (r: Result<MicroPartition<T>, DaftError>)
    requires
        gatherable(views(build_tables@)),
        matches@.len() == input.tables@.len(),
        forall|i: int|
            #![trigger input.tables@[i]]
            0 <= i < input.tables@.len() ==> input.tables@[i]@.wf() && matches@[i]@.len()
                == input.tables@[i]@.rows && matches_in_range(
                matches@[i]@,
                views(build_tables@),
            ),
    ensures
        match r {
            Ok(out) => out.schema == params.output_schema && joined_tables(
                views(input.tables@),
                views(build_tables@),
                matches@,
                *params,
            ) == Ok::<Seq<BatchView<T>>, ErrorView>(views(out.tables@)),
            Err(e) => joined_tables(
                views(input.tables@),
                views(build_tables@),
                matches@,
                *params,
            ) == Err::<Seq<BatchView<T>>, ErrorView>(e@),
        },
        r matches Ok(out) ==> {
            &&& out.tables@.len() == input.tables@.len()
            &&& forall|i: int|
                0 <= i < out.tables@.len() ==> is_join_of(
                    (#[trigger] out.tables@[i])@,
                    input.tables@[i]@,
                    views(build_tables@),
                    matches@[i]@,
                    *params,
                )
        },
{
    let ghost inputs = views(input.tables@);
    let ghost build = views(build_tables@);
    proof {
        assert forall|i: int| 0 <= i < inputs.len() implies (#[trigger] inputs[i]).wf()
            && matches@[i]@.len() == inputs[i].rows by {
            assert(inputs[i] == input.tables@[i]@);
        }
        every_batch_is_joined(inputs, build, matches@, *params);
    }
    let input_tables = input.record_batches();
    let mut result_tables: Vec<RecordBatch<T>> = Vec::new();
    let mut i: usize = 0;
    assert(inputs.take(0) =~= Seq::empty());
    assert(views(result_tables@) =~= Seq::empty());
    while i < input_tables.len()
        invariant
            i <= input_tables.len(),
            *input_tables == input.tables,
            inputs == views(input.tables@),
            build == views(build_tables@),
            gatherable(build),
            matches@.len() == input.tables@.len(),
            forall|i: int|
                #![trigger input.tables@[i]]
                0 <= i < input.tables@.len() ==> input.tables@[i]@.wf() && matches@[i]@.len()
                    == input.tables@[i]@.rows && matches_in_range(matches@[i]@, build),
            joined_tables(inputs.take(i as int), build, matches@, *params) == Ok::<
                Seq<BatchView<T>>,
                ErrorView,
            >(views(result_tables@)),
        decreases input_tables.len() - i,
    {
        proof {
            assert(inputs.take(i + 1).drop_last() =~= inputs.take(i as int));
            assert(inputs.take(i + 1).last() == input.tables@[i as int]@);
        }
        match join_table(&input_tables[i], build_tables, &matches[i], params) {
            Ok(table) => {
                let ghost before = result_tables@;
                result_tables.push(table);
                assert(views(result_tables@) =~= views(before).push(table@));
            },
            Err(e) => {
                proof {
                    joined_tables_stop(inputs, build, matches@, *params, i + 1);
                }
                return Err(e);
            },
        }
        i = i + 1;
    }
    proof {
        assert(inputs.take(i as int) =~= inputs);
        let made = views(result_tables@);
        assert forall|k: int| 0 <= k < result_tables@.len() implies is_join_of(
            (#[trigger] result_tables@[k])@,
            input.tables@[k]@,
            build,
            matches@[k]@,
            *params,
        ) by {
            assert(made[k] == result_tables@[k]@);
            assert(inputs[k] == input.tables@[k]@);
        }
    }
    Ok(MicroPartition::new_loaded(params.output_schema.clone(), result_tables))
}

/// Where the probe table finds for each probe row exactly the build rows that match it, each once, the
/// join emits every matching pair once, and no other pair. Its output is ordered by the probe row.
pub proof fn each_match_is_joined_once(
    rows: Seq<RowMatches>,
    matching: spec_fn(int, int, int) -> bool,
)
    requires
        forall|p: int|
            0 <= p < rows.len() ==> row_hits(#[trigger] rows[p], p).no_duplicates(),
        forall|p: int, t: int, r: int|
            0 <= p < rows.len() ==> (#[trigger] row_hits(rows[p], p).contains((p, t, r))
                <==> matching(p, t, r)),
    ensures
        hits(rows).no_duplicates(),
        forall|p: int, t: int, r: int|
            #[trigger] hits(rows).contains((p, t, r)) <==> 0 <= p < rows.len() && matching(p, t, r),
        forall|m: int, n: int|
            0 <= m <= n < hits(rows).len() ==> (#[trigger] hits(rows)[m]).0 <= (
            #[trigger] hits(rows)[n]).0,
    decreases rows.len(),
{
    if rows.len() > 0 {
        let init = rows.drop_last();
        let last = rows.len() - 1;
        let before = hits(init);
        let row = row_hits(rows[last], last);
        assert forall|p: int| 0 <= p < init.len() implies row_hits(
            #[trigger] init[p],
            p,
        ).no_duplicates() by {
            assert(init[p] == rows[p]);
        }
        assert forall|p: int, t: int, r: int| 0 <= p < init.len() implies (#[trigger] row_hits(
            init[p],
            p,
        ).contains((p, t, r)) <==> matching(p, t, r)) by {
            assert(init[p] == rows[p]);
            assert(row_hits(rows[p], p).contains((p, t, r)) <==> matching(p, t, r));
        }
        each_match_is_joined_once(init, matching);
        let all = hits(rows);
        assert(all == before + row);
        assert forall|m: int| 0 <= m < row.len() implies (#[trigger] row[m]).0 == last by {}
        assert forall|m: int| 0 <= m < before.len() implies (#[trigger] before[m]).0 < last by {
            let h = before[m];
            assert(h == (h.0, h.1, h.2));
            assert(before.contains((h.0, h.1, h.2)));
        }
        assert forall|m: int, n: int| 0 <= m < n < all.len() implies all[m] != all[n] by {
            if n < before.len() {
                assert(all[m] == before[m] && all[n] == before[n]);
            } else if m >= before.len() {
                assert(all[m] == row[m - before.len()] && all[n] == row[n - before.len()]);
            } else {
                assert(all[m] == before[m] && all[n] == row[n - before.len()]);
            }
        }
        assert forall|p: int, t: int, r: int|
            #[trigger] all.contains((p, t, r)) <==> 0 <= p < rows.len() && matching(p, t, r) by {
            if all.contains((p, t, r)) {
                let m = choose|m: int| 0 <= m < all.len() && all[m] == (p, t, r);
                if m < before.len() {
                    assert(before[m] == (p, t, r));
                    assert(before.contains((p, t, r)));
                } else {
                    assert(row[m - before.len()] == (p, t, r));
                    assert(row.contains((p, t, r)));
                }
            }
            if 0 <= p < rows.len() && matching(p, t, r) {
                if p == last {
                    assert(row.contains((p, t, r)));
                    let m = choose|m: int| 0 <= m < row.len() && row[m] == (p, t, r);
                    assert(all[before.len() + m] == (p, t, r));
                } else {
                    assert(before.contains((p, t, r)));
                    let m = choose|m: int| 0 <= m < before.len() && before[m] == (p, t, r);
                    assert(all[m] == (p, t, r));
                }
            }
        }
        assert forall|m: int, n: int| 0 <= m <= n < all.len() implies (#[trigger] all[m]).0 <= (
        #[trigger] all[n]).0 by {
            if n < before.len() {
                assert(all[m] == before[m] && all[n] == before[n]);
            } else if m >= before.len() {
                assert(all[m] == row[m - before.len()] && all[n] == row[n - before.len()]);
            } else {
                assert(all[m] == before[m] && all[n] == row[n - before.len()]);
            }
        }
    }
}

/// A column of several tables, one below the other.
pub open spec fn stacked_column<T>(tables: Seq<BatchView<T>>, c: int) -> Seq<T>
    decreases tables.len(),
{
    if tables.len() == 0 {
        Seq::empty()
    } else {
        stacked_column(tables.drop_last(), c) + tables.last().columns[c]
    }
}

/// Several tables as one, with the rows one below the other.
pub open spec fn stacked<T>(tables: Seq<BatchView<T>>) -> BatchView<T> {
    BatchView {
        fields: tables[0].fields,
        columns: Seq::new(tables[0].columns.len(), |c: int| stacked_column(tables, c)),
        rows: total_rows(tables),
    }
}

/// The same matches, for the tables stacked into one.
pub open spec fn stacked_hits<T>(
    hits: Seq<(int, int, int)>,
    tables: Seq<BatchView<T>>,
) -> Seq<(int, int, int)> {
    hits.map_values(
        |h: (int, int, int)| (h.0, 0int, total_rows(tables.take(h.1)) + h.2),
    )
}

proof fn stacked_row<T>(tables: Seq<BatchView<T>>, c: int, t: int, r: int)
    requires
        gatherable(tables),
        0 <= t < tables.len(),
        0 <= c < tables[0].columns.len(),
        0 <= r < tables[t].rows,
    ensures
        stacked_column(tables, c).len() == total_rows(tables),
        total_rows(tables.take(t)) + r < total_rows(tables),
        stacked_column(tables, c)[total_rows(tables.take(t)) + r] == tables[t].columns[c][r],
    decreases tables.len(),
{
    let init = tables.drop_last();
    let last = tables.last();
    assert(tables[tables.len() - 1] == last);
    assert(last.wf() && last.columns[c].len() == last.rows);
    stacked_length(init, c, tables[0].columns.len() as int);
    if t < init.len() {
        assert(gatherable(init)) by {
            assert forall|i: int| 0 <= i < init.len() implies (#[trigger] init[i]).wf()
                && init[i].columns.len() == init[0].columns.len() by {
                assert(init[i] == tables[i]);
            }
        }
        stacked_row(init, c, t, r);
        assert(init.take(t) =~= tables.take(t));
    } else {
        assert(tables.take(t) =~= init);
    }
}

proof fn stacked_length<T>(tables: Seq<BatchView<T>>, c: int, width: int)
    requires
        0 <= c < width,
        forall|i: int|
            0 <= i < tables.len() ==> (#[trigger] tables[i]).wf() && tables[i].columns.len()
                == width,
    ensures
        stacked_column(tables, c).len() == total_rows(tables),
    decreases tables.len(),
{
    if tables.len() > 0 {
        let init = tables.drop_last();
        assert forall|i: int| 0 <= i < init.len() implies (#[trigger] init[i]).wf()
            && init[i].columns.len() == width by {
            assert(init[i] == tables[i]);
        }
        stacked_length(init, c, width);
        assert(tables[tables.len() - 1] == tables.last());
        assert(tables.last().columns[c].len() == tables.last().rows);
    }
}

/// How the build side is cut into tables makes no difference: the join gives the same output for
/// several build tables as for one table that holds their rows one below the other.
pub proof fn build_batching_makes_no_difference<T>(
    input: BatchView<T>,
    build: Seq<BatchView<T>>,
    all: Seq<(int, int, int)>,
    params: HashJoinParams,
)
    requires
        build.len() > 0,
        gatherable(build),
        forall|m: int| 0 <= m < all.len() ==> hit_in_range(#[trigger] all[m], input.rows as int, build),
    ensures
        joined(input, build, all, params) == joined(
            input,
            seq![stacked(build)],
            stacked_hits(all, build),
            params,
        ),
{
    let one = seq![stacked(build)];
    let moved = stacked_hits(all, build);
    assert(probe_rows(moved) =~= probe_rows(all));
    let a = gathered(build, build_picks(all));
    let b = gathered(one, build_picks(moved));
    assert forall|c: int| 0 <= c < a.columns.len() implies a.columns[c] == b.columns[c] by {
        assert forall|m: int| 0 <= m < all.len() implies a.columns[c][m] == b.columns[c][m] by {
            assert(hit_in_range(all[m], input.rows as int, build));
            stacked_row(build, c, all[m].1, all[m].2);
            assert(build_picks(moved)[m] == (0int, total_rows(build.take(all[m].1)) + all[m].2));
            assert(build_picks(all)[m] == (all[m].1, all[m].2));
        }
        assert(a.columns[c] =~= b.columns[c]);
    }
    assert(a.columns =~= b.columns);
    assert(a =~= b);
}

} // verus!
