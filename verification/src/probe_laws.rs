//! What an inner join gives: a table for every input batch, a row for every match, and in each row the
//! values of the two rows that match.
use vstd::prelude::*;

use crate::error::ErrorView;
use crate::inner_join::{
    build_picks, hits, joined, joined_tables, other_names, probe_rows, row_hits, HashJoinParams,
    RowMatches,
};
use crate::record_batch::{field_position, gathered, BatchView};
use crate::schema::Field;
use crate::text::texts;

verus! {

/// The number of matches of a row.
pub open spec fn match_count(row: RowMatches) -> nat {
    match row {
        Some(found) => found@.len(),
        None => 0,
    }
}

/// The number of matches of the rows before `p`.
pub open spec fn matches_before(rows: Seq<RowMatches>, p: int) -> nat
    decreases p,
{
    if p <= 0 {
        0
    } else {
        matches_before(rows, p - 1) + match_count(rows[p - 1])
    }
}

/// The field at `k` is the first of that name.
pub open spec fn is_first_named(fields: Seq<Field>, name: Seq<char>, k: int) -> bool {
    &&& 0 <= k < fields.len()
    &&& fields[k].name@ == name
    &&& forall|j: int| 0 <= j < k ==> (#[trigger] fields[j]).name@ != name
}

/// No field has that name.
pub open spec fn lacks_name(fields: Seq<Field>, name: Seq<char>) -> bool {
    forall|k: int| 0 <= k < fields.len() ==> (#[trigger] fields[k]).name@ != name
}

/// The names of the fields that are not among `common`, in their order.
pub open spec fn names_besides(fields: Seq<Field>, common: Seq<Seq<char>>) -> Seq<Seq<char>> {
    fields.map_values(|f: Field| f.name@).filter(|n: Seq<char>| !common.contains(n))
}

/// The names of the output columns: the join columns, then the other columns of the left side, then
/// those of the right side.
pub open spec fn output_names(params: HashJoinParams) -> Seq<Seq<char>> {
    let common = texts(params.common_join_cols@);
    common + names_besides(params.left_schema.fields@, common) + names_besides(
        params.right_schema.fields@,
        common,
    )
}

/// The output column at `c` comes from the build side: it is one of the left side's where that is the
/// build side, and one of the right side's otherwise.
pub open spec fn is_of_build_side(params: HashJoinParams, c: int) -> bool {
    let common = texts(params.common_join_cols@);
    let of_left = c < common.len() + names_besides(params.left_schema.fields@, common).len();
    of_left == params.build_on_left
}

/// The fields of the build side.
pub open spec fn build_fields<T>(build: Seq<BatchView<T>>) -> Seq<Field> {
    if build.len() == 0 {
        Seq::empty()
    } else {
        build[0].fields
    }
}

/// The fields of the side that the output column at `c` comes from.
pub open spec fn side_fields<T>(
    input: BatchView<T>,
    build: Seq<BatchView<T>>,
    params: HashJoinParams,
    c: int,
) -> Seq<Field> {
    if is_of_build_side(params, c) {
        build_fields(build)
    } else {
        input.fields
    }
}

/// The row at `p` has a match at `q`.
pub open spec fn has_match(rows: Seq<RowMatches>, p: int, q: int) -> bool {
    0 <= p < rows.len() && 0 <= q < match_count(rows[p])
}

/// The output column at `c` holds for the match at `q` of the row at `p` the value of the matching row in
/// the column at `k` of the side that it comes from. The matches of a row come after those of the rows
/// before it.
pub open spec fn holds_value<T>(
    out: BatchView<T>,
    input: BatchView<T>,
    build: Seq<BatchView<T>>,
    rows: Seq<RowMatches>,
    params: HashJoinParams,
    c: int,
    k: int,
    p: int,
    q: int,
) -> bool {
    let found = rows[p]->0@[q];
    out.columns[c][matches_before(rows, p) + q] == if is_of_build_side(params, c) {
        build[found.0 as int].columns[k][found.1 as int]
    } else {
        input.columns[k][p]
    }
}

/// The output column at `c` holds the values of all matches, and nothing more.
pub open spec fn holds_values<T>(
    out: BatchView<T>,
    input: BatchView<T>,
    build: Seq<BatchView<T>>,
    rows: Seq<RowMatches>,
    params: HashJoinParams,
    c: int,
    k: int,
) -> bool {
    &&& out.columns[c].len() == matches_before(rows, rows.len() as int)
    &&& forall|p: int, q: int|
        has_match(rows, p, q) ==> #[trigger] holds_value(
            out,
            input,
            build,
            rows,
            params,
            c,
            k,
            p,
            q,
        )
}

/// The table is the join of the input batch with its matches: it has a row for every match, and a column
/// for every output name, which holds the values of the column of that name.
pub open spec fn is_join_of<T>(
    out: BatchView<T>,
    input: BatchView<T>,
    build: Seq<BatchView<T>>,
    rows: Seq<RowMatches>,
    params: HashJoinParams,
) -> bool {
    let names = output_names(params);
    &&& out.rows == matches_before(rows, rows.len() as int)
    &&& out.fields.len() == names.len()
    &&& out.columns.len() == names.len()
    &&& forall|c: int|
        0 <= c < names.len() ==> #[trigger] has_column(out, input, build, rows, params, c)
}

/// The output column at `c` is a column of the side that it comes from.
pub open spec fn has_column<T>(
    out: BatchView<T>,
    input: BatchView<T>,
    build: Seq<BatchView<T>>,
    rows: Seq<RowMatches>,
    params: HashJoinParams,
    c: int,
) -> bool {
    exists|k: int| #[trigger] is_column_of(out, input, build, rows, params, c, k)
}

/// The output column at `c` is the column at `k` of the side that it comes from, which is the first of
/// its name there.
pub open spec fn is_column_of<T>(
    out: BatchView<T>,
    input: BatchView<T>,
    build: Seq<BatchView<T>>,
    rows: Seq<RowMatches>,
    params: HashJoinParams,
    c: int,
    k: int,
) -> bool {
    let fields = side_fields(input, build, params, c);
    &&& is_first_named(fields, output_names(params)[c], k)
    &&& out.fields[c] == fields[k]
    &&& holds_values(out, input, build, rows, params, c, k)
}

/// The column that an output name asks for is there.
pub open spec fn finds_column<T>(
    input: BatchView<T>,
    build: Seq<BatchView<T>>,
    params: HashJoinParams,
    c: int,
) -> bool {
    !lacks_name(side_fields(input, build, params, c), output_names(params)[c])
}

/// The first output name whose column is not there is the one at `c`.
pub open spec fn first_missing<T>(
    input: BatchView<T>,
    build: Seq<BatchView<T>>,
    params: HashJoinParams,
    c: int,
) -> bool {
    &&& 0 <= c < output_names(params).len()
    &&& !finds_column(input, build, params, c)
    &&& forall|d: int| 0 <= d < c ==> #[trigger] finds_column(input, build, params, d)
}

/// All columns that the output names ask for are there.
pub open spec fn finds_all<T>(
    input: BatchView<T>,
    build: Seq<BatchView<T>>,
    params: HashJoinParams,
) -> bool {
    forall|c: int|
        0 <= c < output_names(params).len() ==> #[trigger] finds_column(input, build, params, c)
}

/// The match at `q` of the row at `p` has its place among all matches.
spec fn has_place(rows: Seq<RowMatches>, all: Seq<(int, int, int)>, p: int, q: int) -> bool {
    let m = matches_before(rows, p) + q;
    &&& m < all.len()
    &&& all[m] == (p, rows[p]->0@[q].0 as int, rows[p]->0@[q].1 as int)
}

/// Every match of every row has its place.
proof fn hits_by_row(rows: Seq<RowMatches>, n: int)
    requires
        0 <= n <= rows.len(),
    ensures
        hits(rows.take(n)).len() == matches_before(rows, n),
        forall|p: int, q: int|
            p < n && has_match(rows, p, q) ==> #[trigger] has_place(
                rows,
                hits(rows.take(n)),
                p,
                q,
            ),
    decreases n,
{
    if n > 0 {
        hits_by_row(rows, n - 1);
        assert(rows.take(n).drop_last() =~= rows.take(n - 1));
        assert(rows.take(n).last() == rows[n - 1]);
        let before = hits(rows.take(n - 1));
        let row = row_hits(rows[n - 1], n - 1);
        let all = hits(rows.take(n));
        assert(all == before + row);
        assert(row.len() == match_count(rows[n - 1]));
        assert forall|p: int, q: int| p < n && has_match(rows, p, q) implies #[trigger] has_place(
            rows,
            all,
            p,
            q,
        ) by {
            if p == n - 1 {
                assert(row[q] == (p, rows[p]->0@[q].0 as int, rows[p]->0@[q].1 as int));
            } else {
                assert(has_place(rows, before, p, q));
            }
        }
    }
}

proof fn position_is_of_first(fields: Seq<Field>, name: Seq<char>)
    ensures
        match field_position(fields, name) {
            Some(k) => is_first_named(fields, name, k),
            None => lacks_name(fields, name),
        },
    decreases fields.len(),
{
    if fields.len() > 0 {
        let init = fields.drop_last();
        position_is_of_first(init, name);
        assert forall|j: int| 0 <= j < init.len() implies init[j] == fields[j] by {}
        match field_position(init, name) {
            Some(k) => {
                assert forall|j: int| 0 <= j < k implies (#[trigger] fields[j]).name@ != name by {
                    assert(init[j] == fields[j]);
                }
            },
            None => {
                assert forall|j: int| 0 <= j < init.len() implies (#[trigger] fields[j]).name@
                    != name by {
                    assert(init[j] == fields[j]);
                }
            },
        }
    }
}

/// The column at `c` of the selection is the first column of the name at `c`.
spec fn selects<T>(b: BatchView<T>, s: BatchView<T>, names: Seq<Seq<char>>, c: int) -> bool {
    exists|k: int| #[trigger]
        is_first_named(b.fields, names[c], k) && s.fields[c] == b.fields[k] && s.columns[c]
            == b.columns[k]
}

/// The name at `c` is the first without a column.
spec fn misses<T>(b: BatchView<T>, names: Seq<Seq<char>>, c: int) -> bool {
    &&& 0 <= c < names.len()
    &&& lacks_name(b.fields, names[c])
    &&& forall|d: int| 0 <= d < c ==> !lacks_name(b.fields, #[trigger] names[d])
}

/// Selecting columns takes for each name the first column of that name.
proof fn select_takes_first<T>(b: BatchView<T>, names: Seq<Seq<char>>)
    ensures
        match b.select(names) {
            Ok(s) => {
                &&& s.rows == b.rows
                &&& s.fields.len() == names.len()
                &&& s.columns.len() == names.len()
                &&& forall|c: int| 0 <= c < names.len() ==> #[trigger] selects(b, s, names, c)
                &&& forall|c: int|
                    0 <= c < names.len() ==> !lacks_name(b.fields, #[trigger] names[c])
            },
            Err(e) => exists|c: int| #[trigger]
                misses(b, names, c) && e == ErrorView::FieldNotFound(names[c]),
        },
    decreases names.len(),
{
    if names.len() > 0 {
        let init = names.drop_last();
        let name = names.last();
        let last = names.len() - 1;
        select_takes_first(b, init);
        position_is_of_first(b.fields, name);
        assert(names[last] == name);
        match b.select(init) {
            Err(e) => {
                let c = choose|c: int| #[trigger]
                    misses(b, init, c) && e == ErrorView::FieldNotFound(init[c]);
                assert forall|d: int| 0 <= d < c implies !lacks_name(
                    b.fields,
                    #[trigger] names[d],
                ) by {
                    assert(init[d] == names[d]);
                }
                assert(init[c] == names[c]);
                assert(misses(b, names, c));
            },
            Ok(s) => {
                assert forall|c: int| 0 <= c < last implies !lacks_name(
                    b.fields,
                    #[trigger] names[c],
                ) by {
                    assert(init[c] == names[c]);
                }
                match b.index_of(name) {
                    None => {
                        assert(misses(b, names, last));
                    },
                    Some(k) => {
                        let t = b.select(names)->Ok_0;
                        assert(b.fields[k].name@ == name);
                        assert forall|c: int| 0 <= c < names.len() implies #[trigger] selects(
                            b,
                            t,
                            names,
                            c,
                        ) by {
                            if c < last {
                                assert(selects(b, s, init, c));
                                let w = choose|w: int| #[trigger]
                                    is_first_named(b.fields, init[c], w) && s.fields[c]
                                        == b.fields[w] && s.columns[c] == b.columns[w];
                                assert(init[c] == names[c]);
                                assert(is_first_named(b.fields, names[c], w));
                                assert(t.fields[c] == s.fields[c] && t.columns[c] == s.columns[c]);
                            } else {
                                assert(is_first_named(b.fields, names[c], k));
                            }
                        }
                    },
                }
            },
        }
    }
}

proof fn other_names_are_filtered(fields: Seq<Field>, common: Seq<Seq<char>>)
    ensures
        other_names(fields, common) == names_besides(fields, common),
    decreases fields.len(),
{
    let names = fields.map_values(|f: Field| f.name@);
    reveal(Seq::filter);
    if fields.len() > 0 {
        other_names_are_filtered(fields.drop_last(), common);
        assert(names.drop_last() =~= fields.drop_last().map_values(|f: Field| f.name@));
        assert(names.last() == fields.last().name@);
    }
    assert(other_names(fields, common) =~= names_besides(fields, common));
}

/// The join of one batch is the join of its matches, or fails with the first column that is missing.
pub proof fn each_match_gives_its_row<T>(
    input: BatchView<T>,
    build: Seq<BatchView<T>>,
    rows: Seq<RowMatches>,
    params: HashJoinParams,
)
    requires
        input.wf(),
        forall|t: int| 0 <= t < build.len() ==> (#[trigger] build[t]).wf(),
        rows.len() == input.rows,
    ensures
        match joined(input, build, hits(rows), params) {
            Ok(out) => is_join_of(out, input, build, rows, params) && finds_all(
                input,
                build,
                params,
            ),
            Err(e) => exists|c: int| #[trigger]
                first_missing(input, build, params, c) && e == ErrorView::FieldNotFound(
                    output_names(params)[c],
                ),
        },
{
    let all = hits(rows);
    let build_side = gathered(build, build_picks(all));
    let probe_side = input.take(probe_rows(all));
    let (left, right) = if params.build_on_left {
        (build_side, probe_side)
    } else {
        (probe_side, build_side)
    };
    let common = texts(params.common_join_cols@);
    let lo = names_besides(params.left_schema.fields@, common);
    let ro = names_besides(params.right_schema.fields@, common);
    let names = output_names(params);
    other_names_are_filtered(params.left_schema.fields@, common);
    other_names_are_filtered(params.right_schema.fields@, common);
    select_takes_first(left, common);
    select_takes_first(left, lo);
    select_takes_first(right, ro);
    assert(rows.take(rows.len() as int) =~= rows);
    hits_by_row(rows, rows.len() as int);
    assert(all.len() == matches_before(rows, rows.len() as int));
    let (nc, nl) = (common.len() as int, lo.len() as int);
    assert forall|c: int| 0 <= c < nc implies names[c] == common[c] by {}
    assert forall|c: int| nc <= c < nc + nl implies names[c] == lo[c - nc] by {}
    assert forall|c: int| nc + nl <= c < names.len() implies names[c] == ro[c - nc - nl] by {}
    assert forall|c: int| 0 <= c < nc + nl implies side_fields(input, build, params, c)
        == left.fields by {}
    assert forall|c: int| nc + nl <= c < names.len() implies side_fields(input, build, params, c)
        == right.fields by {}
    match joined(input, build, all, params) {
        Ok(out) => {
            let keys = left.select(common)->Ok_0;
            let left_rest = left.select(lo)->Ok_0;
            let right_rest = right.select(ro)->Ok_0;
            assert(out == keys.union(left_rest).union(right_rest));
            assert forall|c: int| 0 <= c < names.len() implies #[trigger] has_column(
                out,
                input,
                build,
                rows,
                params,
                c,
            ) by {
                let (from, part, d, list) = if c < nc {
                    (left, keys, c, common)
                } else if c < nc + nl {
                    (left, left_rest, c - nc, lo)
                } else {
                    (right, right_rest, c - nc - nl, ro)
                };
                assert(list[d] == names[c]);
                assert(selects(from, part, list, d));
                let k = choose|k: int| #[trigger]
                    is_first_named(from.fields, list[d], k) && part.fields[d] == from.fields[k]
                        && part.columns[d] == from.columns[k];
                assert(out.fields[c] == part.fields[d] && out.columns[c] == part.columns[d]);
                assert(is_first_named(side_fields(input, build, params, c), names[c], k));
                assert(holds_values(out, input, build, rows, params, c, k)) by {
                    if is_of_build_side(params, c) {
                        assert(from == build_side);
                        assert(build.len() > 0);
                        assert(build[0].wf());
                    } else {
                        assert(from == probe_side);
                        assert(k < input.columns.len());
                    }
                    assert(out.columns[c] == from.columns[k]);
                    assert(from.columns[k].len() == all.len());
                    assert forall|p: int, q: int| has_match(rows, p, q) implies #[trigger]
                        holds_value(out, input, build, rows, params, c, k, p, q) by {
                        let m = matches_before(rows, p) + q;
                        assert(has_place(rows, hits(rows.take(rows.len() as int)), p, q));
                        assert(build_picks(all)[m] == (all[m].1, all[m].2));
                        assert(probe_rows(all)[m] == all[m].0);
                    }
                }
                assert(is_column_of(out, input, build, rows, params, c, k));
            }
            assert forall|c: int| 0 <= c < names.len() implies #[trigger] finds_column(
                input,
                build,
                params,
                c,
            ) by {
                assert(has_column(out, input, build, rows, params, c));
                let fields = side_fields(input, build, params, c);
                let k = choose|k: int| #[trigger]
                    is_column_of(out, input, build, rows, params, c, k);
                assert(fields[k].name@ == names[c]);
            }
            assert(out.rows == all.len());
            assert(out.fields.len() == names.len() && out.columns.len() == names.len());
            assert(is_join_of(out, input, build, rows, params));
        },
        Err(e) => {
            let (from, list, base) = if left.select(common) is Err {
                (left, common, 0int)
            } else if left.select(lo) is Err {
                (left, lo, nc)
            } else {
                (right, ro, nc + nl)
            };
            let d = choose|d: int| #[trigger]
                misses(from, list, d) && e == ErrorView::FieldNotFound(list[d]);
            let c = base + d;
            assert(names[c] == list[d]);
            assert forall|f: int| 0 <= f < c implies #[trigger] finds_column(
                input,
                build,
                params,
                f,
            ) by {
                if f >= base {
                    assert(names[f] == list[f - base]);
                } else if f < nc {
                    assert(names[f] == common[f]);
                } else {
                    assert(names[f] == lo[f - nc]);
                }
            }
            assert(side_fields(input, build, params, c) == from.fields);
            assert(!finds_column(input, build, params, c));
            assert(first_missing(input, build, params, c));
        },
    }
}

/// Every input batch is joined with its own matches: there is a table for every batch, and each is the
/// join of its batch. Where the join fails, some batch lacks a column, and it is the first to do so.
pub proof fn every_batch_is_joined<T>(
    inputs: Seq<BatchView<T>>,
    build: Seq<BatchView<T>>,
    matches: Seq<Vec<RowMatches>>,
    params: HashJoinParams,
)
    requires
        forall|t: int| 0 <= t < build.len() ==> (#[trigger] build[t]).wf(),
        inputs.len() <= matches.len(),
        forall|i: int|
            0 <= i < inputs.len() ==> (#[trigger] inputs[i]).wf() && matches[i]@.len()
                == inputs[i].rows,
    ensures
        match joined_tables(inputs, build, matches, params) {
            Ok(out) => {
                &&& out.len() == inputs.len()
                &&& forall|i: int|
                    0 <= i < inputs.len() ==> is_join_of(
                        #[trigger] out[i],
                        inputs[i],
                        build,
                        matches[i]@,
                        params,
                    )
                &&& forall|i: int|
                    0 <= i < inputs.len() ==> finds_all(#[trigger] inputs[i], build, params)
            },
            Err(e) => exists|i: int, c: int|
                {
                    &&& 0 <= i < inputs.len()
                    &&& #[trigger] first_missing(inputs[i], build, params, c)
                    &&& e == ErrorView::FieldNotFound(output_names(params)[c])
                    &&& forall|j: int| 0 <= j < i ==> finds_all(#[trigger] inputs[j], build, params)
                },
        },
    decreases inputs.len(),
{
    if inputs.len() > 0 {
        let init = inputs.drop_last();
        let last = inputs.len() - 1;
        assert forall|i: int| 0 <= i < init.len() implies (#[trigger] init[i]).wf()
            && matches[i]@.len() == init[i].rows by {
            assert(init[i] == inputs[i]);
        }
        every_batch_is_joined(init, build, matches, params);
        assert(inputs.last() == inputs[last]);
        each_match_gives_its_row(inputs[last], build, matches[last]@, params);
        match joined_tables(init, build, matches, params) {
            Ok(done) => {
                assert forall|i: int| 0 <= i < init.len() implies finds_all(
                    #[trigger] inputs[i],
                    build,
                    params,
                ) by {
                    assert(init[i] == inputs[i]);
                }
                match joined(inputs[last], build, hits(matches[last]@), params) {
                    Ok(table) => {
                        let out = done.push(table);
                        assert forall|i: int| 0 <= i < inputs.len() implies is_join_of(
                            #[trigger] out[i],
                            inputs[i],
                            build,
                            matches[i]@,
                            params,
                        ) by {
                            if i < last {
                                assert(out[i] == done[i] && init[i] == inputs[i]);
                            }
                        }
                    },
                    Err(e) => {
                        let c = choose|c: int| #[trigger]
                            first_missing(inputs[last], build, params, c) && e
                                == ErrorView::FieldNotFound(output_names(params)[c]);
                        assert(first_missing(inputs[last], build, params, c));
                    },
                }
            },
            Err(e) => {
                let (i, c) = choose|i: int, c: int|
                    {
                        &&& 0 <= i < init.len()
                        &&& #[trigger] first_missing(init[i], build, params, c)
                        &&& e == ErrorView::FieldNotFound(output_names(params)[c])
                        &&& forall|j: int|
                            0 <= j < i ==> finds_all(#[trigger] init[j], build, params)
                    };
                assert(first_missing(inputs[i], build, params, c));
                assert forall|j: int| 0 <= j < i implies finds_all(
                    #[trigger] inputs[j],
                    build,
                    params,
                ) by {
                    assert(init[j] == inputs[j]);
                }
            },
        }
    }
}

} // verus!
