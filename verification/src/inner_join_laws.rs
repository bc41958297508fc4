//! How the build side of a join is cut into tables makes no difference to the rows that come out.
use vstd::prelude::*;

use crate::error::ErrorView;
use crate::inner_join::{
    build_batching_makes_no_difference, build_picks, each_match_is_joined_once, hit_in_range, hits,
    joined, other_names, probe_rows, row_hits, stacked, stacked_hits, HashJoinParams, RowMatches,
};
use crate::record_batch::{
    field_position_in_range, gatherable, gathered, total_rows, BatchView,
};
use crate::text::texts;

verus! {

/// The rows of a table.
pub open spec fn table_rows<T>(v: BatchView<T>) -> Seq<Seq<T>> {
    Seq::new(v.rows, |m: int| row_at(v, m))
}

/// A row of a table.
pub open spec fn row_at<T>(v: BatchView<T>, m: int) -> Seq<T> {
    v.columns.map_values(|col: Seq<T>| col[m])
}

/// Both fail alike, or both give the same rows under the same columns, in whatever order.
pub open spec fn same_rows<T>(
    a: Result<BatchView<T>, ErrorView>,
    b: Result<BatchView<T>, ErrorView>,
) -> bool {
    match (a, b) {
        (Ok(x), Ok(y)) => x.fields == y.fields && table_rows(x).to_multiset() == table_rows(
            y,
        ).to_multiset(),
        (Err(e), Err(f)) => e == f,
        _ => false,
    }
}

/// The probe table finds for each probe row exactly the build rows that match it, each once. A build row
/// is told by its position among the rows of all tables.
pub open spec fn finds_each_once<T>(
    rows: Seq<RowMatches>,
    build: Seq<BatchView<T>>,
    matching: spec_fn(int, int) -> bool,
) -> bool {
    &&& forall|p: int|
        0 <= p < rows.len() ==> row_hits(#[trigger] rows[p], p).no_duplicates()
    &&& forall|p: int, t: int, r: int|
        0 <= p < rows.len() ==> (#[trigger] row_hits(rows[p], p).contains((p, t, r))
            <==> is_match(build, matching, p, t, r))
}

/// A row of a build table matches a probe row.
pub open spec fn is_match<T>(
    build: Seq<BatchView<T>>,
    matching: spec_fn(int, int) -> bool,
    p: int,
    t: int,
    r: int,
) -> bool {
    &&& 0 <= t < build.len()
    &&& 0 <= r < build[t].rows
    &&& matching(p, total_rows(build.take(t)) + r)
}

/// The second table has the columns of the first, and its first row is the row of the first at `m`.
spec fn picks_row<T>(a: BatchView<T>, m: int, b: BatchView<T>) -> bool {
    &&& a.fields == b.fields
    &&& a.columns.len() == b.columns.len() == a.fields.len()
    &&& forall|c: int| 0 <= c < a.columns.len() ==> (#[trigger] a.columns[c])[m] == b.columns[c][0]
}

/// Selecting columns keeps rows.
proof fn select_keeps_row<T>(a: BatchView<T>, m: int, b: BatchView<T>, names: Seq<Seq<char>>)
    requires
        picks_row(a, m, b),
    ensures
        match (a.select(names), b.select(names)) {
            (Ok(x), Ok(y)) => picks_row(x, m, y),
            (Err(e), Err(f)) => e == f,
            _ => false,
        },
    decreases names.len(),
{
    if names.len() > 0 {
        select_keeps_row(a, m, b, names.drop_last());
        field_position_in_range(a.fields, names.last());
    }
}

/// Whether columns can be selected goes by the fields alone.
proof fn select_goes_by_fields<T>(a: BatchView<T>, b: BatchView<T>, names: Seq<Seq<char>>)
    requires
        a.fields == b.fields,
    ensures
        match (a.select(names), b.select(names)) {
            (Ok(x), Ok(y)) => x.fields == y.fields && x.rows == a.rows && y.rows == b.rows,
            (Err(e), Err(f)) => e == f,
            _ => false,
        },
    decreases names.len(),
{
    if names.len() > 0 {
        select_goes_by_fields(a, b, names.drop_last());
    }
}

/// The output row of one match.
spec fn hit_row<T>(
    input: BatchView<T>,
    build: Seq<BatchView<T>>,
    params: HashJoinParams,
    hit: (int, int, int),
) -> Seq<T> {
    row_at(joined(input, build, seq![hit], params)->Ok_0, 0)
}

/// The output row at `m` is that of the match at `m`.
proof fn row_is_of_its_hit<T>(
    input: BatchView<T>,
    build: Seq<BatchView<T>>,
    all: Seq<(int, int, int)>,
    params: HashJoinParams,
    m: int,
)
    requires
        input.wf(),
        build.len() > 0,
        build[0].columns.len() == build[0].fields.len(),
        0 <= m < all.len(),
        joined(input, build, all, params) is Ok,
    ensures
        row_at(joined(input, build, all, params)->Ok_0, m) == hit_row(input, build, params, all[m]),
{
    let one = seq![all[m]];
    let build_all = gathered(build, build_picks(all));
    let build_one = gathered(build, build_picks(one));
    let probe_all = input.take(probe_rows(all));
    let probe_one = input.take(probe_rows(one));
    assert(build_picks(one)[0] == build_picks(all)[m]);
    assert(probe_rows(one)[0] == probe_rows(all)[m]);
    assert(picks_row(build_all, m, build_one));
    assert(picks_row(probe_all, m, probe_one));
    let (la, lo, ra, ro) = if params.build_on_left {
        (build_all, build_one, probe_all, probe_one)
    } else {
        (probe_all, probe_one, build_all, build_one)
    };
    let common = texts(params.common_join_cols@);
    let left_names = other_names(params.left_schema.fields@, common);
    let right_names = other_names(params.right_schema.fields@, common);
    select_keeps_row(la, m, lo, common);
    select_keeps_row(la, m, lo, left_names);
    select_keeps_row(ra, m, ro, right_names);
    let x = joined(input, build, all, params)->Ok_0;
    let y = joined(input, build, one, params)->Ok_0;
    assert(picks_row(x, m, y));
    assert(row_at(x, m) =~= row_at(y, 0));
}

/// A list without duplicates holds the same items as another such list exactly as often.
proof fn same_items_same_multiset<A>(a: Seq<A>, b: Seq<A>)
    requires
        a.no_duplicates(),
        b.no_duplicates(),
        forall|x: A| #[trigger] a.contains(x) <==> b.contains(x),
    ensures
        a.to_multiset() == b.to_multiset(),
{
    a.lemma_multiset_has_no_duplicates();
    b.lemma_multiset_has_no_duplicates();
    a.to_multiset_ensures();
    b.to_multiset_ensures();
    assert forall|x: A| a.to_multiset().count(x) == b.to_multiset().count(x) by {
        assert(a.contains(x) <==> b.contains(x));
        assert(a.to_multiset().contains(x) <==> a.to_multiset().count(x) > 0);
        assert(b.to_multiset().contains(x) <==> b.to_multiset().count(x) > 0);
    }
    assert(a.to_multiset() =~= b.to_multiset());
}

/// Mapping keeps the order from mattering.
proof fn mapped_multisets<A, B>(a: Seq<A>, b: Seq<A>, f: spec_fn(A) -> B)
    requires
        a.to_multiset() == b.to_multiset(),
    ensures
        a.map_values(f).to_multiset() == b.map_values(f).to_multiset(),
    decreases a.len(),
{
    a.to_multiset_ensures();
    b.to_multiset_ensures();
    if a.len() == 0 {
        assert(a.map_values(f) =~= b.map_values(f));
    } else {
        let x = a.last();
        assert(a[a.len() - 1] == x);
        assert(a.contains(x));
        assert(a.to_multiset().count(x) > 0);
        assert(b.to_multiset().count(x) > 0);
        assert(b.contains(x));
        let j = choose|j: int| 0 <= j < b.len() && b[j] == x;
        let shorter = a.remove(a.len() - 1);
        let other = b.remove(j);
        assert(shorter.to_multiset() == other.to_multiset());
        mapped_multisets(shorter, other, f);
        a.map_values(f).to_multiset_ensures();
        b.map_values(f).to_multiset_ensures();
        assert(a.map_values(f).remove(a.len() - 1) =~= shorter.map_values(f));
        assert(b.map_values(f).remove(j) =~= other.map_values(f));
        let y = f(x);
        assert(a.map_values(f)[a.len() - 1] == y);
        assert(b.map_values(f)[j] == y);
        assert(a.map_values(f).contains(y));
        assert(b.map_values(f).contains(y));
        assert(a.map_values(f).to_multiset() =~= shorter.map_values(f).to_multiset().insert(y));
        assert(b.map_values(f).to_multiset() =~= other.map_values(f).to_multiset().insert(y));
    }
}

/// The same matches in another order give the same rows.
proof fn order_of_matches_does_not_matter<T>(
    input: BatchView<T>,
    build: Seq<BatchView<T>>,
    a: Seq<(int, int, int)>,
    b: Seq<(int, int, int)>,
    params: HashJoinParams,
)
    requires
        input.wf(),
        build.len() > 0,
        build[0].columns.len() == build[0].fields.len(),
        a.to_multiset() == b.to_multiset(),
    ensures
        same_rows(joined(input, build, a, params), joined(input, build, b, params)),
{
    let build_a = gathered(build, build_picks(a));
    let build_b = gathered(build, build_picks(b));
    let probe_a = input.take(probe_rows(a));
    let probe_b = input.take(probe_rows(b));
    let (la, lb, ra, rb) = if params.build_on_left {
        (build_a, build_b, probe_a, probe_b)
    } else {
        (probe_a, probe_b, build_a, build_b)
    };
    let common = texts(params.common_join_cols@);
    let left_names = other_names(params.left_schema.fields@, common);
    let right_names = other_names(params.right_schema.fields@, common);
    select_goes_by_fields(la, lb, common);
    select_goes_by_fields(la, lb, left_names);
    select_goes_by_fields(ra, rb, right_names);
    if joined(input, build, a, params) is Ok {
        let x = joined(input, build, a, params)->Ok_0;
        let y = joined(input, build, b, params)->Ok_0;
        let f = |hit: (int, int, int)| hit_row(input, build, params, hit);
        assert(x.rows == a.len() && y.rows == b.len());
        assert forall|m: int| 0 <= m < a.len() implies row_at(x, m) == f(#[trigger] a[m]) by {
            row_is_of_its_hit(input, build, a, params, m);
        }
        assert forall|m: int| 0 <= m < b.len() implies row_at(y, m) == f(#[trigger] b[m]) by {
            row_is_of_its_hit(input, build, b, params, m);
        }
        assert(table_rows(x) =~= a.map_values(f));
        assert(table_rows(y) =~= b.map_values(f));
        mapped_multisets(a, b, f);
    }
}

/// The rows before a table are no more than those before a later one, with the table's own.
proof fn earlier_rows<T>(tables: Seq<BatchView<T>>, s: int, t: int)
    requires
        0 <= s < t <= tables.len(),
    ensures
        total_rows(tables.take(s)) + tables[s].rows <= total_rows(tables.take(t)),
    decreases t,
{
    assert(tables.take(t).drop_last() =~= tables.take(t - 1));
    assert(tables.take(t).last() == tables[t - 1]);
    if s < t - 1 {
        earlier_rows(tables, s, t - 1);
    }
}

/// Every position among the rows of all tables is that of a row of some table.
proof fn row_is_in_a_table<T>(tables: Seq<BatchView<T>>, g: int) -> (found: (int, int))
    requires
        0 <= g < total_rows(tables),
    ensures
        0 <= found.0 < tables.len(),
        0 <= found.1 < tables[found.0].rows,
        total_rows(tables.take(found.0)) + found.1 == g,
    decreases tables.len(),
{
    let init = tables.drop_last();
    if g < total_rows(init) {
        let found = row_is_in_a_table(init, g);
        assert(init.take(found.0) =~= tables.take(found.0));
        found
    } else {
        assert(tables.take(tables.len() - 1) =~= init);
        (tables.len() - 1, g - total_rows(init))
    }
}

/// The matches of the tables, renumbered for the tables stacked into one, are those of that one table.
proof fn matches_are_the_same<T>(
    build: Seq<BatchView<T>>,
    one: Seq<(int, int, int)>,
    several: Seq<(int, int, int)>,
    probe_len: int,
    matching: spec_fn(int, int) -> bool,
)
    requires
        one.no_duplicates(),
        several.no_duplicates(),
        forall|p: int, t: int, r: int|
            #[trigger] one.contains((p, t, r)) <==> 0 <= p < probe_len && is_match(
                seq![stacked(build)],
                matching,
                p,
                t,
                r,
            ),
        forall|p: int, t: int, r: int|
            #[trigger] several.contains((p, t, r)) <==> 0 <= p < probe_len && is_match(
                build,
                matching,
                p,
                t,
                r,
            ),
    ensures
        one.to_multiset() == stacked_hits(several, build).to_multiset(),
{
    let moved = stacked_hits(several, build);
    let single = seq![stacked(build)];
    assert(single.take(0) =~= Seq::empty());
    assert(total_rows(single.take(0)) == 0);
    assert forall|m: int, n: int| 0 <= m < n < moved.len() implies moved[m] != moved[n] by {
        let a = several[m];
        let b = several[n];
        assert(a == (a.0, a.1, a.2) && b == (b.0, b.1, b.2));
        assert(several.contains((a.0, a.1, a.2)));
        assert(several.contains((b.0, b.1, b.2)));
        assert(a != b);
        if moved[m] == moved[n] {
            if a.1 < b.1 {
                earlier_rows(build, a.1, b.1);
            } else if b.1 < a.1 {
                earlier_rows(build, b.1, a.1);
            }
        }
    }
    assert forall|x: (int, int, int)| #[trigger] one.contains(x) <==> moved.contains(x) by {
        assert(x == (x.0, x.1, x.2));
        if one.contains(x) {
            assert(one.contains((x.0, x.1, x.2)));
            assert(x.1 == 0);
            let (t, r) = row_is_in_a_table(build, x.2);
            assert(is_match(build, matching, x.0, t, r));
            assert(several.contains((x.0, t, r)));
            let m = choose|m: int| 0 <= m < several.len() && several[m] == (x.0, t, r);
            assert(moved[m] == x);
        }
        if moved.contains(x) {
            let m = choose|m: int| 0 <= m < moved.len() && moved[m] == x;
            let h = several[m];
            assert(h == (h.0, h.1, h.2));
            assert(several.contains((h.0, h.1, h.2)));
            earlier_rows(build, h.1, build.len() as int);
            assert(build.take(build.len() as int) =~= build);
            assert(is_match(single, matching, x.0, 0, x.2));
            assert(one.contains((x.0, x.1, x.2)));
        }
    }
    same_items_same_multiset(one, moved);
}

/// How the build side is cut into tables makes no difference: where both probe tables find for each probe
/// row exactly the build rows that match it, the join gives the same rows for several build tables as for
/// one table that holds their rows one below the other.
pub proof fn any_batching_gives_the_same_rows<T>(
    input: BatchView<T>,
    build: Seq<BatchView<T>>,
    one: Seq<RowMatches>,
    several: Seq<RowMatches>,
    matching: spec_fn(int, int) -> bool,
    params: HashJoinParams,
)
    requires
        input.wf(),
        build.len() > 0,
        gatherable(build),
        one.len() == input.rows,
        several.len() == input.rows,
        finds_each_once(one, seq![stacked(build)], matching),
        finds_each_once(several, build, matching),
    ensures
        same_rows(
            joined(input, seq![stacked(build)], hits(one), params),
            joined(input, build, hits(several), params),
        ),
{
    let single = seq![stacked(build)];
    let in_one = |p: int, t: int, r: int| is_match(single, matching, p, t, r);
    let in_several = |p: int, t: int, r: int| is_match(build, matching, p, t, r);
    assert forall|p: int, t: int, r: int| 0 <= p < one.len() implies (#[trigger] row_hits(
        one[p],
        p,
    ).contains((p, t, r)) <==> in_one(p, t, r)) by {}
    assert forall|p: int, t: int, r: int| 0 <= p < several.len() implies (#[trigger] row_hits(
        several[p],
        p,
    ).contains((p, t, r)) <==> in_several(p, t, r)) by {}
    each_match_is_joined_once(one, in_one);
    each_match_is_joined_once(several, in_several);
    let all = hits(several);
    assert forall|m: int| 0 <= m < all.len() implies hit_in_range(
        #[trigger] all[m],
        input.rows as int,
        build,
    ) by {
        let h = all[m];
        assert(h == (h.0, h.1, h.2));
        assert(all.contains((h.0, h.1, h.2)));
    }
    build_batching_makes_no_difference(input, build, all, params);
    matches_are_the_same(build, hits(one), all, input.rows as int, matching);
    assert(build[0].wf());
    order_of_matches_does_not_matter(
        input,
        single,
        hits(one),
        stacked_hits(all, build),
        params,
    );
}

} // verus!
