//! What splitting joins keeps: every row, as often as before, and the schema; and that splitting once is
//! enough.
use std::sync::Arc;
use vstd::prelude::*;
use vstd::std_specs::cmp::PartialEqSpec;

use crate::collocated_join::{
    absent_key_has_no_tasks, changes, col_name, group_keys, group_keys_are_complete, has_unkeyed,
    is_concat_of, is_sub_join, keyed, keyed_lists_present, keyed_tasks, occurs, optimized,
    optimized_is_no_source, paired, partition_info, shared_key_from, shares_key, split, sub_joins,
    sub_tasks, task_key, task_sub_joins, tasks_with, SubJoin,
};
use crate::expr::Expr;
use crate::logical_plan::{Join, LogicalPlan, ScanTask};

verus! {

/// How often a row comes from joining one left task with the right tasks, where `rows` says how often
/// it comes from joining one left task with one right task.
pub open spec fn task_rows(
    a: Arc<ScanTask>,
    r: Seq<Arc<ScanTask>>,
    rows: spec_fn(Arc<ScanTask>, Arc<ScanTask>) -> nat,
) -> nat
    decreases r.len(),
{
    if r.len() == 0 {
        0
    } else {
        task_rows(a, r.drop_last(), rows) + rows(a, r.last())
    }
}

/// How often a row comes from joining the left tasks with the right tasks.
pub open spec fn join_rows(
    l: Seq<Arc<ScanTask>>,
    r: Seq<Arc<ScanTask>>,
    rows: spec_fn(Arc<ScanTask>, Arc<ScanTask>) -> nat,
) -> nat
    decreases l.len(),
{
    if l.len() == 0 {
        0
    } else {
        join_rows(l.drop_last(), r, rows) + task_rows(l.last(), r, rows)
    }
}

/// How often a row comes from the concatenation of the sub-joins.
pub open spec fn concat_rows(
    parts: Seq<(Seq<Arc<ScanTask>>, Seq<Arc<ScanTask>>)>,
    rows: spec_fn(Arc<ScanTask>, Arc<ScanTask>) -> nat,
) -> nat
    decreases parts.len(),
{
    if parts.len() == 0 {
        0
    } else {
        concat_rows(parts.drop_last(), rows) + join_rows(parts.last().0, parts.last().1, rows)
    }
}

/// Tasks with different partition values have no row in common.
pub open spec fn respects_partitions(
    col: Seq<char>,
    rows: spec_fn(Arc<ScanTask>, Arc<ScanTask>) -> nat,
) -> bool {
    forall|a: Arc<ScanTask>, b: Arc<ScanTask>|
        task_key(a, col) is Some && task_key(b, col) is Some && task_key(a, col) != task_key(b, col)
            ==> #[trigger] rows(a, b) == 0
}

/// The rows of the left groups with the given keys.
spec fn group_rows(
    l: Seq<Arc<ScanTask>>,
    col: Seq<char>,
    keys: Seq<Option<u64>>,
    r: Seq<Arc<ScanTask>>,
    rows: spec_fn(Arc<ScanTask>, Arc<ScanTask>) -> nat,
) -> nat
    decreases keys.len(),
{
    if keys.len() == 0 {
        0
    } else {
        group_rows(l, col, keys.drop_last(), r, rows) + join_rows(
            tasks_with(l, col, keys.last()),
            r,
            rows,
        )
    }
}

proof fn join_rows_of_sum(
    a: Seq<Arc<ScanTask>>,
    b: Seq<Arc<ScanTask>>,
    r: Seq<Arc<ScanTask>>,
    rows: spec_fn(Arc<ScanTask>, Arc<ScanTask>) -> nat,
)
    ensures
        join_rows(a + b, r, rows) == join_rows(a, r, rows) + join_rows(b, r, rows),
    decreases b.len(),
{
    if b.len() == 0 {
        assert(a + b =~= a);
    } else {
        assert((a + b).drop_last() =~= a + b.drop_last());
        join_rows_of_sum(a, b.drop_last(), r, rows);
    }
}

proof fn concat_rows_of_sum(
    a: Seq<(Seq<Arc<ScanTask>>, Seq<Arc<ScanTask>>)>,
    b: Seq<(Seq<Arc<ScanTask>>, Seq<Arc<ScanTask>>)>,
    rows: spec_fn(Arc<ScanTask>, Arc<ScanTask>) -> nat,
)
    ensures
        concat_rows(a + b, rows) == concat_rows(a, rows) + concat_rows(b, rows),
    decreases b.len(),
{
    if b.len() == 0 {
        assert(a + b =~= a);
    } else {
        assert((a + b).drop_last() =~= a + b.drop_last());
        concat_rows_of_sum(a, b.drop_last(), rows);
    }
}

/// One more left task adds its rows to the group of its key.
proof fn group_rows_grow(
    l: Seq<Arc<ScanTask>>,
    col: Seq<char>,
    keys: Seq<Option<u64>>,
    r: Seq<Arc<ScanTask>>,
    rows: spec_fn(Arc<ScanTask>, Arc<ScanTask>) -> nat,
)
    requires
        l.len() > 0,
        keys.no_duplicates(),
    ensures
        group_rows(l, col, keys, r, rows) == group_rows(l.drop_last(), col, keys, r, rows) + (
        if keys.contains(task_key(l.last(), col)) {
            task_rows(l.last(), r, rows)
        } else {
            0
        }),
    decreases keys.len(),
{
    if keys.len() > 0 {
        let init = keys.drop_last();
        let key = task_key(l.last(), col);
        group_rows_grow(l, col, init, r, rows);
        assert(keys[keys.len() - 1] == keys.last());
        if init.contains(key) {
            let w = choose|w: int| 0 <= w < init.len() && init[w] == key;
            assert(keys[w] == key);
        }
        if keys.last() == key {
            let with = tasks_with(l, col, key);
            assert(with.drop_last() =~= tasks_with(l.drop_last(), col, key));
            assert(!init.contains(key));
        } else if keys.contains(key) {
            let w = choose|w: int| 0 <= w < keys.len() && keys[w] == key;
            assert(init[w] == key);
        }
    }
}

/// The rows of all groups are the rows of all tasks.
proof fn group_rows_are_all(
    l: Seq<Arc<ScanTask>>,
    col: Seq<char>,
    keys: Seq<Option<u64>>,
    r: Seq<Arc<ScanTask>>,
    rows: spec_fn(Arc<ScanTask>, Arc<ScanTask>) -> nat,
)
    requires
        keys.no_duplicates(),
        forall|i: int| 0 <= i < l.len() ==> keys.contains(task_key(#[trigger] l[i], col)),
    ensures
        group_rows(l, col, keys, r, rows) == join_rows(l, r, rows),
    decreases l.len(),
{
    if l.len() == 0 {
        empty_group_rows(col, keys, r, rows);
        assert(l =~= Seq::empty());
    } else {
        group_rows_grow(l, col, keys, r, rows);
        assert(l[l.len() - 1] == l.last());
        assert forall|i: int| 0 <= i < l.drop_last().len() implies keys.contains(
            task_key(#[trigger] l.drop_last()[i], col),
        ) by {
            assert(l[i] == l.drop_last()[i]);
        }
        group_rows_are_all(l.drop_last(), col, keys, r, rows);
    }
}

proof fn empty_group_rows(
    col: Seq<char>,
    keys: Seq<Option<u64>>,
    r: Seq<Arc<ScanTask>>,
    rows: spec_fn(Arc<ScanTask>, Arc<ScanTask>) -> nat,
)
    ensures
        group_rows(Seq::empty(), col, keys, r, rows) == 0,
    decreases keys.len(),
{
    if keys.len() > 0 {
        empty_group_rows(col, keys.drop_last(), r, rows);
    }
}

/// A left task with a partition value only meets right tasks with the same value or with none.
proof fn keyed_task_rows(
    a: Arc<ScanTask>,
    r: Seq<Arc<ScanTask>>,
    col: Seq<char>,
    rows: spec_fn(Arc<ScanTask>, Arc<ScanTask>) -> nat,
)
    requires
        task_key(a, col) is Some,
        respects_partitions(col, rows),
    ensures
        task_rows(a, r, rows) == task_rows(a, tasks_with(r, col, None), rows) + task_rows(
            a,
            tasks_with(r, col, task_key(a, col)),
            rows,
        ),
    decreases r.len(),
{
    if r.len() > 0 {
        let init = r.drop_last();
        let none = tasks_with(r, col, None);
        let same = tasks_with(r, col, task_key(a, col));
        keyed_task_rows(a, init, col, rows);
        if task_key(r.last(), col) is None {
            assert(none.drop_last() =~= tasks_with(init, col, None));
        } else if task_key(r.last(), col) == task_key(a, col) {
            assert(same.drop_last() =~= tasks_with(init, col, task_key(a, col)));
        } else {
            assert(rows(a, r.last()) == 0);
        }
    }
}

/// A left group with a partition value only meets right tasks with the same value or with none.
proof fn keyed_group_rows(
    l: Seq<Arc<ScanTask>>,
    r: Seq<Arc<ScanTask>>,
    col: Seq<char>,
    key: Option<u64>,
    rows: spec_fn(Arc<ScanTask>, Arc<ScanTask>) -> nat,
)
    requires
        key is Some,
        respects_partitions(col, rows),
    ensures
        join_rows(tasks_with(l, col, key), r, rows) == join_rows(
            tasks_with(l, col, key),
            tasks_with(r, col, None),
            rows,
        ) + join_rows(tasks_with(l, col, key), tasks_with(r, col, key), rows),
    decreases l.len(),
{
    if l.len() > 0 {
        keyed_group_rows(l.drop_last(), r, col, key, rows);
        if task_key(l.last(), col) == key {
            assert(tasks_with(l, col, key).drop_last() =~= tasks_with(l.drop_last(), col, key));
            keyed_task_rows(l.last(), r, col, rows);
        }
    }
}

proof fn no_rows_without_right_tasks(
    l: Seq<Arc<ScanTask>>,
    rows: spec_fn(Arc<ScanTask>, Arc<ScanTask>) -> nat,
)
    ensures
        join_rows(l, Seq::empty(), rows) == 0,
    decreases l.len(),
{
    if l.len() > 0 {
        no_rows_without_right_tasks(l.drop_last(), rows);
    }
}

/// The rows of the sub-joins, computed group by group of the left side.
proof fn sub_join_rows(
    l: Seq<Arc<ScanTask>>,
    r: Seq<Arc<ScanTask>>,
    col: Seq<char>,
    keys: Seq<Option<u64>>,
    rows: spec_fn(Arc<ScanTask>, Arc<ScanTask>) -> nat,
)
    requires
        keys.no_duplicates(),
        respects_partitions(col, rows),
    ensures
        group_rows(l, col, keys, r, rows) == (if keys.contains(None) {
            join_rows(tasks_with(l, col, None), r, rows)
        } else {
            0
        }) + join_rows(keyed_tasks(l, col, keys), tasks_with(r, col, None), rows) + concat_rows(
            paired(keyed(keys), keyed(group_keys(r, col))).map_values(
                |k: u64| (tasks_with(l, col, Some(k)), tasks_with(r, col, Some(k))),
            ),
            rows,
        ),
    decreases keys.len(),
{
    let part = |k: u64| (tasks_with(l, col, Some(k)), tasks_with(r, col, Some(k)));
    let r_keyed = keyed(group_keys(r, col));
    if keys.len() == 0 {
        assert(!keys.contains(None));
        assert(paired(keyed(keys), r_keyed).map_values(part) =~= Seq::empty());
    } else {
        let init = keys.drop_last();
        let key = keys.last();
        sub_join_rows(l, r, col, init, rows);
        assert(keys[keys.len() - 1] == key);
        if init.contains(None) {
            let w = choose|w: int| 0 <= w < init.len() && init[w] == None::<u64>;
            assert(keys[w] == None::<u64>);
        }
        if keys.contains(None) && key is Some {
            let w = choose|w: int| 0 <= w < keys.len() && keys[w] == None::<u64>;
            assert(init[w] == None::<u64>);
        }
        match key {
            None => {},
            Some(k) => {
                keyed_group_rows(l, r, col, key, rows);
                join_rows_of_sum(
                    keyed_tasks(l, col, init),
                    tasks_with(l, col, key),
                    tasks_with(r, col, None),
                    rows,
                );
                assert(keyed(keys).drop_last() =~= keyed(init));
                assert(keyed(keys).last() == k);
                let before = paired(keyed(init), r_keyed);
                if occurs(k, r_keyed) {
                    assert(before.push(k).map_values(part) =~= before.map_values(part).push(
                        part(k),
                    ));
                    assert(before.map_values(part).push(part(k)).drop_last()
                        =~= before.map_values(part));
                } else {
                    keyed_lists_present(group_keys(r, col), k);
                    if r_keyed.contains(k) {
                        let w = choose|w: int| 0 <= w < r_keyed.len() && r_keyed[w] == k;
                        assert(k.eq_spec(&r_keyed[w]));
                    }
                    absent_key_has_no_tasks(r, col, key);
                    no_rows_without_right_tasks(tasks_with(l, col, key), rows);
                }
            },
        }
    }
}

/// The rewrite keeps every row: where tasks with different partition values have no row in common, a
/// row comes out of the sub-joins as often as out of the join that they replace. In particular no pair
/// of tasks is joined twice, and none that could match is dropped.
pub proof fn rewrite_keeps_every_row(
    l: Seq<Arc<ScanTask>>,
    r: Seq<Arc<ScanTask>>,
    col: Seq<char>,
    rows: spec_fn(Arc<ScanTask>, Arc<ScanTask>) -> nat,
)
    requires
        respects_partitions(col, rows),
    ensures
        concat_rows(task_sub_joins(l, r, col), rows) == join_rows(l, r, rows),
{
    let l_keys = group_keys(l, col);
    let r_keys = group_keys(r, col);
    let f = |sub: SubJoin<u64>| sub_tasks(l, r, col, sub);
    let part = |k: u64| (tasks_with(l, col, Some(k)), tasks_with(r, col, Some(k)));
    let pairs = paired(keyed(l_keys), keyed(r_keys));
    group_keys_are_complete(l, col);
    group_rows_are_all(l, col, l_keys, r, rows);
    sub_join_rows(l, r, col, l_keys, rows);
    let left = if has_unkeyed(l_keys) {
        seq![SubJoin::<u64>::LeftUnkeyedVsAllRight]
    } else {
        Seq::empty()
    };
    let right = if has_unkeyed(r_keys) && keyed(l_keys).len() > 0 {
        seq![SubJoin::<u64>::RightUnkeyedVsKeyedLeft]
    } else {
        Seq::empty()
    };
    let keyed_pairs = pairs.map_values(|k: u64| SubJoin::KeyedPair(k));
    assert(task_sub_joins(l, r, col) =~= left.map_values(f) + right.map_values(f)
        + pairs.map_values(part));
    concat_rows_of_sum(left.map_values(f) + right.map_values(f), pairs.map_values(part), rows);
    concat_rows_of_sum(left.map_values(f), right.map_values(f), rows);
    // The left tasks without a value.
    assert(concat_rows(left.map_values(f), rows) == if l_keys.contains(None) {
        join_rows(tasks_with(l, col, None), r, rows)
    } else {
        0
    }) by {
        reveal_with_fuel(concat_rows, 2);
        if has_unkeyed(l_keys) {
            let w = choose|w: int| 0 <= w < l_keys.len() && (#[trigger] l_keys[w]) is None;
            assert(l_keys[w] == None::<u64>);
            assert(left.map_values(f).drop_last() =~= Seq::empty());
            assert(left.map_values(f).last() == f(left[0]));
        } else {
            assert(left.map_values(f) =~= Seq::empty());
            if l_keys.contains(None) {
                let w = choose|w: int| 0 <= w < l_keys.len() && l_keys[w] == None::<u64>;
                assert(l_keys[w] is None);
            }
        }
    }
    // The right tasks without a value.
    let l_keyed = keyed_tasks(l, col, l_keys);
    let r_unkeyed = tasks_with(r, col, None);
    assert(concat_rows(right.map_values(f), rows) == join_rows(l_keyed, r_unkeyed, rows)) by {
        reveal_with_fuel(concat_rows, 2);
        if has_unkeyed(r_keys) && keyed(l_keys).len() > 0 {
            assert(right.map_values(f).drop_last() =~= Seq::empty());
            assert(right.map_values(f).last() == f(right[0]));
        } else {
            assert(right.map_values(f) =~= Seq::empty());
            if has_unkeyed(r_keys) {
                no_keyed_tasks(l, col, l_keys);
            } else {
                if r_keys.contains(None) {
                    let w = choose|w: int| 0 <= w < r_keys.len() && r_keys[w] == None::<u64>;
                    assert(r_keys[w] is None);
                }
                absent_key_has_no_tasks(r, col, None);
                no_rows_without_right_tasks(l_keyed, rows);
            }
        }
    }
}

proof fn no_keyed_tasks(l: Seq<Arc<ScanTask>>, col: Seq<char>, keys: Seq<Option<u64>>)
    requires
        keyed(keys).len() == 0,
    ensures
        keyed_tasks(l, col, keys) =~= Seq::empty(),
    decreases keys.len(),
{
    if keys.len() > 0 {
        no_keyed_tasks(l, col, keys.drop_last());
    }
}

/// The tasks of a materialized scan that has partition columns.
pub open spec fn scanned_tasks(plan: LogicalPlan) -> Seq<Arc<ScanTask>> {
    match partition_info(plan) {
        Some((tasks, _)) => tasks,
        None => Seq::empty(),
    }
}

/// The partition columns of a materialized scan.
pub open spec fn partition_names(plan: Arc<LogicalPlan>) -> Seq<Seq<char>> {
    match partition_info(*plan) {
        Some((_, names)) => names,
        None => Seq::empty(),
    }
}

/// The tasks of a join's left side.
pub open spec fn tasks_on_left(join: Join) -> Seq<Arc<ScanTask>> {
    scanned_tasks(*join.left)
}

/// The tasks of a join's right side.
pub open spec fn tasks_on_right(join: Join) -> Seq<Arc<ScanTask>> {
    scanned_tasks(*join.right)
}

/// The partition column that a join is split on.
pub open spec fn split_column(join: Join) -> Option<Seq<char>> {
    match (partition_info(*join.left), partition_info(*join.right)) {
        (Some((_, l_names)), Some((_, r_names))) => shared_key_from(
            l_names,
            r_names,
            join.on.left_eq@,
            join.on.right_eq@,
            0,
        ),
        _ => None,
    }
}

/// What the equalities of a join mean for the partitions of its sides: where an equality compares a
/// column of the left side with one of the right side, a left task and a right task whose partition
/// values for their own column differ have no row in common.
pub open spec fn respects_equalities(
    join: Join,
    rows: spec_fn(Arc<ScanTask>, Arc<ScanTask>) -> nat,
) -> bool {
    forall|i: int, a: Arc<ScanTask>, b: Arc<ScanTask>|
        #[trigger] is_equality(join, i) && tells_apart(
            *join.on.left_eq@[i],
            *join.on.right_eq@[i],
            a,
            b,
        ) ==> #[trigger] rows(a, b) == 0
}

/// The join has an equality at `i`.
pub open spec fn is_equality(join: Join, i: int) -> bool {
    0 <= i < join.on.left_eq@.len() && i < join.on.right_eq@.len()
}

/// The tasks have different values for the columns that the two sides of an equality name.
pub open spec fn tells_apart(l: Expr, r: Expr, a: Arc<ScanTask>, b: Arc<ScanTask>) -> bool {
    match (col_name(l), col_name(r)) {
        (Some(l_col), Some(r_col)) => task_key(a, l_col) is Some && task_key(b, r_col) is Some
            && task_key(a, l_col) != task_key(b, r_col),
        _ => false,
    }
}

/// The column of a split is compared with itself by an equality of the join.
proof fn split_column_is_compared(
    l_pkeys: Seq<Seq<char>>,
    r_pkeys: Seq<Seq<char>>,
    l_eq: Seq<Arc<Expr>>,
    r_eq: Seq<Arc<Expr>>,
    i: nat,
) -> (k: int)
    requires
        shared_key_from(l_pkeys, r_pkeys, l_eq, r_eq, i) is Some,
    ensures
        0 <= k < l_eq.len(),
        k < r_eq.len(),
        col_name(*l_eq[k]) == shared_key_from(l_pkeys, r_pkeys, l_eq, r_eq, i),
        col_name(*r_eq[k]) == shared_key_from(l_pkeys, r_pkeys, l_eq, r_eq, i),
    decreases l_eq.len() - i,
{
    if shares_key(l_pkeys, r_pkeys, l_eq, r_eq, i as int) {
        i as int
    } else {
        split_column_is_compared(l_pkeys, r_pkeys, l_eq, r_eq, i + 1)
    }
}

/// A join that the rule splits keeps every row: a row comes out of the sub-joins as often as out of the
/// join.
pub proof fn split_keeps_every_row(
    join: Join,
    rows: spec_fn(Arc<ScanTask>, Arc<ScanTask>) -> nat,
)
    requires
        split(join) is Some,
        respects_equalities(join, rows),
    ensures
        concat_rows(split(join)->0, rows) == join_rows(
            tasks_on_left(join),
            tasks_on_right(join),
            rows,
        ),
{
    match split_column(join) {
        Some(col) => {
            let k = split_column_is_compared(
                partition_names(join.left),
                partition_names(join.right),
                join.on.left_eq@,
                join.on.right_eq@,
                0,
            );
            assert forall|a: Arc<ScanTask>, b: Arc<ScanTask>|
                task_key(a, col) is Some && task_key(b, col) is Some && task_key(a, col)
                    != task_key(b, col) implies #[trigger] rows(a, b) == 0 by {
                assert(is_equality(join, k));
                assert(tells_apart(*join.on.left_eq@[k], *join.on.right_eq@[k], a, b));
            }
            rewrite_keeps_every_row(tasks_on_left(join), tasks_on_right(join), col, rows);
        },
        None => {},
    }
}

/// Splitting joins keeps the schema of the plan.
pub proof fn optimizing_keeps_the_schema(plan: Arc<LogicalPlan>, out: Arc<LogicalPlan>)
    requires
        optimized(*plan, *out),
    ensures
        out.output() == plan.output(),
{
}

/// The tasks with one partition value have no other.
proof fn one_key(tasks: Seq<Arc<ScanTask>>, col: Seq<char>, key: Option<u64>)
    ensures
        group_keys(tasks_with(tasks, col, key), col) =~= Seq::empty() || group_keys(
            tasks_with(tasks, col, key),
            col,
        ) =~= seq![key],
    decreases tasks.len(),
{
    if tasks.len() > 0 {
        let init = tasks.drop_last();
        one_key(init, col, key);
        if task_key(tasks.last(), col) == key {
            let before = tasks_with(init, col, key);
            assert(tasks_with(tasks, col, key).drop_last() =~= before);
            if group_keys(before, col) =~= seq![key] {
                assert(group_keys(before, col)[0] == key);
            }
        }
    }
}

/// The keyed tasks all have a partition value.
proof fn keyed_tasks_have_keys(l: Seq<Arc<ScanTask>>, col: Seq<char>, keys: Seq<Option<u64>>)
    ensures
        forall|i: int|
            0 <= i < keyed_tasks(l, col, keys).len() ==> task_key(
                #[trigger] keyed_tasks(l, col, keys)[i],
                col,
            ) is Some,
    decreases keys.len(),
{
    if keys.len() > 0 {
        let before = keyed_tasks(l, col, keys.drop_last());
        keyed_tasks_have_keys(l, col, keys.drop_last());
        tasks_with_have_key(l, col, keys.last());
        assert forall|i: int| 0 <= i < keyed_tasks(l, col, keys).len() implies task_key(
            #[trigger] keyed_tasks(l, col, keys)[i],
            col,
        ) is Some by {
            if i < before.len() {
                assert(keyed_tasks(l, col, keys)[i] == before[i]);
            } else {
                assert(keyed_tasks(l, col, keys)[i] == tasks_with(l, col, keys.last())[i
                    - before.len()]);
            }
        }
    }
}

proof fn tasks_with_have_key(tasks: Seq<Arc<ScanTask>>, col: Seq<char>, key: Option<u64>)
    ensures
        forall|i: int|
            0 <= i < tasks_with(tasks, col, key).len() ==> task_key(
                #[trigger] tasks_with(tasks, col, key)[i],
                col,
            ) == key,
    decreases tasks.len(),
{
    if tasks.len() > 0 {
        let before = tasks_with(tasks.drop_last(), col, key);
        tasks_with_have_key(tasks.drop_last(), col, key);
        assert forall|i: int| 0 <= i < tasks_with(tasks, col, key).len() implies task_key(
            #[trigger] tasks_with(tasks, col, key)[i],
            col,
        ) == key by {
            if i < before.len() {
                assert(tasks_with(tasks, col, key)[i] == before[i]);
            }
        }
    }
}

/// Tasks that all have a partition value have no group without one.
proof fn no_unkeyed_group(tasks: Seq<Arc<ScanTask>>, col: Seq<char>)
    requires
        forall|i: int| 0 <= i < tasks.len() ==> task_key(#[trigger] tasks[i], col) is Some,
    ensures
        !has_unkeyed(group_keys(tasks, col)),
    decreases tasks.len(),
{
    if tasks.len() > 0 {
        let init = tasks.drop_last();
        assert forall|i: int| 0 <= i < init.len() implies task_key(#[trigger] init[i], col) is Some by {
            assert(init[i] == tasks[i]);
        }
        no_unkeyed_group(init, col);
        assert(tasks[tasks.len() - 1] == tasks.last());
        let keys = group_keys(init, col);
        assert forall|i: int| 0 <= i < group_keys(tasks, col).len() implies (#[trigger] group_keys(
            tasks,
            col,
        )[i]) is Some by {
            if i < keys.len() {
                assert(group_keys(tasks, col)[i] == keys[i]);
                assert(keys[i] is Some);
            }
        }
    }
}

proof fn paired_with_nothing(l: Seq<u64>, r: Seq<u64>)
    requires
        r.len() == 0,
    ensures
        paired(l, r).len() == 0,
    decreases l.len(),
{
    if l.len() > 0 {
        paired_with_nothing(l.drop_last(), r);
    }
}

/// The tasks of a sub-join would be joined by a single sub-join.
proof fn sub_join_is_single(
    l: Seq<Arc<ScanTask>>,
    r: Seq<Arc<ScanTask>>,
    col: Seq<char>,
    sub: SubJoin<u64>,
)
    ensures
        task_sub_joins(
            sub_tasks(l, r, col, sub).0,
            sub_tasks(l, r, col, sub).1,
            col,
        ).len() <= 1,
{
    reveal_with_fuel(keyed, 2);
    reveal_with_fuel(paired, 2);
    let (left, right) = sub_tasks(l, r, col, sub);
    let l_keys = group_keys(left, col);
    let r_keys = group_keys(right, col);
    match sub {
        SubJoin::LeftUnkeyedVsAllRight => {
            one_key(l, col, None);
            if l_keys =~= seq![None] {
                assert(l_keys.drop_last() =~= Seq::empty());
            }
            assert(keyed(l_keys) =~= Seq::empty());
        },
        SubJoin::RightUnkeyedVsKeyedLeft => {
            one_key(r, col, None);
            if r_keys =~= seq![None] {
                assert(r_keys.drop_last() =~= Seq::empty());
            }
            assert(keyed(r_keys) =~= Seq::empty());
            paired_with_nothing(keyed(l_keys), keyed(r_keys));
            keyed_tasks_have_keys(l, col, group_keys(l, col));
            no_unkeyed_group(left, col);
        },
        SubJoin::KeyedPair(k) => {
            one_key(l, col, Some(k));
            one_key(r, col, Some(k));
            tasks_with_have_key(l, col, Some(k));
            tasks_with_have_key(r, col, Some(k));
            no_unkeyed_group(left, col);
            no_unkeyed_group(right, col);
            if l_keys =~= seq![Some(k)] {
                assert(l_keys.drop_last() =~= Seq::empty());
                assert(keyed(l_keys) =~= seq![k]);
                assert(keyed(l_keys).drop_last() =~= Seq::empty());
            } else {
                assert(keyed(l_keys) =~= Seq::empty());
            }
            assert(paired(keyed(l_keys), keyed(r_keys)).len() <= 1);
        },
    }
}

/// A sub-join is not split again.
proof fn sub_join_stays(plan: Arc<LogicalPlan>, join: Join, i: int)
    requires
        split(join) is Some,
        0 <= i < split(join)->0.len(),
        is_sub_join(*plan, join, split(join)->0[i]),
    ensures
        !changes(*plan),
{
    reveal_with_fuel(changes, 2);
    match *plan {
        LogicalPlan::Join(sub) => {
            let col = split_column(join)->0;
            let l = tasks_on_left(join);
            let r = tasks_on_right(join);
            let subs = sub_joins(group_keys(l, col), group_keys(r, col));
            sub_join_is_single(l, r, col, subs[i]);
            assert(split(join)->0[i] == sub_tasks(l, r, col, subs[i]));
            assert(tasks_on_left(sub) == split(join)->0[i].0);
            assert(tasks_on_right(sub) == split(join)->0[i].1);
            assert(split_column(sub) == split_column(join));
            assert(split(sub) is None);
        },
        _ => {},
    }
}

proof fn concat_stays(
    plan: Arc<LogicalPlan>,
    join: Join,
    parts: Seq<(Seq<Arc<ScanTask>>, Seq<Arc<ScanTask>>)>,
)
    requires
        split(join) is Some,
        parts.len() <= split(join)->0.len(),
        parts == split(join)->0.take(parts.len() as int),
        is_concat_of(*plan, join, parts),
    ensures
        !changes(*plan),
    decreases parts.len(),
{
    let all = split(join)->0;
    if parts.len() == 1 {
        assert(parts[0] == all[0]);
        sub_join_stays(plan, join, 0);
    } else if parts.len() > 1 {
        match *plan {
            LogicalPlan::Concat(c) => {
                assert(parts.last() == all[parts.len() - 1]);
                sub_join_stays(c.other, join, parts.len() - 1);
                assert(parts.drop_last() =~= all.take(parts.len() - 1));
                concat_stays(c.input, join, parts.drop_last());
            },
            _ => {},
        }
    }
}

/// The rule changes some node of the plan.
spec fn is_changed(plan: Arc<LogicalPlan>) -> bool {
    changes(*plan)
}

/// Once is enough: the rule finds nothing more to split in a plan that it has been applied to.
pub proof fn one_pass_is_enough(plan: Arc<LogicalPlan>, out: Arc<LogicalPlan>)
    requires
        optimized(*plan, *out),
    ensures
        !changes(*out),
    decreases *plan,
{
    if is_changed(plan) {
        match *plan {
            LogicalPlan::Join(j) => {
                if split(j) is Some {
                    assert(split(j)->0 =~= split(j)->0.take(split(j)->0.len() as int));
                    concat_stays(out, j, split(j)->0);
                } else {
                    match *out {
                        LogicalPlan::Join(o) => {
                            one_pass_is_enough(j.left, o.left);
                            one_pass_is_enough(j.right, o.right);
                            optimized_is_no_source(j, o);
                        },
                        _ => {},
                    }
                }
            },
            LogicalPlan::Concat(c) => match *out {
                LogicalPlan::Concat(o) => {
                    one_pass_is_enough(c.input, o.input);
                    one_pass_is_enough(c.other, o.other);
                },
                _ => {},
            },
            LogicalPlan::Other(op) => match *out {
                LogicalPlan::Other(o) => {
                    assert forall|k: int| 0 <= k < o.children@.len() implies !changes(
                        *#[trigger] o.children@[k],
                    ) by {
                        one_pass_is_enough(op.children@[k], o.children@[k]);
                    }
                },
                _ => {},
            },
            LogicalPlan::Source(_) => {},
        }
    }
}

} // verus!
