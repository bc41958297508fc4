//! The order and the shape of what a join is split into.
use std::sync::Arc;
use vstd::prelude::*;

use crate::collocated_join::{
    are_groups_of, changes, group_keys, group_keys_are_complete, has_unkeyed, is_concat_of, keyed,
    keyed_lists_present, keyed_tasks, keys_of, mismatched, optimized, paired, shared_key_from,
    split, sub_joins, task_key, task_sub_joins, tasks_with, SubJoin, TaskGroup,
};
use crate::collocated_laws::one_pass_is_enough;
use crate::local_plan::JoinType;
use crate::logical_plan::{Join, LogicalPlan, ScanState, ScanTask, SourceInfo};
use crate::partition_laws::{
    belongs, compares_partition_column, is_partitioned_scan,
    partition_value_is_of_the_named_column, planned_sub_joins_are_those_of_shared_values,
    scan_parts, shared_column_is_the_first_compared, tasks_with_are_filtered,
};
use crate::schema::Field;

verus! {

/// The keys list the first value at one position and the second at a later one.
pub open spec fn are_at(keys: Seq<Option<u64>>, x: u64, y: u64, i: int, j: int) -> bool {
    0 <= i < j < keys.len() && keys[i] == Some(x) && keys[j] == Some(y)
}

/// The keys list the first value before the second.
pub open spec fn are_in_order(keys: Seq<Option<u64>>, x: u64, y: u64) -> bool {
    exists|i: int, j: int| #[trigger] are_at(keys, x, y, i, j)
}

/// The first sub-join is to come before the second: the one of the left tasks without a value is first, the
/// one of the right tasks without a value is next, and those of a value follow in the order of the left keys.
pub open spec fn precedes(a: SubJoin<u64>, b: SubJoin<u64>, keys: Seq<Option<u64>>) -> bool {
    match (a, b) {
        (SubJoin::LeftUnkeyedVsAllRight, SubJoin::LeftUnkeyedVsAllRight) => false,
        (SubJoin::LeftUnkeyedVsAllRight, _) => true,
        (SubJoin::RightUnkeyedVsKeyedLeft, SubJoin::KeyedPair(_)) => true,
        (SubJoin::KeyedPair(x), SubJoin::KeyedPair(y)) => are_in_order(keys, x, y),
        _ => false,
    }
}

proof fn values_keep_their_order(keys: Seq<Option<u64>>, a: int, b: int)
    requires
        0 <= a < b < keyed(keys).len(),
    ensures
        exists|i: int, j: int| #[trigger] are_at(keys, keyed(keys)[a], keyed(keys)[b], i, j),
    decreases keys.len(),
{
    let init = keys.drop_last();
    let (x, y) = (keyed(keys)[a], keyed(keys)[b]);
    if b < keyed(init).len() {
        values_keep_their_order(init, a, b);
        let (i, j) = choose|i: int, j: int| #[trigger] are_at(init, x, y, i, j);
        assert(are_at(keys, x, y, i, j));
    } else {
        assert(keyed(init)[a] == x);
        assert(keyed(init).contains(x));
        keyed_lists_present(init, x);
        let i = choose|i: int| 0 <= i < init.len() && init[i] == Some(x);
        assert(keys[i] == Some(x));
        assert(are_at(keys, x, y, i, keys.len() - 1));
    }
}

/// The list has the first value at one position and the second at a later one.
spec fn are_listed(list: Seq<u64>, x: u64, y: u64, i: int, j: int) -> bool {
    0 <= i < j < list.len() && list[i] == x && list[j] == y
}

proof fn paired_values_are_listed(l: Seq<u64>, r: Seq<u64>, a: int)
    requires
        0 <= a < paired(l, r).len(),
    ensures
        l.contains(paired(l, r)[a]),
    decreases l.len(),
{
    let init = l.drop_last();
    if a < paired(init, r).len() {
        paired_values_are_listed(init, r, a);
        let i = choose|i: int| 0 <= i < init.len() && init[i] == paired(init, r)[a];
        assert(l[i] == paired(l, r)[a]);
    } else {
        assert(l[l.len() - 1] == paired(l, r)[a]);
    }
}

proof fn pairs_keep_their_order(l: Seq<u64>, r: Seq<u64>, a: int, b: int)
    requires
        0 <= a < b < paired(l, r).len(),
    ensures
        exists|i: int, j: int| #[trigger] are_listed(l, paired(l, r)[a], paired(l, r)[b], i, j),
    decreases l.len(),
{
    let init = l.drop_last();
    let (x, y) = (paired(l, r)[a], paired(l, r)[b]);
    if b < paired(init, r).len() {
        pairs_keep_their_order(init, r, a, b);
        let (i, j) = choose|i: int, j: int| #[trigger] are_listed(init, x, y, i, j);
        assert(are_listed(l, x, y, i, j));
    } else {
        paired_values_are_listed(init, r, a);
        let i = choose|i: int| 0 <= i < init.len() && init[i] == x;
        assert(l[i] == x);
        assert(are_listed(l, x, y, i, l.len() - 1));
    }
}

/// Sub-joins come in order: that of the left tasks without a value first, then that of the right tasks
/// without a value, then those of the shared values, in the order of the left keys.
pub proof fn sub_joins_come_in_order(l: Seq<Option<u64>>, r: Seq<Option<u64>>)
    ensures
        forall|a: int, b: int|
            0 <= a < b < sub_joins(l, r).len() ==> precedes(
                #[trigger] sub_joins(l, r)[a],
                #[trigger] sub_joins(l, r)[b],
                l,
            ),
{
    let all = sub_joins(l, r);
    let pairs = paired(keyed(l), keyed(r));
    let left = if has_unkeyed(l) {
        seq![SubJoin::<u64>::LeftUnkeyedVsAllRight]
    } else {
        Seq::empty()
    };
    let right = if has_unkeyed(r) && keyed(l).len() > 0 {
        seq![SubJoin::<u64>::RightUnkeyedVsKeyedLeft]
    } else {
        Seq::empty()
    };
    let base = (left + right).len() as int;
    assert(all == left + right + pairs.map_values(|k: u64| SubJoin::KeyedPair(k)));
    assert forall|a: int, b: int| 0 <= a < b < all.len() implies precedes(
        #[trigger] all[a],
        #[trigger] all[b],
        l,
    ) by {
        if b >= base {
            assert(all[b] == SubJoin::KeyedPair(pairs[b - base]));
            if a >= base {
                let (x, y) = (pairs[a - base], pairs[b - base]);
                assert(all[a] == SubJoin::KeyedPair(x));
                pairs_keep_their_order(keyed(l), keyed(r), a - base, b - base);
                let (i, j) = choose|i: int, j: int| #[trigger] are_listed(keyed(l), x, y, i, j);
                values_keep_their_order(l, i, j);
                assert(keyed(l)[i] == x && keyed(l)[j] == y);
                assert(are_in_order(l, x, y));
            } else {
                assert(all[a] == if a < left.len() {
                    left[a]
                } else {
                    right[a - left.len()]
                });
            }
        } else {
            assert(a == 0 && b == 1);
            assert(left.len() == 1 && right.len() == 1);
            assert(all[0] == left[0] && all[1] == right[0]);
        }
    }
}

/// The task at `t` is of the first group, and none up to it is of the second.
pub open spec fn comes_first(
    tasks: Seq<Arc<ScanTask>>,
    col: Seq<char>,
    first: Option<u64>,
    second: Option<u64>,
    t: int,
) -> bool {
    &&& 0 <= t < tasks.len()
    &&& belongs(tasks[t], col, first)
    &&& forall|s: int| 0 <= s <= t ==> !belongs(#[trigger] tasks[s], col, second)
}

proof fn belonging_is_having_the_key(task: Arc<ScanTask>, col: Seq<char>, key: Option<u64>)
    ensures
        belongs(task, col, key) <==> task_key(task, col) == key,
{
    partition_value_is_of_the_named_column(task, col);
}

proof fn keys_are_of_tasks(tasks: Seq<Arc<ScanTask>>, col: Seq<char>, i: int) -> (t: int)
    requires
        0 <= i < group_keys(tasks, col).len(),
    ensures
        0 <= t < tasks.len(),
        task_key(tasks[t], col) == group_keys(tasks, col)[i],
    decreases tasks.len(),
{
    let init = tasks.drop_last();
    if i < group_keys(init, col).len() {
        keys_are_of_tasks(init, col, i)
    } else {
        tasks.len() - 1
    }
}

proof fn keys_come_in_order(tasks: Seq<Arc<ScanTask>>, col: Seq<char>, i: int, j: int)
    requires
        0 <= i < j < group_keys(tasks, col).len(),
    ensures
        exists|t: int| #[trigger]
            comes_first(tasks, col, group_keys(tasks, col)[i], group_keys(tasks, col)[j], t),
    decreases tasks.len(),
{
    let init = tasks.drop_last();
    let (x, y) = (group_keys(tasks, col)[i], group_keys(tasks, col)[j]);
    if j < group_keys(init, col).len() {
        keys_come_in_order(init, col, i, j);
        let t = choose|t: int| #[trigger] comes_first(init, col, x, y, t);
        assert forall|s: int| 0 <= s <= t implies !belongs(#[trigger] tasks[s], col, y) by {
            assert(init[s] == tasks[s]);
        }
        assert(comes_first(tasks, col, x, y, t));
    } else {
        let t = keys_are_of_tasks(init, col, i);
        group_keys_are_complete(init, col);
        belonging_is_having_the_key(tasks[t], col, x);
        assert forall|s: int| 0 <= s <= t implies !belongs(#[trigger] tasks[s], col, y) by {
            belonging_is_having_the_key(tasks[s], col, y);
            assert(init[s] == tasks[s]);
            assert(group_keys(init, col).contains(task_key(init[s], col)));
        }
        assert(comes_first(tasks, col, x, y, t));
    }
}

/// Groups come in the order in which their first tasks do.
pub proof fn groups_come_in_the_order_of_their_first_tasks(
    groups: Seq<TaskGroup>,
    tasks: Seq<Arc<ScanTask>>,
    col: Seq<char>,
)
    requires
        are_groups_of(groups, tasks, col),
    ensures
        forall|i: int, j: int|
            0 <= i < j < groups.len() ==> exists|t: int| #[trigger]
                comes_first(
                    tasks,
                    col,
                    (#[trigger] groups[i]).key,
                    (#[trigger] groups[j]).key,
                    t,
                ),
{
    let keys = keys_of(groups);
    assert forall|i: int, j: int| 0 <= i < j < groups.len() implies exists|t: int| #[trigger]
        comes_first(tasks, col, (#[trigger] groups[i]).key, (#[trigger] groups[j]).key, t) by {
        assert(keys[i] == groups[i].key && keys[j] == groups[j].key);
        keys_come_in_order(tasks, col, i, j);
    }
}

/// Some task belongs to the group of that key.
pub open spec fn some_belongs(tasks: Seq<Arc<ScanTask>>, col: Seq<char>, key: Option<u64>) -> bool {
    exists|t: int| 0 <= t < tasks.len() && belongs(#[trigger] tasks[t], col, key)
}

proof fn keys_are_those_of_tasks(tasks: Seq<Arc<ScanTask>>, col: Seq<char>, key: Option<u64>)
    ensures
        group_keys(tasks, col).contains(key) <==> some_belongs(tasks, col, key),
{
    let keys = group_keys(tasks, col);
    group_keys_are_complete(tasks, col);
    if keys.contains(key) {
        let i = choose|i: int| 0 <= i < keys.len() && keys[i] == key;
        let t = keys_are_of_tasks(tasks, col, i);
        belonging_is_having_the_key(tasks[t], col, key);
    }
    if some_belongs(tasks, col, key) {
        let t = choose|t: int| 0 <= t < tasks.len() && belongs(#[trigger] tasks[t], col, key);
        belonging_is_having_the_key(tasks[t], col, key);
    }
}

/// There are tasks for the sub-join: left tasks without a value; right tasks without a value, and left tasks
/// with one; or tasks of both sides with the value.
pub open spec fn is_called_for(
    sub: SubJoin<u64>,
    l: Seq<Arc<ScanTask>>,
    r: Seq<Arc<ScanTask>>,
    col: Seq<char>,
) -> bool {
    match sub {
        SubJoin::LeftUnkeyedVsAllRight => some_belongs(l, col, None),
        SubJoin::RightUnkeyedVsKeyedLeft => some_belongs(r, col, None) && has_some_value(l, col),
        SubJoin::KeyedPair(k) => some_belongs(l, col, Some(k)) && some_belongs(r, col, Some(k)),
    }
}

/// Some task has a value for the column.
pub open spec fn has_some_value(tasks: Seq<Arc<ScanTask>>, col: Seq<char>) -> bool {
    exists|v: u64| #[trigger] some_belongs(tasks, col, Some(v))
}

/// Both sides have values for the column, and none in common.
pub open spec fn have_no_common_value(
    l: Seq<Arc<ScanTask>>,
    r: Seq<Arc<ScanTask>>,
    col: Seq<char>,
) -> bool {
    &&& has_some_value(l, col)
    &&& has_some_value(r, col)
    &&& forall|v: u64| !(#[trigger] some_belongs(l, col, Some(v)) && some_belongs(r, col, Some(v)))
}

/// The equality at `i` is the first that compares a partition column of both sides with itself.
pub open spec fn is_first_compared(
    join: Join,
    l_names: Seq<Seq<char>>,
    r_names: Seq<Seq<char>>,
    i: int,
    col: Seq<char>,
) -> bool {
    let (le, re) = (join.on.left_eq@, join.on.right_eq@);
    &&& compares_partition_column(l_names, r_names, le, re, i, col)
    &&& forall|j: int, other: Seq<char>|
        0 <= j < i ==> !#[trigger] compares_partition_column(l_names, r_names, le, re, j, other)
}

proof fn planned_sub_joins_are_those_called_for(
    l: Seq<Arc<ScanTask>>,
    r: Seq<Arc<ScanTask>>,
    col: Seq<char>,
)
    ensures
        forall|sub: SubJoin<u64>| #[trigger]
            sub_joins(group_keys(l, col), group_keys(r, col)).contains(sub) <==> is_called_for(
                sub,
                l,
                r,
                col,
            ),
        mismatched(group_keys(l, col), group_keys(r, col)) <==> have_no_common_value(l, r, col),
{
    let lk = group_keys(l, col);
    let rk = group_keys(r, col);
    planned_sub_joins_are_those_of_shared_values(lk, rk);
    assert forall|key: Option<u64>| lk.contains(key) == #[trigger] some_belongs(l, col, key) by {
        keys_are_those_of_tasks(l, col, key);
    }
    assert forall|key: Option<u64>| rk.contains(key) == #[trigger] some_belongs(r, col, key) by {
        keys_are_those_of_tasks(r, col, key);
    }
    assert((exists|k: u64| #[trigger] lk.contains(Some(k))) == has_some_value(l, col)) by {
        if has_some_value(l, col) {
            let v = choose|v: u64| #[trigger] some_belongs(l, col, Some(v));
            assert(lk.contains(Some(v)));
        }
        if exists|k: u64| #[trigger] lk.contains(Some(k)) {
            let k = choose|k: u64| #[trigger] lk.contains(Some(k));
            assert(some_belongs(l, col, Some(k)));
        }
    }
    assert((exists|k: u64| #[trigger] rk.contains(Some(k))) == has_some_value(r, col)) by {
        if has_some_value(r, col) {
            let v = choose|v: u64| #[trigger] some_belongs(r, col, Some(v));
            assert(rk.contains(Some(v)));
        }
        if exists|k: u64| #[trigger] rk.contains(Some(k)) {
            let k = choose|k: u64| #[trigger] rk.contains(Some(k));
            assert(some_belongs(r, col, Some(k)));
        }
    }
    assert forall|sub: SubJoin<u64>| #[trigger] sub_joins(lk, rk).contains(sub) <==> is_called_for(
        sub,
        l,
        r,
        col,
    ) by {
        match sub {
            SubJoin::KeyedPair(k) => {
                assert(lk.contains(Some(k)) == some_belongs(l, col, Some(k)));
                assert(rk.contains(Some(k)) == some_belongs(r, col, Some(k)));
            },
            _ => {
                assert(lk.contains(None) == some_belongs(l, col, None));
                assert(rk.contains(None) == some_belongs(r, col, None));
            },
        }
    }
    if mismatched(lk, rk) {
        assert forall|v: u64| !(#[trigger] some_belongs(l, col, Some(v)) && some_belongs(
            r,
            col,
            Some(v),
        )) by {
            assert(lk.contains(Some(v)) == some_belongs(l, col, Some(v)));
            assert(rk.contains(Some(v)) == some_belongs(r, col, Some(v)));
        }
    } else if have_no_common_value(l, r, col) {
        let k = choose|k: u64| #[trigger] lk.contains(Some(k)) && rk.contains(Some(k));
        assert(some_belongs(l, col, Some(k)) && some_belongs(r, col, Some(k)));
    }
}

/// A join of two partitioned scans is split exactly where it is an inner join, the two sides do not both have
/// values without having one in common, and there are tasks for two sub-joins at least.
pub proof fn joins_are_split_where_two_parts_are_called_for(
    join: Join,
    l: Seq<Arc<ScanTask>>,
    r: Seq<Arc<ScanTask>>,
    l_names: Seq<Seq<char>>,
    r_names: Seq<Seq<char>>,
    i: int,
    col: Seq<char>,
)
    requires
        is_partitioned_scan(*join.left, l, l_names),
        is_partitioned_scan(*join.right, r, r_names),
        is_first_compared(join, l_names, r_names, i, col),
    ensures
        split(join) is Some <==> join.join_type == JoinType::Inner && !have_no_common_value(
            l,
            r,
            col,
        ) && exists|a: SubJoin<u64>, b: SubJoin<u64>|
            a != b && #[trigger] is_called_for(a, l, r, col) && #[trigger] is_called_for(
                b,
                l,
                r,
                col,
            ),
{
    let (le, re) = (join.on.left_eq@, join.on.right_eq@);
    shared_column_is_the_first_compared(l_names, r_names, le, re, 0);
    let (_, li) = scan_parts(join.left)->0;
    let (_, ri) = scan_parts(join.right)->0;
    assert(l_names =~= li.partitioning_keys@.map_values(|f: Field| f.name@));
    assert(r_names =~= ri.partitioning_keys@.map_values(|f: Field| f.name@));
    match shared_key_from(l_names, r_names, le, re, 0) {
        Some(name) => {
            let k = choose|k: int|
                {
                    &&& 0 <= k
                    &&& #[trigger] compares_partition_column(l_names, r_names, le, re, k, name)
                    &&& forall|j: int, other: Seq<char>|
                        0 <= j < k ==> !#[trigger] compares_partition_column(
                            l_names,
                            r_names,
                            le,
                            re,
                            j,
                            other,
                        )
                };
            assert(k == i);
            assert(name == col);
        },
        None => {},
    }
    let (lk, rk) = (group_keys(l, col), group_keys(r, col));
    let all = sub_joins(lk, rk);
    planned_sub_joins_are_those_called_for(l, r, col);
    planned_sub_joins_are_those_of_shared_values(lk, rk);
    group_keys_are_complete(l, col);
    assert(task_sub_joins(l, r, col).len() == all.len());
    if all.len() >= 2 {
        assert(all.contains(all[0]) && all.contains(all[1]));
        assert(all[0] != all[1]);
        assert(is_called_for(all[0], l, r, col) && is_called_for(all[1], l, r, col));
    }
    if exists|a: SubJoin<u64>, b: SubJoin<u64>|
        a != b && #[trigger] is_called_for(a, l, r, col) && #[trigger] is_called_for(b, l, r, col) {
        let (a, b) = choose|a: SubJoin<u64>, b: SubJoin<u64>|
            a != b && #[trigger] is_called_for(a, l, r, col) && #[trigger] is_called_for(
                b,
                l,
                r,
                col,
            );
        assert(all.contains(a) && all.contains(b));
        let x = choose|x: int| 0 <= x < all.len() && all[x] == a;
        let y = choose|y: int| 0 <= y < all.len() && all[y] == b;
        assert(all.len() >= 2);
    }
}

/// The plan is a materialized scan with partition columns.
pub open spec fn is_some_partitioned_scan(plan: LogicalPlan) -> bool {
    exists|tasks: Seq<Arc<ScanTask>>, names: Seq<Seq<char>>| #[trigger]
        is_partitioned_scan(plan, tasks, names)
}

/// A join is left alone where a side is not a materialized scan with partition columns.
pub proof fn joins_of_other_plans_are_left_alone(join: Join)
    requires
        split(join) is Some,
    ensures
        is_some_partitioned_scan(*join.left),
        is_some_partitioned_scan(*join.right),
{
    let (_, li) = scan_parts(join.left)->0;
    let (_, ri) = scan_parts(join.right)->0;
    let ln = li.partitioning_keys@.map_values(|f: Field| f.name@);
    let rn = ri.partitioning_keys@.map_values(|f: Field| f.name@);
    match (li.scan_state, ri.scan_state) {
        (ScanState::Tasks(lt), ScanState::Tasks(rt)) => {
            assert(is_partitioned_scan(*join.left, lt@, ln));
            assert(is_partitioned_scan(*join.right, rt@, rn));
        },
        _ => {},
    }
}

/// A join is left alone where no equality compares a partition column of both sides with itself.
pub proof fn joins_on_other_columns_are_left_alone(
    join: Join,
    l: Seq<Arc<ScanTask>>,
    r: Seq<Arc<ScanTask>>,
    l_names: Seq<Seq<char>>,
    r_names: Seq<Seq<char>>,
)
    requires
        is_partitioned_scan(*join.left, l, l_names),
        is_partitioned_scan(*join.right, r, r_names),
        forall|j: int, col: Seq<char>| !#[trigger]
            compares_partition_column(
                l_names,
                r_names,
                join.on.left_eq@,
                join.on.right_eq@,
                j,
                col,
            ),
    ensures
        split(join) is None,
{
    let (_, li) = scan_parts(join.left)->0;
    let (_, ri) = scan_parts(join.right)->0;
    assert(l_names =~= li.partitioning_keys@.map_values(|f: Field| f.name@));
    assert(r_names =~= ri.partitioning_keys@.map_values(|f: Field| f.name@));
    shared_column_is_the_first_compared(
        l_names,
        r_names,
        join.on.left_eq@,
        join.on.right_eq@,
        0,
    );
}

/// The left tasks with a value are listed group by group, in the order of the groups: those of one group
/// are the tasks of its value in their order, those of several groups follow each other, and the tasks
/// without a value are not among them.
pub proof fn keyed_tasks_are_listed_by_group(
    tasks: Seq<Arc<ScanTask>>,
    col: Seq<char>,
    a: Seq<Option<u64>>,
    b: Seq<Option<u64>>,
    v: u64,
)
    ensures
        keyed_tasks(tasks, col, a + b) == keyed_tasks(tasks, col, a) + keyed_tasks(tasks, col, b),
        keyed_tasks(tasks, col, seq![Some(v)]) == tasks.filter(
            |t: Arc<ScanTask>| belongs(t, col, Some(v)),
        ),
        keyed_tasks(tasks, col, seq![None::<u64>]) == Seq::<Arc<ScanTask>>::empty(),
    decreases b.len(),
{
    let none = Seq::<Arc<ScanTask>>::empty();
    if b.len() == 0 {
        assert(a + b =~= a);
        assert(keyed_tasks(tasks, col, a) + keyed_tasks(tasks, col, b) =~= keyed_tasks(
            tasks,
            col,
            a,
        ));
    } else {
        keyed_tasks_are_listed_by_group(tasks, col, a, b.drop_last(), v);
        assert((a + b).drop_last() =~= a + b.drop_last());
        assert((a + b).last() == b.last());
        assert(keyed_tasks(tasks, col, a + b) =~= keyed_tasks(tasks, col, a) + keyed_tasks(
            tasks,
            col,
            b,
        ));
    }
    let one = seq![Some(v)];
    assert(one.drop_last() =~= Seq::empty());
    assert(keyed_tasks(tasks, col, one.drop_last()) =~= none);
    tasks_with_are_filtered(tasks, col, Some(v));
    assert(none + tasks_with(tasks, col, Some(v)) =~= tasks_with(tasks, col, Some(v)));
    let absent = seq![None::<u64>];
    assert(absent.drop_last() =~= Seq::empty());
    assert(keyed_tasks(tasks, col, absent.drop_last()) =~= none);
}

/// The plan scans what the other does, but for the tasks: its schemas, partition columns and pushdowns are
/// those of the other.
pub open spec fn scans_alike(plan: LogicalPlan, other: LogicalPlan) -> bool {
    match (plan, other) {
        (LogicalPlan::Source(s), LogicalPlan::Source(o)) => s.output_schema == o.output_schema
            && match (*s.source_info, *o.source_info) {
            (SourceInfo::Physical(p), SourceInfo::Physical(q)) => p.source_schema
                == q.source_schema && p.partitioning_keys == q.partitioning_keys && p.pushdowns
                == q.pushdowns,
            _ => false,
        },
        _ => false,
    }
}

/// The plan consists of joins that are like the given one in everything but the tasks that they scan, one
/// behind the other.
pub open spec fn consists_of_joins_like(plan: LogicalPlan, join: Join) -> bool
    decreases plan,
{
    match plan {
        LogicalPlan::Join(j) => {
            &&& j.on == join.on
            &&& j.join_type == join.join_type
            &&& j.join_strategy == join.join_strategy
            &&& j.output_schema == join.output_schema
            &&& scans_alike(*j.left, *join.left)
            &&& scans_alike(*j.right, *join.right)
        },
        LogicalPlan::Concat(c) => {
            &&& c.output_schema == join.output_schema
            &&& consists_of_joins_like(*c.input, join)
            &&& consists_of_joins_like(*c.other, join)
        },
        _ => false,
    }
}

proof fn concatenated_joins_are_alike(
    plan: Arc<LogicalPlan>,
    join: Join,
    parts: Seq<(Seq<Arc<ScanTask>>, Seq<Arc<ScanTask>>)>,
)
    requires
        is_concat_of(*plan, join, parts),
    ensures
        consists_of_joins_like(*plan, join),
    decreases parts.len(),
{
    if parts.len() > 1 {
        match *plan {
            LogicalPlan::Concat(c) => {
                concatenated_joins_are_alike(c.input, join, parts.drop_last());
                concatenated_joins_are_alike(c.other, join, seq![parts.last()]);
            },
            _ => {},
        }
    }
}

/// A join is split into joins that are like it in everything but the tasks that they scan: predicate, type,
/// strategy and schema, and the schemas, partition columns and pushdowns of its scans.
pub proof fn split_joins_are_like_the_join(plan: Arc<LogicalPlan>, out: Arc<LogicalPlan>)
    requires
        optimized(*plan, *out),
    ensures
        *plan matches LogicalPlan::Join(join) ==> split(join) is Some ==> consists_of_joins_like(
            *out,
            join,
        ),
{
    match *plan {
        LogicalPlan::Join(join) => {
            if split(join) is Some {
                concatenated_joins_are_alike(out, join, split(join)->0);
            }
        },
        _ => {},
    }
}

/// No join anywhere in the plan can be split.
pub open spec fn has_no_join_to_split(plan: LogicalPlan) -> bool
    decreases plan,
{
    match plan {
        LogicalPlan::Source(_) => true,
        LogicalPlan::Join(j) => split(j) is None && has_no_join_to_split(*j.left)
            && has_no_join_to_split(*j.right),
        LogicalPlan::Concat(c) => has_no_join_to_split(*c.input) && has_no_join_to_split(*c.other),
        LogicalPlan::Other(op) => forall|k: int|
            0 <= k < op.children@.len() ==> has_no_join_to_split(*#[trigger] op.children@[k]),
    }
}

proof fn changes_are_joins_to_split(plan: Arc<LogicalPlan>)
    ensures
        changes(*plan) <==> !has_no_join_to_split(*plan),
    decreases *plan,
{
    match *plan {
        LogicalPlan::Source(_) => {},
        LogicalPlan::Join(j) => {
            changes_are_joins_to_split(j.left);
            changes_are_joins_to_split(j.right);
        },
        LogicalPlan::Concat(c) => {
            changes_are_joins_to_split(c.input);
            changes_are_joins_to_split(c.other);
        },
        LogicalPlan::Other(op) => {
            assert forall|k: int| 0 <= k < op.children@.len() implies (changes(
                *#[trigger] op.children@[k],
            ) <==> !has_no_join_to_split(*op.children@[k])) by {
                changes_are_joins_to_split(op.children@[k]);
            }
        },
    }
}

/// The rule leaves no join that it could split, wherever in the plan it stands; and a plan without such a
/// join stays as it is.
pub proof fn every_join_is_split_that_can_be(plan: Arc<LogicalPlan>, out: Arc<LogicalPlan>)
    requires
        optimized(*plan, *out),
    ensures
        has_no_join_to_split(*out),
        has_no_join_to_split(*plan) ==> *out == *plan,
        changes(*plan) <==> !has_no_join_to_split(*plan),
{
    one_pass_is_enough(plan, out);
    changes_are_joins_to_split(plan);
    changes_are_joins_to_split(out);
}

/// The second plan is the first but for the joins that are split: every other node is there with all that it
/// had besides its inputs, and a join that is split has given way to joins like it.
pub open spec fn is_kept(plan: LogicalPlan, out: LogicalPlan) -> bool
    decreases plan,
{
    match (plan, out) {
        (LogicalPlan::Source(_), _) => out == plan,
        (LogicalPlan::Join(j), _) if split(j) is Some => consists_of_joins_like(out, j),
        (LogicalPlan::Join(j), LogicalPlan::Join(o)) => {
            &&& o.on == j.on
            &&& o.join_type == j.join_type
            &&& o.join_strategy == j.join_strategy
            &&& o.output_schema == j.output_schema
            &&& is_kept(*j.left, *o.left)
            &&& is_kept(*j.right, *o.right)
        },
        (LogicalPlan::Concat(c), LogicalPlan::Concat(o)) => {
            &&& o.output_schema == c.output_schema
            &&& is_kept(*c.input, *o.input)
            &&& is_kept(*c.other, *o.other)
        },
        (LogicalPlan::Other(op), LogicalPlan::Other(o)) => {
            &&& o.name == op.name
            &&& o.output_schema == op.output_schema
            &&& o.children@.len() == op.children@.len()
            &&& forall|k: int|
                0 <= k < op.children@.len() ==> is_kept(
                    *op.children@[k],
                    *#[trigger] o.children@[k],
                )
        },
        _ => false,
    }
}

proof fn unchanged_plans_are_kept(plan: Arc<LogicalPlan>)
    requires
        !changes(*plan),
    ensures
        is_kept(*plan, *plan),
    decreases *plan,
{
    match *plan {
        LogicalPlan::Source(_) => {},
        LogicalPlan::Join(j) => {
            unchanged_plans_are_kept(j.left);
            unchanged_plans_are_kept(j.right);
        },
        LogicalPlan::Concat(c) => {
            unchanged_plans_are_kept(c.input);
            unchanged_plans_are_kept(c.other);
        },
        LogicalPlan::Other(op) => {
            assert forall|k: int| 0 <= k < op.children@.len() implies is_kept(
                *op.children@[k],
                *#[trigger] op.children@[k],
            ) by {
                unchanged_plans_are_kept(op.children@[k]);
            }
        },
    }
}

spec fn is_changed(plan: Arc<LogicalPlan>) -> bool {
    changes(*plan)
}

/// Whatever is not split stays as it is, all through the plan.
pub proof fn other_nodes_are_kept(plan: Arc<LogicalPlan>, out: Arc<LogicalPlan>)
    requires
        optimized(*plan, *out),
    ensures
        is_kept(*plan, *out),
    decreases *plan,
{
    if !is_changed(plan) {
        unchanged_plans_are_kept(plan);
    } else {
        split_joins_are_like_the_join(plan, out);
        match *plan {
            LogicalPlan::Join(j) => {
                if split(j) is None {
                    match *out {
                        LogicalPlan::Join(o) => {
                            other_nodes_are_kept(j.left, o.left);
                            other_nodes_are_kept(j.right, o.right);
                        },
                        _ => {},
                    }
                }
            },
            LogicalPlan::Concat(c) => match *out {
                LogicalPlan::Concat(o) => {
                    other_nodes_are_kept(c.input, o.input);
                    other_nodes_are_kept(c.other, o.other);
                },
                _ => {},
            },
            LogicalPlan::Other(op) => match *out {
                LogicalPlan::Other(o) => {
                    assert forall|k: int| 0 <= k < op.children@.len() implies is_kept(
                        *op.children@[k],
                        *#[trigger] o.children@[k],
                    ) by {
                        other_nodes_are_kept(op.children@[k], o.children@[k]);
                    }
                },
                _ => {},
            },
            LogicalPlan::Source(_) => {},
        }
    }
}

} // verus!
