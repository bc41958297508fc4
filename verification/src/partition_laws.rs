//! What a split join is for: tasks are told apart by the value of the column they are joined on, and the
//! rows of a plan stay as they were.
use std::sync::Arc;
use vstd::multiset::Multiset;
use vstd::prelude::*;
use vstd::std_specs::cmp::PartialEqSpec;

use crate::collocated_join::{
    are_groups_of, changes, col_name, first_value, group_keys, group_keys_are_complete,
    is_concat_of, is_source_with, is_sub_join, keyed, keyed_lists_present, keys_of, mismatched,
    occurs, optimized, paired, shared_key_from, shares_key, split, sub_joins, task_key,
    task_sub_joins, tasks_with, SubJoin, TaskGroup,
};
use crate::collocated_laws::{
    concat_rows, is_equality, join_rows, respects_equalities, split_keeps_every_row, task_rows,
    tasks_on_left, tasks_on_right, tells_apart,
};
use crate::expr::{Column, Expr, ResolvedColumn};
use crate::local_plan::JoinType;
use crate::logical_plan::{
    Join, JoinPredicate, LogicalPlan, PartitionKey, PhysicalScanInfo, ScanState, ScanTask, Source,
    SourceInfo,
};
use crate::schema::{Field, Schema};

verus! {

/// The first partition column of that name has that value.
pub open spec fn first_has_value(keys: Seq<PartitionKey>, col: Seq<char>, value: u64) -> bool {
    exists|k: int|
        {
            &&& 0 <= k < keys.len()
            &&& (#[trigger] keys[k]).name@ == col
            &&& keys[k].value == value
            &&& forall|j: int| 0 <= j < k ==> (#[trigger] keys[j]).name@ != col
        }
}

/// The task has that value for the column.
pub open spec fn has_value(task: Arc<ScanTask>, col: Seq<char>, value: u64) -> bool {
    match task.partition_spec {
        Some(spec) => first_has_value(spec.keys@, col, value),
        None => false,
    }
}

/// The task has no partition column of that name.
pub open spec fn has_no_value(task: Arc<ScanTask>, col: Seq<char>) -> bool {
    match task.partition_spec {
        Some(spec) => forall|k: int|
            0 <= k < spec.keys@.len() ==> (#[trigger] spec.keys@[k]).name@ != col,
        None => true,
    }
}

proof fn first_value_is_of_the_name(keys: Seq<PartitionKey>, col: Seq<char>)
    ensures
        match first_value(keys, col) {
            Some(v) => first_has_value(keys, col, v),
            None => forall|k: int| 0 <= k < keys.len() ==> (#[trigger] keys[k]).name@ != col,
        },
    decreases keys.len(),
{
    if keys.len() > 0 {
        let init = keys.drop_last();
        first_value_is_of_the_name(init, col);
        assert forall|j: int| 0 <= j < init.len() implies init[j] == #[trigger] keys[j] by {}
        match first_value(init, col) {
            Some(v) => {
                let k = choose|k: int|
                    {
                        &&& 0 <= k < init.len()
                        &&& (#[trigger] init[k]).name@ == col
                        &&& init[k].value == v
                        &&& forall|j: int| 0 <= j < k ==> (#[trigger] init[j]).name@ != col
                    };
                assert forall|j: int| 0 <= j < k implies (#[trigger] keys[j]).name@ != col by {
                    assert(init[j] == keys[j]);
                }
                assert(keys[k].name@ == col && keys[k].value == v);
            },
            None => {
                assert forall|j: int| 0 <= j < init.len() implies (#[trigger] keys[j]).name@
                    != col by {
                    assert(init[j] == keys[j]);
                }
                assert(keys[keys.len() - 1] == keys.last());
                if keys.last().name@ == col {
                    assert(keys[keys.len() - 1].name@ == col);
                }
            },
        }
    }
}

proof fn one_first_value(keys: Seq<PartitionKey>, col: Seq<char>, a: u64, b: u64)
    requires
        first_has_value(keys, col, a),
        first_has_value(keys, col, b),
    ensures
        a == b,
{
    let i = choose|k: int|
        {
            &&& 0 <= k < keys.len()
            &&& (#[trigger] keys[k]).name@ == col
            &&& keys[k].value == a
            &&& forall|j: int| 0 <= j < k ==> (#[trigger] keys[j]).name@ != col
        };
    let k = choose|k: int|
        {
            &&& 0 <= k < keys.len()
            &&& (#[trigger] keys[k]).name@ == col
            &&& keys[k].value == b
            &&& forall|j: int| 0 <= j < k ==> (#[trigger] keys[j]).name@ != col
        };
    if i < k {
        assert(keys[i].name@ == col);
    } else if k < i {
        assert(keys[k].name@ == col);
    }
}

/// The partition value of a task for a column is that of the task's first partition column of that name,
/// and there is none exactly where no partition column has the name.
pub proof fn partition_value_is_of_the_named_column(task: Arc<ScanTask>, col: Seq<char>)
    ensures
        forall|v: u64| #[trigger] has_value(task, col, v) <==> task_key(task, col) == Some(v),
        has_no_value(task, col) <==> task_key(task, col) is None,
{
    match task.partition_spec {
        Some(spec) => {
            let keys = spec.keys@;
            first_value_is_of_the_name(keys, col);
            assert forall|v: u64| #[trigger] has_value(task, col, v) <==> task_key(task, col) == Some(
                v,
            ) by {
                if has_value(task, col, v) {
                    match first_value(keys, col) {
                        Some(w) => one_first_value(keys, col, v, w),
                        None => {},
                    }
                }
            }
            if has_no_value(task, col) {
                match first_value(keys, col) {
                    Some(w) => {
                        let k = choose|k: int|
                            0 <= k < keys.len() && (#[trigger] keys[k]).name@ == col;
                        assert(keys[k].name@ != col);
                    },
                    None => {},
                }
            }
        },
        None => {},
    }
}

/// The task belongs to the group of that key.
pub open spec fn belongs(task: Arc<ScanTask>, col: Seq<char>, key: Option<u64>) -> bool {
    match key {
        Some(v) => has_value(task, col, v),
        None => has_no_value(task, col),
    }
}

pub(crate) proof fn tasks_with_are_filtered(tasks: Seq<Arc<ScanTask>>, col: Seq<char>, key: Option<u64>)
    ensures
        tasks_with(tasks, col, key) == tasks.filter(|t: Arc<ScanTask>| belongs(t, col, key)),
    decreases tasks.len(),
{
    reveal(Seq::filter);
    if tasks.len() > 0 {
        tasks_with_are_filtered(tasks.drop_last(), col, key);
        partition_value_is_of_the_named_column(tasks.last(), col);
    }
    assert(tasks_with(tasks, col, key) =~= tasks.filter(
        |t: Arc<ScanTask>| belongs(t, col, key),
    ));
}

/// Grouping tasks by a column puts every task into the group of its own value for that column, in the
/// order of the tasks; there is one group for each value, and none is empty.
pub proof fn groups_hold_the_tasks_of_their_value(
    groups: Seq<TaskGroup>,
    tasks: Seq<Arc<ScanTask>>,
    col: Seq<char>,
)
    requires
        are_groups_of(groups, tasks, col),
    ensures
        forall|i: int|
            0 <= i < groups.len() ==> (#[trigger] groups[i]).tasks@ == tasks.filter(
                |t: Arc<ScanTask>| belongs(t, col, groups[i].key),
            ),
        forall|i: int, j: int|
            0 <= i < j < groups.len() ==> (#[trigger] groups[i]).key != (#[trigger] groups[j]).key,
        forall|t: int|
            0 <= t < tasks.len() ==> exists|i: int|
                0 <= i < groups.len() && belongs(
                    #[trigger] tasks[t],
                    col,
                    (#[trigger] groups[i]).key,
                ),
        forall|i: int| 0 <= i < groups.len() ==> (#[trigger] groups[i]).tasks@.len() > 0,
{
    group_keys_are_complete(tasks, col);
    let keys = group_keys(tasks, col);
    assert forall|i: int| 0 <= i < groups.len() implies keys[i] == (#[trigger] groups[i]).key by {
        assert(keys_of(groups)[i] == groups[i].key);
    }
    assert forall|i: int| 0 <= i < groups.len() implies (#[trigger] groups[i]).tasks@
        == tasks.filter(|t: Arc<ScanTask>| belongs(t, col, groups[i].key)) by {
        tasks_with_are_filtered(tasks, col, groups[i].key);
    }
    assert forall|i: int, j: int| 0 <= i < j < groups.len() implies (#[trigger] groups[i]).key != (
    #[trigger] groups[j]).key by {
        assert(keys[i] != keys[j]);
    }
    assert forall|t: int| 0 <= t < tasks.len() implies exists|i: int|
        0 <= i < groups.len() && belongs(#[trigger] tasks[t], col, (#[trigger] groups[i]).key) by {
        let key = task_key(tasks[t], col);
        assert(keys.contains(key));
        let i = choose|i: int| 0 <= i < keys.len() && keys[i] == key;
        partition_value_is_of_the_named_column(tasks[t], col);
        assert(groups[i].key == key);
    }
    assert forall|i: int| 0 <= i < groups.len() implies (#[trigger] groups[i]).tasks@.len() > 0 by {
        assert(keys[i] == groups[i].key);
        listed_keys_have_tasks(tasks, col, i);
    }
}

proof fn listed_keys_have_tasks(tasks: Seq<Arc<ScanTask>>, col: Seq<char>, i: int)
    requires
        0 <= i < group_keys(tasks, col).len(),
    ensures
        tasks_with(tasks, col, group_keys(tasks, col)[i]).len() > 0,
    decreases tasks.len(),
{
    let init = tasks.drop_last();
    if i < group_keys(init, col).len() {
        listed_keys_have_tasks(init, col, i);
    }
}

/// The value is a key of a group.
proof fn value_is_listed(tasks: Seq<Arc<ScanTask>>, col: Seq<char>, t: int, value: u64)
    requires
        0 <= t < tasks.len(),
        has_value(tasks[t], col, value),
    ensures
        group_keys(tasks, col).contains(Some(value)),
{
    group_keys_are_complete(tasks, col);
    partition_value_is_of_the_named_column(tasks[t], col);
}

proof fn listed_value_is_of_a_task(tasks: Seq<Arc<ScanTask>>, col: Seq<char>, value: u64) -> (t: int)
    requires
        group_keys(tasks, col).contains(Some(value)),
    ensures
        0 <= t < tasks.len(),
        has_value(tasks[t], col, value),
    decreases tasks.len(),
{
    let init = tasks.drop_last();
    let keys = group_keys(tasks, col);
    let w = choose|w: int| 0 <= w < keys.len() && keys[w] == Some(value);
    if tasks.len() > 0 && w < group_keys(init, col).len() {
        assert(group_keys(init, col)[w] == Some(value));
        listed_value_is_of_a_task(init, col, value)
    } else {
        partition_value_is_of_the_named_column(tasks.last(), col);
        tasks.len() - 1
    }
}

proof fn paired_values(l: Seq<u64>, r: Seq<u64>, k: u64)
    ensures
        paired(l, r).contains(k) <==> l.contains(k) && r.contains(k),
    decreases l.len(),
{
    if l.len() > 0 {
        let init = l.drop_last();
        paired_values(init, r, k);
        let all = paired(l, r);
        let before = paired(init, r);
        assert(l[l.len() - 1] == l.last());
        if l.contains(k) && k != l.last() {
            let w = choose|w: int| 0 <= w < l.len() && l[w] == k;
            assert(init[w] == k);
        }
        if init.contains(k) {
            let w = choose|w: int| 0 <= w < init.len() && init[w] == k;
            assert(l[w] == k);
        }
        if before.contains(k) {
            let w = choose|w: int| 0 <= w < before.len() && before[w] == k;
            assert(all[w] == k);
        }
        if occurs(l.last(), r) {
            let j = choose|j: int| 0 <= j < r.len() && l.last().eq_spec(&#[trigger] r[j]);
            assert(r[j] == l.last());
            assert(all[before.len() as int] == l.last());
            if all.contains(k) && k != l.last() {
                let w = choose|w: int| 0 <= w < all.len() && all[w] == k;
                assert(before[w] == k);
            }
        } else if r.contains(l.last()) {
            let j = choose|j: int| 0 <= j < r.len() && r[j] == l.last();
            assert(l.last().eq_spec(&r[j]));
        }
    }
}

proof fn keyed_exist(keys: Seq<Option<u64>>)
    ensures
        keyed(keys).len() > 0 <==> exists|k: u64| #[trigger] keys.contains(Some(k)),
{
    if keyed(keys).len() > 0 {
        let k = keyed(keys)[0];
        assert(keyed(keys).contains(k));
        keyed_lists_present(keys, k);
    }
    if exists|k: u64| #[trigger] keys.contains(Some(k)) {
        let k = choose|k: u64| #[trigger] keys.contains(Some(k));
        keyed_lists_present(keys, k);
    }
}

proof fn paired_once(l: Seq<u64>, r: Seq<u64>)
    requires
        l.no_duplicates(),
    ensures
        paired(l, r).no_duplicates(),
    decreases l.len(),
{
    if l.len() > 0 {
        let init = l.drop_last();
        paired_once(init, r);
        let before = paired(init, r);
        paired_values(init, r, l.last());
        assert(!init.contains(l.last())) by {
            if init.contains(l.last()) {
                let w = choose|w: int| 0 <= w < init.len() && init[w] == l.last();
                assert(l[w] == l[l.len() - 1]);
            }
        }
        assert forall|i: int, j: int| 0 <= i < j < paired(l, r).len() implies paired(l, r)[i]
            != paired(l, r)[j] by {
            if j < before.len() {
                assert(before[i] != before[j]);
            } else {
                assert(before.contains(before[i]));
            }
        }
    }
}

proof fn keyed_once(keys: Seq<Option<u64>>)
    requires
        keys.no_duplicates(),
    ensures
        keyed(keys).no_duplicates(),
    decreases keys.len(),
{
    if keys.len() > 0 {
        let init = keys.drop_last();
        keyed_once(init);
        match keys.last() {
            Some(k) => {
                keyed_lists_present(init, k);
                assert(!init.contains(Some(k))) by {
                    if init.contains(Some(k)) {
                        let w = choose|w: int| 0 <= w < init.len() && init[w] == Some(k);
                        assert(keys[w] == keys[keys.len() - 1]);
                    }
                }
                let before = keyed(init);
                assert forall|i: int, j: int| 0 <= i < j < keyed(keys).len() implies keyed(keys)[i]
                    != keyed(keys)[j] by {
                    if j < before.len() {
                        assert(before[i] != before[j]);
                    } else {
                        assert(before.contains(before[i]));
                    }
                }
            },
            None => {},
        }
    }
}

/// The sub-joins that are planned for the keys of two sides: one for each value that both sides have,
/// one for the left tasks without a value, and one for the right tasks without a value where there are
/// left tasks with one; each once. Nothing is planned exactly where both sides have values and no value
/// in common.
pub proof fn planned_sub_joins_are_those_of_shared_values(
    l: Seq<Option<u64>>,
    r: Seq<Option<u64>>,
)
    ensures
        forall|k: u64| #[trigger]
            sub_joins(l, r).contains(SubJoin::KeyedPair(k)) <==> l.contains(Some(k)) && r.contains(
                Some(k),
            ),
        sub_joins(l, r).contains(SubJoin::LeftUnkeyedVsAllRight) <==> l.contains(None),
        sub_joins(l, r).contains(SubJoin::RightUnkeyedVsKeyedLeft) <==> r.contains(None) && (exists|
            k: u64,
        | #[trigger] l.contains(Some(k))),
        l.no_duplicates() ==> sub_joins(l, r).no_duplicates(),
        mismatched(l, r) <==> {
            &&& exists|k: u64| #[trigger] l.contains(Some(k))
            &&& exists|k: u64| #[trigger] r.contains(Some(k))
            &&& !exists|k: u64| #[trigger] l.contains(Some(k)) && r.contains(Some(k))
        },
{
    let all = sub_joins(l, r);
    let pairs = paired(keyed(l), keyed(r));
    let base = all.len() - pairs.len();
    keyed_exist(l);
    keyed_exist(r);
    assert forall|i: int| 0 <= i < pairs.len() implies all[base + i] == SubJoin::KeyedPair(
        #[trigger] pairs[i],
    ) by {}
    assert forall|i: int| 0 <= i < base implies !(#[trigger] all[i] is KeyedPair) by {}
    assert forall|k: u64| #[trigger]
        all.contains(SubJoin::KeyedPair(k)) <==> l.contains(Some(k)) && r.contains(Some(k)) by {
        paired_values(keyed(l), keyed(r), k);
        keyed_lists_present(l, k);
        keyed_lists_present(r, k);
        if all.contains(SubJoin::KeyedPair(k)) {
            let w = choose|w: int| 0 <= w < all.len() && all[w] == SubJoin::KeyedPair(k);
            assert(pairs[w - base] == k);
        }
        if pairs.contains(k) {
            let w = choose|w: int| 0 <= w < pairs.len() && pairs[w] == k;
            assert(all[base + w] == SubJoin::KeyedPair(k));
        }
    }
    if l.contains(None) {
        let w = choose|w: int| 0 <= w < l.len() && l[w] == None::<u64>;
        assert(l[w] is None);
        assert(all[0] == SubJoin::<u64>::LeftUnkeyedVsAllRight);
    }
    if all.contains(SubJoin::LeftUnkeyedVsAllRight) {
        let w = choose|w: int|
            0 <= w < all.len() && all[w] == SubJoin::<u64>::LeftUnkeyedVsAllRight;
        assert(w < base);
        let v = choose|v: int| 0 <= v < l.len() && (#[trigger] l[v]) is None;
        assert(l[v] == None::<u64>);
    }
    if r.contains(None) && keyed(l).len() > 0 {
        let w = choose|w: int| 0 <= w < r.len() && r[w] == None::<u64>;
        assert(r[w] is None);
        assert(all[base - 1] == SubJoin::<u64>::RightUnkeyedVsKeyedLeft);
    }
    if all.contains(SubJoin::RightUnkeyedVsKeyedLeft) {
        let w = choose|w: int|
            0 <= w < all.len() && all[w] == SubJoin::<u64>::RightUnkeyedVsKeyedLeft;
        assert(w < base);
        let v = choose|v: int| 0 <= v < r.len() && (#[trigger] r[v]) is None;
        assert(r[v] == None::<u64>);
    }
    if l.no_duplicates() {
        keyed_once(l);
        paired_once(keyed(l), keyed(r));
        assert forall|i: int, j: int| 0 <= i < j < all.len() implies all[i] != all[j] by {
            if i >= base {
                assert(pairs[i - base] != pairs[j - base]);
            }
        }
    }
    if pairs.len() > 0 {
        let k = pairs[0];
        assert(pairs.contains(k));
        paired_values(keyed(l), keyed(r), k);
        keyed_lists_present(l, k);
        keyed_lists_present(r, k);
        assert(l.contains(Some(k)) && r.contains(Some(k)));
    }
    if exists|k: u64| #[trigger] l.contains(Some(k)) && r.contains(Some(k)) {
        let k = choose|k: u64| #[trigger] l.contains(Some(k)) && r.contains(Some(k));
        paired_values(keyed(l), keyed(r), k);
        keyed_lists_present(l, k);
        keyed_lists_present(r, k);
    }
}

/// The expression is a plain reference to the column of that name.
pub open spec fn is_column(expr: Expr, name: Seq<char>) -> bool {
    expr matches Expr::Column(Column::Resolved(ResolvedColumn::Basic(n))) && n@ == name
}

/// The equality at `i` of two lists of operands compares the column with itself, and both sides are
/// partitioned by it.
pub open spec fn compares_partition_column(
    l_pkeys: Seq<Seq<char>>,
    r_pkeys: Seq<Seq<char>>,
    l_eq: Seq<Arc<Expr>>,
    r_eq: Seq<Arc<Expr>>,
    i: int,
    name: Seq<char>,
) -> bool {
    &&& 0 <= i < l_eq.len()
    &&& i < r_eq.len()
    &&& is_column(*l_eq[i], name)
    &&& is_column(*r_eq[i], name)
    &&& l_pkeys.contains(name)
    &&& r_pkeys.contains(name)
}

/// The column that a join is split on is that of the first equality which compares a partition column of
/// both sides with itself; there is none exactly where no equality does.
pub proof fn shared_column_is_the_first_compared(
    l_pkeys: Seq<Seq<char>>,
    r_pkeys: Seq<Seq<char>>,
    l_eq: Seq<Arc<Expr>>,
    r_eq: Seq<Arc<Expr>>,
    from: nat,
)
    ensures
        match shared_key_from(l_pkeys, r_pkeys, l_eq, r_eq, from) {
            Some(name) => exists|i: int|
                {
                    &&& from <= i
                    &&& #[trigger] compares_partition_column(
                        l_pkeys,
                        r_pkeys,
                        l_eq,
                        r_eq,
                        i,
                        name,
                    )
                    &&& forall|j: int, other: Seq<char>|
                        from <= j < i ==> !#[trigger] compares_partition_column(
                            l_pkeys,
                            r_pkeys,
                            l_eq,
                            r_eq,
                            j,
                            other,
                        )
                },
            None => forall|j: int, other: Seq<char>|
                from <= j ==> !#[trigger] compares_partition_column(
                    l_pkeys,
                    r_pkeys,
                    l_eq,
                    r_eq,
                    j,
                    other,
                ),
        },
    decreases l_eq.len() - from,
{
    if from < l_eq.len() && from < r_eq.len() {
        let i = from as int;
        if shares_key(l_pkeys, r_pkeys, l_eq, r_eq, i) {
            let name = shared_key_from(l_pkeys, r_pkeys, l_eq, r_eq, from)->0;
            assert(compares_partition_column(l_pkeys, r_pkeys, l_eq, r_eq, i, name));
        } else {
            assert forall|other: Seq<char>|
                !#[trigger] compares_partition_column(l_pkeys, r_pkeys, l_eq, r_eq, i, other) by {}
            shared_column_is_the_first_compared(l_pkeys, r_pkeys, l_eq, r_eq, from + 1);
        }
    }
}

/// A row, as the values of its columns by name. Two values are the same number where they are equal.
pub type Row = Map<Seq<char>, u64>;

/// What the nodes of a plan give: the rows of one task of a scan, the rows of any other leaf, and what
/// joins and other nodes make of the rows of their inputs.
pub struct Evaluation {
    pub scan: spec_fn(Arc<Schema>, Arc<Schema>, Arc<Vec<Field>>, Seq<char>, Arc<ScanTask>) -> Multiset<
        Row,
    >,
    pub leaf: spec_fn(Source) -> Multiset<Row>,
    pub join: spec_fn(
        Arc<JoinPredicate>,
        JoinType,
        Arc<Schema>,
        Multiset<Row>,
        Multiset<Row>,
    ) -> Multiset<Row>,
    pub other: spec_fn(Seq<char>, Arc<Schema>, Seq<Multiset<Row>>) -> Multiset<Row>,
}

/// The rows of the tasks of a scan together.
pub open spec fn scanned(
    m: Evaluation,
    output: Arc<Schema>,
    info: PhysicalScanInfo,
    tasks: Seq<Arc<ScanTask>>,
) -> Multiset<Row>
    decreases tasks.len(),
{
    if tasks.len() == 0 {
        Multiset::empty()
    } else {
        scanned(m, output, info, tasks.drop_last()).add(
            (m.scan)(
                output,
                info.source_schema,
                info.partitioning_keys,
                info.pushdowns@,
                tasks.last(),
            ),
        )
    }
}

/// The rows of a plan.
pub open spec fn plan_rows(plan: LogicalPlan, m: Evaluation) -> Multiset<Row>
    decreases plan,
{
    match plan {
        LogicalPlan::Source(s) => match *s.source_info {
            SourceInfo::Physical(info) => match info.scan_state {
                ScanState::Tasks(tasks) => scanned(m, s.output_schema, info, tasks@),
                ScanState::Operator(_) => (m.leaf)(s),
            },
            SourceInfo::Other(_) => (m.leaf)(s),
        },
        LogicalPlan::Join(j) => (m.join)(
            j.on,
            j.join_type,
            j.output_schema,
            plan_rows(*j.left, m),
            plan_rows(*j.right, m),
        ),
        LogicalPlan::Concat(c) => plan_rows(*c.input, m).add(plan_rows(*c.other, m)),
        LogicalPlan::Other(op) => {
            proof {
                assert(decreases_to!(plan => plan->Other_0));
                assert(decreases_to!(plan->Other_0 => op.children));
                assert(decreases_to!(op.children => op.children@));
            }
            (m.other)(op.name@, op.output_schema, children_rows(op.children@, m))
        },
    }
}

/// The rows of each child of a node.
pub open spec fn children_rows(children: Seq<Arc<LogicalPlan>>, m: Evaluation) -> Seq<Multiset<Row>>
    decreases children,
{
    if children.len() == 0 {
        Seq::empty()
    } else {
        children_rows(children.drop_last(), m).push(plan_rows(*children.last(), m))
    }
}

/// Every row of a task has the task's partition values.
pub open spec fn respects_partition_values(m: Evaluation) -> bool {
    forall|
        output: Arc<Schema>,
        source: Arc<Schema>,
        keys: Arc<Vec<Field>>,
        pushdowns: Seq<char>,
        task: Arc<ScanTask>,
        row: Row,
        col: Seq<char>,
        value: u64,
    |
        (#[trigger] (m.scan)(output, source, keys, pushdowns, task).contains(row))
            && #[trigger] has_value(task, col, value) ==> row[col] == value
}

/// The rows differ in a column that the predicate compares.
pub open spec fn rows_differ(on: JoinPredicate, a: Row, b: Row) -> bool {
    exists|i: int, l: Seq<char>, r: Seq<char>|
        {
            &&& 0 <= i < on.left_eq@.len()
            &&& i < on.right_eq@.len()
            &&& #[trigger] is_column(*on.left_eq@[i], l)
            &&& #[trigger] is_column(*on.right_eq@[i], r)
            &&& a[l] != b[r]
        }
}

/// No row of the first rows goes with one of the second.
pub open spec fn none_go_together(
    on: JoinPredicate,
    left: Multiset<Row>,
    right: Multiset<Row>,
) -> bool {
    forall|a: Row, b: Row|
        #[trigger] left.contains(a) && #[trigger] right.contains(b) ==> rows_differ(on, a, b)
}

/// The inner join: it joins every row of one side with every row of the other, whatever other rows there
/// are, and rows that differ in a compared column do not go together.
pub open spec fn joins_inner(m: Evaluation) -> bool {
    &&& forall|
        on: Arc<JoinPredicate>,
        schema: Arc<Schema>,
        a: Multiset<Row>,
        b: Multiset<Row>,
        r: Multiset<Row>,
    | #[trigger]
        (m.join)(on, JoinType::Inner, schema, a.add(b), r) == (m.join)(
            on,
            JoinType::Inner,
            schema,
            a,
            r,
        ).add((m.join)(on, JoinType::Inner, schema, b, r))
    &&& forall|
        on: Arc<JoinPredicate>,
        schema: Arc<Schema>,
        l: Multiset<Row>,
        a: Multiset<Row>,
        b: Multiset<Row>,
    | #[trigger]
        (m.join)(on, JoinType::Inner, schema, l, a.add(b)) == (m.join)(
            on,
            JoinType::Inner,
            schema,
            l,
            a,
        ).add((m.join)(on, JoinType::Inner, schema, l, b))
    &&& forall|
        on: Arc<JoinPredicate>,
        schema: Arc<Schema>,
        l: Multiset<Row>,
        r: Multiset<Row>,
    |
        none_go_together(*on, l, r) ==> #[trigger] (m.join)(on, JoinType::Inner, schema, l, r)
            == Multiset::<Row>::empty()
}

/// How often a row comes of joining one task of each side.
spec fn pair_rows(
    m: Evaluation,
    join: Join,
    l_out: Arc<Schema>,
    l_info: PhysicalScanInfo,
    r_out: Arc<Schema>,
    r_info: PhysicalScanInfo,
    row: Row,
) -> spec_fn(Arc<ScanTask>, Arc<ScanTask>) -> nat {
    |a: Arc<ScanTask>, b: Arc<ScanTask>|
        (m.join)(
            join.on,
            JoinType::Inner,
            join.output_schema,
            (m.scan)(
                l_out,
                l_info.source_schema,
                l_info.partitioning_keys,
                l_info.pushdowns@,
                a,
            ),
            (m.scan)(
                r_out,
                r_info.source_schema,
                r_info.partitioning_keys,
                r_info.pushdowns@,
                b,
            ),
        ).count(row)
}

proof fn nothing_joins_nothing(m: Evaluation, on: Arc<JoinPredicate>, schema: Arc<Schema>)
    requires
        joins_inner(m),
    ensures
        forall|r: Multiset<Row>| #[trigger]
            (m.join)(on, JoinType::Inner, schema, Multiset::empty(), r) == Multiset::<Row>::empty(),
        forall|l: Multiset<Row>| #[trigger]
            (m.join)(on, JoinType::Inner, schema, l, Multiset::empty()) == Multiset::<Row>::empty(),
{
    assert forall|r: Multiset<Row>| #[trigger]
        (m.join)(on, JoinType::Inner, schema, Multiset::empty(), r) == Multiset::<Row>::empty() by {
        assert(none_on(on, Multiset::empty(), r));
    }
    assert forall|l: Multiset<Row>| #[trigger]
        (m.join)(on, JoinType::Inner, schema, l, Multiset::empty()) == Multiset::<Row>::empty() by {
        assert(none_on(on, l, Multiset::empty()));
    }
}

spec fn none_on(on: Arc<JoinPredicate>, l: Multiset<Row>, r: Multiset<Row>) -> bool {
    none_go_together(*on, l, r)
}

/// The rows of joining one left task with the right tasks.
proof fn one_task_joins(
    m: Evaluation,
    join: Join,
    l_out: Arc<Schema>,
    l_info: PhysicalScanInfo,
    r_out: Arc<Schema>,
    r_info: PhysicalScanInfo,
    a: Arc<ScanTask>,
    r: Seq<Arc<ScanTask>>,
    row: Row,
)
    requires
        joins_inner(m),
    ensures
        (m.join)(
            join.on,
            JoinType::Inner,
            join.output_schema,
            (m.scan)(
                l_out,
                l_info.source_schema,
                l_info.partitioning_keys,
                l_info.pushdowns@,
                a,
            ),
            scanned(m, r_out, r_info, r),
        ).count(row) == task_rows(a, r, pair_rows(m, join, l_out, l_info, r_out, r_info, row)),
    decreases r.len(),
{
    nothing_joins_nothing(m, join.on, join.output_schema);
    if r.len() > 0 {
        one_task_joins(m, join, l_out, l_info, r_out, r_info, a, r.drop_last(), row);
    }
}

/// The rows of joining the left tasks with the right tasks.
proof fn tasks_join(
    m: Evaluation,
    join: Join,
    l_out: Arc<Schema>,
    l_info: PhysicalScanInfo,
    r_out: Arc<Schema>,
    r_info: PhysicalScanInfo,
    l: Seq<Arc<ScanTask>>,
    r: Seq<Arc<ScanTask>>,
    row: Row,
)
    requires
        joins_inner(m),
    ensures
        (m.join)(
            join.on,
            JoinType::Inner,
            join.output_schema,
            scanned(m, l_out, l_info, l),
            scanned(m, r_out, r_info, r),
        ).count(row) == join_rows(l, r, pair_rows(m, join, l_out, l_info, r_out, r_info, row)),
    decreases l.len(),
{
    nothing_joins_nothing(m, join.on, join.output_schema);
    if l.len() > 0 {
        tasks_join(m, join, l_out, l_info, r_out, r_info, l.drop_last(), r, row);
        one_task_joins(m, join, l_out, l_info, r_out, r_info, l.last(), r, row);
    }
}

proof fn scans_of_like_sources(
    m: Evaluation,
    output: Arc<Schema>,
    a: PhysicalScanInfo,
    b: PhysicalScanInfo,
    tasks: Seq<Arc<ScanTask>>,
)
    requires
        a.source_schema == b.source_schema,
        a.partitioning_keys == b.partitioning_keys,
        a.pushdowns == b.pushdowns,
    ensures
        scanned(m, output, a, tasks) == scanned(m, output, b, tasks),
    decreases tasks.len(),
{
    if tasks.len() > 0 {
        scans_of_like_sources(m, output, a, b, tasks.drop_last());
    }
}

/// The source is a physical scan with that output and that information.
spec fn is_scan(plan: Arc<LogicalPlan>, output: Arc<Schema>, info: PhysicalScanInfo) -> bool {
    *plan matches LogicalPlan::Source(s) && s.output_schema == output && *s.source_info
        == SourceInfo::Physical(info)
}

proof fn source_rows_are_scanned(
    m: Evaluation,
    plan: Arc<LogicalPlan>,
    base: Arc<LogicalPlan>,
    output: Arc<Schema>,
    info: PhysicalScanInfo,
    tasks: Seq<Arc<ScanTask>>,
)
    requires
        is_scan(base, output, info),
        is_source_with(*plan, *base, tasks),
    ensures
        plan_rows(*plan, m) == scanned(m, output, info, tasks),
{
    match *plan {
        LogicalPlan::Source(s) => match *s.source_info {
            SourceInfo::Physical(p) => {
                scans_of_like_sources(m, output, p, info, tasks);
            },
            _ => {},
        },
        _ => {},
    }
}

proof fn concat_counts(
    m: Evaluation,
    plan: Arc<LogicalPlan>,
    join: Join,
    l_out: Arc<Schema>,
    l_info: PhysicalScanInfo,
    r_out: Arc<Schema>,
    r_info: PhysicalScanInfo,
    parts: Seq<(Seq<Arc<ScanTask>>, Seq<Arc<ScanTask>>)>,
    row: Row,
)
    requires
        joins_inner(m),
        join.join_type == JoinType::Inner,
        is_scan(join.left, l_out, l_info),
        is_scan(join.right, r_out, r_info),
        is_concat_of(*plan, join, parts),
    ensures
        plan_rows(*plan, m).count(row) == concat_rows(
            parts,
            pair_rows(m, join, l_out, l_info, r_out, r_info, row),
        ),
    decreases parts.len(),
{
    let rows = pair_rows(m, join, l_out, l_info, r_out, r_info, row);
    reveal_with_fuel(plan_rows, 3);
    reveal_with_fuel(concat_rows, 2);
    if parts.len() == 1 {
        sub_join_counts(m, plan, join, l_out, l_info, r_out, r_info, parts[0], row);
        assert(parts.drop_last() =~= Seq::empty());
        assert(parts.last() == parts[0]);
    } else {
        match *plan {
            LogicalPlan::Concat(c) => {
                concat_counts(
                    m,
                    c.input,
                    join,
                    l_out,
                    l_info,
                    r_out,
                    r_info,
                    parts.drop_last(),
                    row,
                );
                sub_join_counts(m, c.other, join, l_out, l_info, r_out, r_info, parts.last(), row);
            },
            _ => {},
        }
    }
}

proof fn sub_join_counts(
    m: Evaluation,
    plan: Arc<LogicalPlan>,
    join: Join,
    l_out: Arc<Schema>,
    l_info: PhysicalScanInfo,
    r_out: Arc<Schema>,
    r_info: PhysicalScanInfo,
    part: (Seq<Arc<ScanTask>>, Seq<Arc<ScanTask>>),
    row: Row,
)
    requires
        joins_inner(m),
        join.join_type == JoinType::Inner,
        is_scan(join.left, l_out, l_info),
        is_scan(join.right, r_out, r_info),
        is_sub_join(*plan, join, part),
    ensures
        plan_rows(*plan, m).count(row) == join_rows(
            part.0,
            part.1,
            pair_rows(m, join, l_out, l_info, r_out, r_info, row),
        ),
{
    match *plan {
        LogicalPlan::Join(sub) => {
            source_rows_are_scanned(m, sub.left, join.left, l_out, l_info, part.0);
            source_rows_are_scanned(m, sub.right, join.right, r_out, r_info, part.1);
            tasks_join(m, join, l_out, l_info, r_out, r_info, part.0, part.1, row);
        },
        _ => {},
    }
}

/// Tasks that an equality tells apart have no row in common.
proof fn told_apart_tasks_do_not_join(
    m: Evaluation,
    join: Join,
    l_out: Arc<Schema>,
    l_info: PhysicalScanInfo,
    r_out: Arc<Schema>,
    r_info: PhysicalScanInfo,
    row: Row,
)
    requires
        joins_inner(m),
        respects_partition_values(m),
    ensures
        respects_equalities(join, pair_rows(m, join, l_out, l_info, r_out, r_info, row)),
{
    let rows = pair_rows(m, join, l_out, l_info, r_out, r_info, row);
    assert forall|i: int, a: Arc<ScanTask>, b: Arc<ScanTask>|
        #[trigger] is_equality(join, i) && tells_apart(
            *join.on.left_eq@[i],
            *join.on.right_eq@[i],
            a,
            b,
        ) implies #[trigger] rows(a, b) == 0 by {
        let left = (m.scan)(
            l_out,
            l_info.source_schema,
            l_info.partitioning_keys,
            l_info.pushdowns@,
            a,
        );
        let right = (m.scan)(
            r_out,
            r_info.source_schema,
            r_info.partitioning_keys,
            r_info.pushdowns@,
            b,
        );
        match (operand_name(join.on.left_eq@[i]), operand_name(join.on.right_eq@[i])) {
            (Some(l), Some(r)) => {
                partition_value_is_of_the_named_column(a, l);
                partition_value_is_of_the_named_column(b, r);
                let v = task_key(a, l)->0;
                let w = task_key(b, r)->0;
                assert(has_value(a, l, v));
                assert(has_value(b, r, w));
                assert forall|x: Row, y: Row| #[trigger]
                    left.contains(x) && #[trigger] right.contains(y) implies rows_differ_on(
                    join.on,
                    x,
                    y,
                ) by {
                    assert(x[l] == v && y[r] == w);
                    assert(is_operand(join.on.left_eq@[i], l));
                    assert(is_operand(join.on.right_eq@[i], r));
                }
                assert(none_on(join.on, left, right));
            },
            _ => {},
        }
    }
}

spec fn rows_differ_on(on: Arc<JoinPredicate>, a: Row, b: Row) -> bool {
    rows_differ(*on, a, b)
}

spec fn operand_name(e: Arc<Expr>) -> Option<Seq<char>> {
    col_name(*e)
}

spec fn is_operand(e: Arc<Expr>, name: Seq<char>) -> bool {
    is_column(*e, name)
}

proof fn like_children_have_like_rows(
    a: Seq<Arc<LogicalPlan>>,
    b: Seq<Arc<LogicalPlan>>,
    m: Evaluation,
)
    requires
        a.len() == b.len(),
        forall|k: int| 0 <= k < a.len() ==> rows_in(#[trigger] a[k], m) == rows_in(b[k], m),
    ensures
        children_rows(a, m) == children_rows(b, m),
    decreases a.len(),
{
    if a.len() > 0 {
        assert forall|k: int| 0 <= k < a.drop_last().len() implies rows_in(
            #[trigger] a.drop_last()[k],
            m,
        ) == rows_in(b.drop_last()[k], m) by {
            assert(a.drop_last()[k] == a[k] && b.drop_last()[k] == b[k]);
        }
        like_children_have_like_rows(a.drop_last(), b.drop_last(), m);
        assert(a.last() == a[a.len() - 1] && b.last() == b[b.len() - 1]);
    }
}

/// Splitting joins keeps the rows of a plan, each as often as before: whatever the rows of its tasks are,
/// as long as they have the partition values of their task, and whatever its other nodes do.
pub proof fn optimizing_keeps_every_row(
    plan: Arc<LogicalPlan>,
    out: Arc<LogicalPlan>,
    m: Evaluation,
)
    requires
        optimized(*plan, *out),
        joins_inner(m),
        respects_partition_values(m),
    ensures
        plan_rows(*out, m) == plan_rows(*plan, m),
    decreases *plan,
{
    if is_changed(plan) {
        match *plan {
            LogicalPlan::Join(j) => {
                if split(j) is Some {
                    split_keeps_rows(out, j, m);
                } else {
                    match *out {
                        LogicalPlan::Join(o) => {
                            optimizing_keeps_every_row(j.left, o.left, m);
                            optimizing_keeps_every_row(j.right, o.right, m);
                        },
                        _ => {},
                    }
                }
            },
            LogicalPlan::Concat(c) => match *out {
                LogicalPlan::Concat(o) => {
                    optimizing_keeps_every_row(c.input, o.input, m);
                    optimizing_keeps_every_row(c.other, o.other, m);
                },
                _ => {},
            },
            LogicalPlan::Other(op) => match *out {
                LogicalPlan::Other(o) => {
                    assert(decreases_to!(*plan => plan->Other_0));
                    assert(decreases_to!(plan->Other_0 => op.children));
                    assert(decreases_to!(op.children => op.children@));
                    assert forall|k: int| 0 <= k < op.children@.len() implies rows_in(
                        #[trigger] op.children@[k],
                        m,
                    ) == rows_in(o.children@[k], m) by {
                        optimizing_keeps_every_row(op.children@[k], o.children@[k], m);
                    }
                    like_children_have_like_rows(op.children@, o.children@, m);
                },
                _ => {},
            },
            LogicalPlan::Source(_) => {},
        }
    }
}

spec fn is_changed(plan: Arc<LogicalPlan>) -> bool {
    changes(*plan)
}

proof fn split_keeps_rows(out: Arc<LogicalPlan>, join: Join, m: Evaluation)
    requires
        split(join) is Some,
        is_concat_of(*out, join, split(join)->0),
        joins_inner(m),
        respects_partition_values(m),
    ensures
        plan_rows(*out, m) == plan_rows(LogicalPlan::Join(join), m),
{
    let (lo, li) = scan_parts(join.left)->0;
    let (ro, ri) = scan_parts(join.right)->0;
    let l = tasks_on_left(join);
    let r = tasks_on_right(join);
    let whole = plan_rows(LogicalPlan::Join(join), m);
    assert(whole == (m.join)(
        join.on,
        JoinType::Inner,
        join.output_schema,
        scanned(m, lo, li, l),
        scanned(m, ro, ri, r),
    )) by {
        reveal_with_fuel(plan_rows, 3);
    }
    assert forall|row: Row| rows_in(out, m).count(row) == whole.count(row) by {
        concat_counts(m, out, join, lo, li, ro, ri, split(join)->0, row);
        told_apart_tasks_do_not_join(m, join, lo, li, ro, ri, row);
        split_keeps_every_row(join, pair_rows(m, join, lo, li, ro, ri, row));
        tasks_join(m, join, lo, li, ro, ri, l, r, row);
    }
    assert(rows_in(out, m) =~= whole);
}

/// The output and the information of a physical scan.
pub(crate) open spec fn scan_parts(plan: Arc<LogicalPlan>) -> Option<(Arc<Schema>, PhysicalScanInfo)> {
    match *plan {
        LogicalPlan::Source(s) => match *s.source_info {
            SourceInfo::Physical(info) => Some((s.output_schema, info)),
            SourceInfo::Other(_) => None,
        },
        _ => None,
    }
}

spec fn rows_in(plan: Arc<LogicalPlan>, m: Evaluation) -> Multiset<Row> {
    plan_rows(*plan, m)
}

/// The plan is a materialized scan of the tasks, partitioned by the columns of these names.
pub open spec fn is_partitioned_scan(
    plan: LogicalPlan,
    tasks: Seq<Arc<ScanTask>>,
    names: Seq<Seq<char>>,
) -> bool {
    &&& plan matches LogicalPlan::Source(s)
    &&& *s.source_info matches SourceInfo::Physical(info)
    &&& info.scan_state matches ScanState::Tasks(t)
    &&& t@ == tasks
    &&& names.len() > 0
    &&& names.len() == info.partitioning_keys@.len()
    &&& forall|i: int|
        0 <= i < names.len() ==> #[trigger] names[i] == info.partitioning_keys@[i].name@
}

/// Some task has that value for the column.
pub open spec fn some_has_value(tasks: Seq<Arc<ScanTask>>, col: Seq<char>, value: u64) -> bool {
    exists|t: int| 0 <= t < tasks.len() && has_value(#[trigger] tasks[t], col, value)
}

/// An inner join of two partitioned scans is split where an equality compares a partition column of both
/// sides with itself, and two values of that column are found on both sides. (An earlier equality of that
/// kind would come first.)
pub proof fn joins_on_shared_values_are_split(
    join: Join,
    l: Seq<Arc<ScanTask>>,
    r: Seq<Arc<ScanTask>>,
    l_names: Seq<Seq<char>>,
    r_names: Seq<Seq<char>>,
    i: int,
    col: Seq<char>,
    v: u64,
    w: u64,
)
    requires
        join.join_type == JoinType::Inner,
        is_partitioned_scan(*join.left, l, l_names),
        is_partitioned_scan(*join.right, r, r_names),
        compares_partition_column(
            l_names,
            r_names,
            join.on.left_eq@,
            join.on.right_eq@,
            i,
            col,
        ),
        forall|j: int, other: Seq<char>|
            0 <= j < i ==> !#[trigger] compares_partition_column(
                l_names,
                r_names,
                join.on.left_eq@,
                join.on.right_eq@,
                j,
                other,
            ),
        v != w,
        some_has_value(l, col, v),
        some_has_value(r, col, v),
        some_has_value(l, col, w),
        some_has_value(r, col, w),
    ensures
        split(join) is Some,
{
    let (le, re) = (join.on.left_eq@, join.on.right_eq@);
    shared_column_is_the_first_compared(l_names, r_names, le, re, 0);
    let (_, li) = scan_parts(join.left)->0;
    let (_, ri) = scan_parts(join.right)->0;
    assert(l_names =~= li.partitioning_keys@.map_values(|f: Field| f.name@));
    assert(r_names =~= ri.partitioning_keys@.map_values(|f: Field| f.name@));
    match shared_key_from(l_names, r_names, le, re, 0) {
        Some(name) => {
            let k = choose|k: int|
                {
                    &&& 0 <= k
                    &&& #[trigger] compares_partition_column(l_names, r_names, le, re, k, name)
                    &&& forall|j: int, other: Seq<char>|
                        0 <= j < k ==> !#[trigger] compares_partition_column(
                            l_names,
                            r_names,
                            le,
                            re,
                            j,
                            other,
                        )
                };
            assert(k == i);
            assert(name == col);
        },
        None => {},
    }
    let lk = group_keys(l, col);
    let rk = group_keys(r, col);
    let a = choose|t: int| 0 <= t < l.len() && has_value(#[trigger] l[t], col, v);
    let b = choose|t: int| 0 <= t < r.len() && has_value(#[trigger] r[t], col, v);
    let c = choose|t: int| 0 <= t < l.len() && has_value(#[trigger] l[t], col, w);
    let d = choose|t: int| 0 <= t < r.len() && has_value(#[trigger] r[t], col, w);
    value_is_listed(l, col, a, v);
    value_is_listed(r, col, b, v);
    value_is_listed(l, col, c, w);
    value_is_listed(r, col, d, w);
    planned_sub_joins_are_those_of_shared_values(lk, rk);
    let all = sub_joins(lk, rk);
    assert(all.contains(SubJoin::KeyedPair(v)));
    assert(all.contains(SubJoin::KeyedPair(w)));
    assert(lk.contains(Some(v)) && rk.contains(Some(v)));
    let x = choose|x: int| 0 <= x < all.len() && all[x] == SubJoin::KeyedPair(v);
    let y = choose|y: int| 0 <= y < all.len() && all[y] == SubJoin::KeyedPair(w);
    assert(all.len() >= 2);
    assert(task_sub_joins(l, r, col).len() == all.len());
}

/// A join is split only where it is an inner join of two partitioned scans, into at least two sub-joins,
/// and never where both sides have values for the column but no value in common: such a mismatch would
/// lose rows that it cannot tell.
pub proof fn only_joins_with_shared_values_are_split(
    join: Join,
    l: Seq<Arc<ScanTask>>,
    r: Seq<Arc<ScanTask>>,
    l_names: Seq<Seq<char>>,
    r_names: Seq<Seq<char>>,
)
    requires
        split(join) is Some,
        is_partitioned_scan(*join.left, l, l_names),
        is_partitioned_scan(*join.right, r, r_names),
    ensures
        join.join_type == JoinType::Inner,
        split(join)->0.len() >= 2,
        exists|i: int, col: Seq<char>| #[trigger]
            compares_partition_column(
                l_names,
                r_names,
                join.on.left_eq@,
                join.on.right_eq@,
                i,
                col,
            ) && (({
                ||| exists|v: u64| #[trigger] some_has_value(l, col, v) && some_has_value(r, col, v)
                ||| forall|v: u64| !#[trigger] some_has_value(l, col, v)
                ||| forall|v: u64| !#[trigger] some_has_value(r, col, v)
            })),
{
    let (le, re) = (join.on.left_eq@, join.on.right_eq@);
    let (_, li) = scan_parts(join.left)->0;
    let (_, ri) = scan_parts(join.right)->0;
    assert(l_names =~= li.partitioning_keys@.map_values(|f: Field| f.name@));
    assert(r_names =~= ri.partitioning_keys@.map_values(|f: Field| f.name@));
    shared_column_is_the_first_compared(l_names, r_names, le, re, 0);
    let col = shared_key_from(l_names, r_names, le, re, 0)->0;
    let i = choose|i: int| 0 <= i && #[trigger]
        compares_partition_column(l_names, r_names, le, re, i, col);
    let lk = group_keys(l, col);
    let rk = group_keys(r, col);
    planned_sub_joins_are_those_of_shared_values(lk, rk);
    if exists|k: u64| #[trigger] lk.contains(Some(k)) && rk.contains(Some(k)) {
        let k = choose|k: u64| #[trigger] lk.contains(Some(k)) && rk.contains(Some(k));
        let a = listed_value_is_of_a_task(l, col, k);
        let b = listed_value_is_of_a_task(r, col, k);
        assert(some_has_value(l, col, k) && some_has_value(r, col, k));
    } else {
        assert forall|v: u64| #[trigger] some_has_value(l, col, v) implies lk.contains(Some(v)) by {
            let t = choose|t: int| 0 <= t < l.len() && has_value(#[trigger] l[t], col, v);
            value_is_listed(l, col, t, v);
        }
        assert forall|v: u64| #[trigger] some_has_value(r, col, v) implies rk.contains(Some(v)) by {
            let t = choose|t: int| 0 <= t < r.len() && has_value(#[trigger] r[t], col, v);
            value_is_listed(r, col, t, v);
        }
    }
    assert(compares_partition_column(l_names, r_names, le, re, i, col));
}

} // verus!
