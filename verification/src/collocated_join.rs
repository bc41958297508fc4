//! Splitting a join on a shared partition key into one join per partition value.
//!
//! A hash join loads its whole build side before it probes. Where both inputs are materialized scans
//! that are partitioned by a join key, a row can only match rows of the same partition value, so the
//! join can run as a series of smaller joins whose results are concatenated.
//!
//! The rule rewrites an inner join of two materialized scans with partition columns, where an equality
//! of the join compares a column with the column of the same name on the other side, and both scans are
//! partitioned by it.
use std::sync::Arc;
use vstd::prelude::*;
use vstd::std_specs::cmp::PartialEqSpec;

use crate::error::DaftError;
use crate::expr::{Column, Expr, ResolvedColumn};
use crate::local_plan::JoinType;
use crate::logical_plan::{
    Concat, Join, LogicalPlan, OtherOp, PartitionKey, PhysicalScanInfo, ScanState, ScanTask, Source,
    SourceInfo, Transformed,
};
use crate::schema::Field;
use crate::text::{same_str, texts};

verus! {

/// The sub-joins that a rewrite is made of.
#[derive(Debug, Clone, PartialEq, Eq)]
pub enum SubJoin<K> {
    /// Left tasks without a partition value, with all right tasks.
    LeftUnkeyedVsAllRight,
    /// Right tasks without a partition value, with the left tasks that have one. (Left tasks without
    /// one meet these right tasks in the sub-join above; pairing them here again would emit their
    /// rows twice.)
    RightUnkeyedVsKeyedLeft,
    /// The tasks of both sides with one partition value.
    KeyedPair(K),
}

/// The values that are present.
pub open spec fn keyed<K>(keys: Seq<Option<K>>) -> Seq<K>
    decreases keys.len(),
{
    if keys.len() == 0 {
        Seq::empty()
    } else {
        match keys.last() {
            Some(k) => keyed(keys.drop_last()).push(k),
            None => keyed(keys.drop_last()),
        }
    }
}

/// Some key is absent.
pub open spec fn has_unkeyed<K>(keys: Seq<Option<K>>) -> bool {
    exists|i: int| 0 <= i < keys.len() && (#[trigger] keys[i]) is None
}

/// The value occurs among the keys.
pub open spec fn occurs<K: PartialEq>(k: K, keys: Seq<K>) -> bool {
    exists|j: int| 0 <= j < keys.len() && k.eq_spec(&#[trigger] keys[j])
}

/// The left values that occur on the right, in their order on the left.
pub open spec fn paired<K: PartialEq>(l: Seq<K>, r: Seq<K>) -> Seq<K>
    decreases l.len(),
{
    if l.len() == 0 {
        Seq::empty()
    } else if occurs(l.last(), r) {
        paired(l.drop_last(), r).push(l.last())
    } else {
        paired(l.drop_last(), r)
    }
}

/// Both sides have partition values, and none occurs on both.
pub open spec fn mismatched<K: PartialEq>(l: Seq<Option<K>>, r: Seq<Option<K>>) -> bool {
    keyed(l).len() > 0 && keyed(r).len() > 0 && paired(keyed(l), keyed(r)).len() == 0
}

/// The sub-joins of a rewrite.
pub open spec fn sub_joins<K: PartialEq>(l: Seq<Option<K>>, r: Seq<Option<K>>) -> Seq<SubJoin<K>> {
    let left = if has_unkeyed(l) {
        seq![SubJoin::LeftUnkeyedVsAllRight]
    } else {
        Seq::empty()
    };
    let right = if has_unkeyed(r) && keyed(l).len() > 0 {
        seq![SubJoin::RightUnkeyedVsKeyedLeft]
    } else {
        Seq::empty()
    };
    left + right + paired(keyed(l), keyed(r)).map_values(|k: K| SubJoin::KeyedPair(k))
}

/// The second sub-join is a clone of the first.
pub open spec fn same_sub_join<K: Clone>(a: SubJoin<K>, b: SubJoin<K>) -> bool {
    match (a, b) {
        (SubJoin::KeyedPair(x), SubJoin::KeyedPair(y)) => cloned(x, y),
        _ => a == b,
    }
}

fn occurs_among<K: PartialEq>(k: &K, keys: &[Option<K>]) -> (r: bool)
    requires
        K::obeys_eq_spec(),
    ensures
        r == occurs(*k, keyed(keys@)),
{
    let mut i: usize = 0;
    assert(keys@.take(0) =~= Seq::empty());
    while i < keys.len()
        invariant
            i <= keys.len(),
            K::obeys_eq_spec(),
            !occurs(*k, keyed(keys@.take(i as int))),
        decreases keys.len() - i,
    {
        proof {
            assert(keys@.take(i + 1).drop_last() =~= keys@.take(i as int));
        }
        match &keys[i] {
            Some(x) => {
                let ghost before = keyed(keys@.take(i as int));
                let ghost after = keyed(keys@.take(i + 1));
                assert(after == before.push(*x));
                if *k == *x {
                    proof {
                        keyed_grows(keys@, i + 1);
                        assert(after[before.len() as int] == *x);
                        assert(keyed(keys@)[before.len() as int] == *x);
                    }
                    return true;
                }
                assert forall|j: int| 0 <= j < after.len() implies !k.eq_spec(
                    &#[trigger] after[j],
                ) by {
                    if j < before.len() {
                        assert(before[j] == after[j]);
                    }
                }
            },
            None => {},
        }
        i = i + 1;
    }
    assert(keys@.take(i as int) =~= keys@);
    false
}

/// The values of a prefix come first.
proof fn keyed_grows<K>(keys: Seq<Option<K>>, i: int)
    requires
        0 <= i <= keys.len(),
    ensures
        keyed(keys.take(i)).len() <= keyed(keys).len(),
        forall|j: int|
            0 <= j < keyed(keys.take(i)).len() ==> keyed(keys)[j] == #[trigger] keyed(
                keys.take(i),
            )[j],
    decreases keys.len(),
{
    if i == keys.len() {
        assert(keys.take(i) =~= keys);
    } else {
        keyed_grows(keys.drop_last(), i);
        assert(keys.drop_last().take(i) =~= keys.take(i));
    }
}

/// Decides the sub-joins of a rewrite from the group keys of each side, where `None` stands for the
/// tasks without a partition value.
///
/// Returns `None` where both sides have partition values but not one of them pairs up. Such a mismatch
/// is systematic (the two sides may have inferred different types for the partition column), and only
/// the join as it was is safe. A partial pairing is genuine: in an inner join a value that is absent on
/// the other side contributes no rows, so unpaired groups are skipped.
pub fn plan_sub_joins<K: Eq + std::hash::Hash + Clone>(
    l_keys: &[Option<K>],
    r_keys: &[Option<K>],
) -> (r: Option<Vec<SubJoin<K>>>)
    requires
        K::obeys_eq_spec(),
    ensures
        r is None <==> mismatched(l_keys@, r_keys@),
        r matches Some(v) ==> {
            &&& v@.len() == sub_joins(l_keys@, r_keys@).len()
            &&& forall|i: int|
                0 <= i < v@.len() ==> same_sub_join(
                    sub_joins(l_keys@, r_keys@)[i],
                    #[trigger] v@[i],
                )
        },
{
    let mut pairs: Vec<SubJoin<K>> = Vec::new();
    let mut l_any_keyed = false;
    let mut l_has_unkeyed = false;
    let mut i: usize = 0;
    assert(l_keys@.take(0) =~= Seq::empty());
    while i < l_keys.len()
        invariant
            i <= l_keys.len(),
            K::obeys_eq_spec(),
            l_any_keyed == (keyed(l_keys@.take(i as int)).len() > 0),
            l_has_unkeyed == has_unkeyed(l_keys@.take(i as int)),
            pairs@.len() == paired(keyed(l_keys@.take(i as int)), keyed(r_keys@)).len(),
            forall|j: int|
                0 <= j < pairs@.len() ==> same_sub_join(
                    SubJoin::KeyedPair(
                        paired(keyed(l_keys@.take(i as int)), keyed(r_keys@))[j],
                    ),
                    #[trigger] pairs@[j],
                ),
        decreases l_keys.len() - i,
    {
        let ghost before = l_keys@.take(i as int);
        let ghost after = l_keys@.take(i + 1);
        proof {
            assert(after.drop_last() =~= before);
            assert(after.last() == l_keys@[i as int]);
        }
        match &l_keys[i] {
            Some(k) => {
                l_any_keyed = true;
                proof {
                    assert(keyed(after).drop_last() =~= keyed(before));
                    assert(keyed(after).last() == *k);
                    assert(has_unkeyed(after) == has_unkeyed(before)) by {
                        if has_unkeyed(before) {
                            let w = choose|w: int|
                                0 <= w < before.len() && (#[trigger] before[w]) is None;
                            assert(after[w] is None);
                        }
                        if has_unkeyed(after) {
                            let w = choose|w: int|
                                0 <= w < after.len() && (#[trigger] after[w]) is None;
                            assert(before[w] is None);
                        }
                    }
                }
                if occurs_among(k, r_keys) {
                    pairs.push(SubJoin::KeyedPair(k.clone()));
                }
            },
            None => {
                l_has_unkeyed = true;
                assert(after[i as int] is None);
            },
        }
        i = i + 1;
    }
    assert(l_keys@.take(i as int) =~= l_keys@);
    let mut r_any_keyed = false;
    let mut r_has_unkeyed = false;
    let mut j: usize = 0;
    assert(r_keys@.take(0) =~= Seq::empty());
    while j < r_keys.len()
        invariant
            j <= r_keys.len(),
            r_any_keyed == (keyed(r_keys@.take(j as int)).len() > 0),
            r_has_unkeyed == has_unkeyed(r_keys@.take(j as int)),
        decreases r_keys.len() - j,
    {
        let ghost before = r_keys@.take(j as int);
        let ghost after = r_keys@.take(j + 1);
        proof {
            assert(after.drop_last() =~= before);
            assert(after.last() == r_keys@[j as int]);
        }
        match &r_keys[j] {
            Some(_) => {
                r_any_keyed = true;
                proof {
                    assert(has_unkeyed(after) == has_unkeyed(before)) by {
                        if has_unkeyed(before) {
                            let w = choose|w: int|
                                0 <= w < before.len() && (#[trigger] before[w]) is None;
                            assert(after[w] is None);
                        }
                        if has_unkeyed(after) {
                            let w = choose|w: int|
                                0 <= w < after.len() && (#[trigger] after[w]) is None;
                            assert(before[w] is None);
                        }
                    }
                }
            },
            None => {
                r_has_unkeyed = true;
                assert(after[j as int] is None);
            },
        }
        j = j + 1;
    }
    assert(r_keys@.take(j as int) =~= r_keys@);
    if l_any_keyed && r_any_keyed && pairs.len() == 0 {
        return None;
    }
    let mut out: Vec<SubJoin<K>> = Vec::new();
    if l_has_unkeyed {
        out.push(SubJoin::LeftUnkeyedVsAllRight);
    }
    if r_has_unkeyed && l_any_keyed {
        out.push(SubJoin::RightUnkeyedVsKeyedLeft);
    }
    out.append(&mut pairs);
    Some(out)
}

/// The tasks and the partition column names of a materialized scan that has partition columns.
pub open spec fn partition_info(plan: LogicalPlan) -> Option<
    (Seq<Arc<ScanTask>>, Seq<Seq<char>>),
> {
    match plan {
        LogicalPlan::Source(source) => match *source.source_info {
            SourceInfo::Physical(info) => match info.scan_state {
                ScanState::Tasks(tasks) => if info.partitioning_keys@.len() == 0 {
                    None
                } else {
                    Some((tasks@, info.partitioning_keys@.map_values(|f: Field| f.name@)))
                },
                ScanState::Operator(_) => None,
            },
            SourceInfo::Other(_) => None,
        },
        _ => None,
    }
}

/// The tasks and the partition column names of a source that has been materialized; `None` for any
/// other node, and for a source without partition columns.
pub fn source_partition_info(plan: &LogicalPlan) -> (r: Option<
    (Arc<Vec<Arc<ScanTask>>>, Vec<String>),
>)
    ensures
        match r {
            Some((tasks, names)) => partition_info(*plan) == Some((tasks@, texts(names@))),
            None => partition_info(*plan) is None,
        },
{
    match plan {
        LogicalPlan::Source(source) => match &*source.source_info {
            SourceInfo::Physical(info) => match &info.scan_state {
                ScanState::Tasks(tasks) => {
                    if info.partitioning_keys.len() == 0 {
                        return None;
                    }
                    let ghost all = info.partitioning_keys@.map_values(|f: Field| f.name@);
                    let mut names: Vec<String> = Vec::new();
                    let mut i: usize = 0;
                    while i < info.partitioning_keys.len()
                        invariant
                            i <= info.partitioning_keys.len(),
                            all == info.partitioning_keys@.map_values(|f: Field| f.name@),
                            texts(names@) == all.take(i as int),
                        decreases info.partitioning_keys.len() - i,
                    {
                        let ghost before = names@;
                        names.push((*info.partitioning_keys[i].name).to_owned());
                        i = i + 1;
                        proof {
                            assert(texts(names@) =~= texts(before).push(names@.last()@));
                            assert(texts(names@) =~= all.take(i as int));
                        }
                    }
                    assert(all.take(i as int) =~= all);
                    Some((tasks.clone(), names))
                },
                ScanState::Operator(_) => None,
            },
            SourceInfo::Other(_) => None,
        },
        _ => None,
    }
}

/// The name of an expression that is a plain column.
pub open spec fn col_name(expr: Expr) -> Option<Seq<char>> {
    match expr {
        Expr::Column(Column::Resolved(ResolvedColumn::Basic(name))) => Some(name@),
        _ => None,
    }
}

/// The name of an expression that is a plain column reference.
pub fn expr_col_name(expr: &Expr) -> (r: Option<&str>)
    ensures
        match r {
            Some(s) => col_name(*expr) == Some(s@),
            None => col_name(*expr) is None,
        },
{
    match expr {
        Expr::Column(Column::Resolved(ResolvedColumn::Basic(name))) => Some(&**name),
        _ => None,
    }
}

/// The equality at `i` compares a column that both sides are partitioned by: the two sides name the same
/// column, and it is a partition column of each.
pub open spec fn shares_key(
    l_pkeys: Seq<Seq<char>>,
    r_pkeys: Seq<Seq<char>>,
    l_eq: Seq<Arc<Expr>>,
    r_eq: Seq<Arc<Expr>>,
    i: int,
) -> bool {
    match (col_name(*l_eq[i]), col_name(*r_eq[i])) {
        (Some(l), Some(r)) => l == r && l_pkeys.contains(l) && r_pkeys.contains(r),
        _ => false,
    }
}

/// The column of the first equality at or after `i` that compares a partition column of both sides.
pub open spec fn shared_key_from(
    l_pkeys: Seq<Seq<char>>,
    r_pkeys: Seq<Seq<char>>,
    l_eq: Seq<Arc<Expr>>,
    r_eq: Seq<Arc<Expr>>,
    i: nat,
) -> Option<Seq<char>>
    decreases l_eq.len() - i,
{
    if i >= l_eq.len() || i >= r_eq.len() {
        None
    } else if shares_key(l_pkeys, r_pkeys, l_eq, r_eq, i as int) {
        col_name(*l_eq[i as int])
    } else {
        shared_key_from(l_pkeys, r_pkeys, l_eq, r_eq, i + 1)
    }
}

/// The position of a name in a list.
fn find_name(names: &[String], name: &str) -> (r: Option<usize>)
    ensures
        match r {
            Some(i) => i < names@.len() && names@[i as int]@ == name@,
            None => !texts(names@).contains(name@),
        },
{
    let mut i: usize = 0;
    while i < names.len()
        invariant
            i <= names.len(),
            forall|k: int| 0 <= k < i ==> (#[trigger] names@[k])@ != name@,
        decreases names.len() - i,
    {
        if same_str(names[i].as_str(), name) {
            return Some(i);
        }
        i = i + 1;
    }
    proof {
        assert forall|k: int| 0 <= k < texts(names@).len() implies texts(names@)[k] != name@ by {
            assert(texts(names@)[k] == names@[k]@);
        }
    }
    None
}

/// The first column that both sides are partitioned by and that an equality of the join compares. An
/// equality of two columns with different names is none: the partitions of one side could not be told
/// by the name of the other.
pub fn find_shared_partition_key<'a>(
    l_pkeys: &'a [String],
    r_pkeys: &[String],
    l_eq_keys: &[Arc<Expr>],
    r_eq_keys: &[Arc<Expr>],
) -> (r: Option<&'a str>)
    ensures
        match r {
            Some(s) => shared_key_from(
                texts(l_pkeys@),
                texts(r_pkeys@),
                l_eq_keys@,
                r_eq_keys@,
                0,
            ) == Some(s@),
            None => shared_key_from(
                texts(l_pkeys@),
                texts(r_pkeys@),
                l_eq_keys@,
                r_eq_keys@,
                0,
            ) is None,
        },
{
    let ghost lp = texts(l_pkeys@);
    let ghost rp = texts(r_pkeys@);
    let mut i: usize = 0;
    while i < l_eq_keys.len() && i < r_eq_keys.len()
        invariant
            i <= l_eq_keys.len(),
            lp == texts(l_pkeys@),
            rp == texts(r_pkeys@),
            shared_key_from(lp, rp, l_eq_keys@, r_eq_keys@, 0) == shared_key_from(
                lp,
                rp,
                l_eq_keys@,
                r_eq_keys@,
                i as nat,
            ),
        decreases l_eq_keys.len() - i,
    {
        match (expr_col_name(&l_eq_keys[i]), expr_col_name(&r_eq_keys[i])) {
            (Some(l_name), Some(r_name)) => {
                match find_name(l_pkeys, l_name) {
                    Some(k) => {
                        if same_str(l_name, r_name) && find_name(r_pkeys, r_name).is_some() {
                            proof {
                                assert(lp[k as int] == l_name@);
                                let w = choose|w: int|
                                    0 <= w < r_pkeys@.len() && (#[trigger] r_pkeys@[w])@
                                        == r_name@;
                                assert(rp[w] == r_name@);
                            }
                            return Some(l_pkeys[k].as_str());
                        }
                    },
                    None => {},
                }
            },
            _ => {},
        }
        i = i + 1;
    }
    None
}

/// The value of the first partition column of that name.
pub open spec fn first_value(keys: Seq<PartitionKey>, col: Seq<char>) -> Option<u64>
    decreases keys.len(),
{
    if keys.len() == 0 {
        None
    } else if first_value(keys.drop_last(), col) is Some {
        first_value(keys.drop_last(), col)
    } else if keys.last().name@ == col {
        Some(keys.last().value)
    } else {
        None
    }
}

/// The partition value of a task for a column, where the task has one.
pub open spec fn task_key(task: Arc<ScanTask>, col: Seq<char>) -> Option<u64> {
    match task.partition_spec {
        Some(spec) => first_value(spec.keys@, col),
        None => None,
    }
}

fn key_of(task: &Arc<ScanTask>, col: &str) -> (r: Option<u64>)
    ensures
        r == task_key(*task, col@),
{
    match &task.partition_spec {
        Some(spec) => {
            let mut i: usize = 0;
            assert(spec.keys@.take(0) =~= Seq::empty());
            while i < spec.keys.len()
                invariant
                    task.partition_spec == Some(*spec),
                    i <= spec.keys.len(),
                    first_value(spec.keys@.take(i as int), col@) is None,
                decreases spec.keys.len() - i,
            {
                proof {
                    assert(spec.keys@.take(i + 1).drop_last() =~= spec.keys@.take(i as int));
                }
                if same_str(&spec.keys[i].name, col) {
                    proof {
                        assert(spec.keys@.take(i + 1).last() == spec.keys@[i as int]);
                        first_value_stays(spec.keys@, col@, i + 1);
                    }
                    return Some(spec.keys[i].value);
                }
                i = i + 1;
            }
            assert(spec.keys@.take(i as int) =~= spec.keys@);
            None
        },
        None => None,
    }
}

proof fn first_value_stays(keys: Seq<PartitionKey>, col: Seq<char>, i: int)
    requires
        0 <= i <= keys.len(),
        first_value(keys.take(i), col) is Some,
    ensures
        first_value(keys, col) == first_value(keys.take(i), col),
    decreases keys.len(),
{
    if i < keys.len() {
        assert(keys.drop_last().take(i) =~= keys.take(i));
        first_value_stays(keys.drop_last(), col, i);
    } else {
        assert(keys.take(i) =~= keys);
    }
}

/// The tasks with a given partition value, in their order.
pub open spec fn tasks_with(
    tasks: Seq<Arc<ScanTask>>,
    col: Seq<char>,
    key: Option<u64>,
) -> Seq<Arc<ScanTask>>
    decreases tasks.len(),
{
    if tasks.len() == 0 {
        Seq::empty()
    } else if task_key(tasks.last(), col) == key {
        tasks_with(tasks.drop_last(), col, key).push(tasks.last())
    } else {
        tasks_with(tasks.drop_last(), col, key)
    }
}

/// The partition values of the tasks, each once, in the order in which they first appear.
pub open spec fn group_keys(tasks: Seq<Arc<ScanTask>>, col: Seq<char>) -> Seq<Option<u64>>
    decreases tasks.len(),
{
    if tasks.len() == 0 {
        Seq::empty()
    } else {
        let keys = group_keys(tasks.drop_last(), col);
        let key = task_key(tasks.last(), col);
        if keys.contains(key) {
            keys
        } else {
            keys.push(key)
        }
    }
}

/// The tasks with a partition value, group by group.
pub open spec fn keyed_tasks(
    tasks: Seq<Arc<ScanTask>>,
    col: Seq<char>,
    keys: Seq<Option<u64>>,
) -> Seq<Arc<ScanTask>>
    decreases keys.len(),
{
    if keys.len() == 0 {
        Seq::empty()
    } else if keys.last() is Some {
        keyed_tasks(tasks, col, keys.drop_last()) + tasks_with(tasks, col, keys.last())
    } else {
        keyed_tasks(tasks, col, keys.drop_last())
    }
}

/// Each partition value is listed once, and no value is missing.
pub(crate) proof fn group_keys_are_complete(tasks: Seq<Arc<ScanTask>>, col: Seq<char>)
    ensures
        group_keys(tasks, col).no_duplicates(),
        forall|i: int|
            0 <= i < tasks.len() ==> group_keys(tasks, col).contains(
                task_key(#[trigger] tasks[i], col),
            ),
    decreases tasks.len(),
{
    if tasks.len() > 0 {
        let init = tasks.drop_last();
        let keys = group_keys(init, col);
        let key = task_key(tasks.last(), col);
        group_keys_are_complete(init, col);
        assert forall|i: int| 0 <= i < tasks.len() implies group_keys(tasks, col).contains(
            task_key(#[trigger] tasks[i], col),
        ) by {
            if i < init.len() {
                assert(init[i] == tasks[i]);
                let w = choose|w: int|
                    0 <= w < keys.len() && keys[w] == task_key(init[i], col);
                assert(group_keys(tasks, col)[w] == keys[w]);
            } else if !keys.contains(key) {
                assert(keys.push(key)[keys.len() as int] == key);
            }
        }
    }
}

/// The tasks that share a partition value.
#[derive(Debug)]
pub struct TaskGroup {
    pub key: Option<u64>,
    pub tasks: Vec<Arc<ScanTask>>,
}

/// The keys of the groups.
pub open spec fn keys_of(groups: Seq<TaskGroup>) -> Seq<Option<u64>> {
    groups.map_values(|g: TaskGroup| g.key)
}

/// The groups of a list of tasks.
pub open spec fn are_groups_of(
    groups: Seq<TaskGroup>,
    tasks: Seq<Arc<ScanTask>>,
    col: Seq<char>,
) -> bool {
    &&& keys_of(groups) == group_keys(tasks, col)
    &&& forall|i: int|
        0 <= i < groups.len() ==> (#[trigger] groups[i]).tasks@ == tasks_with(
            tasks,
            col,
            groups[i].key,
        )
}

fn same_key(a: Option<u64>, b: Option<u64>) -> (r: bool)
    ensures
        r == (a == b),
{
    match (a, b) {
        (Some(x), Some(y)) => x == y,
        (None, None) => true,
        _ => false,
    }
}

fn find_group(groups: &Vec<TaskGroup>, key: Option<u64>) -> (r: Option<usize>)
    ensures
        match r {
            Some(i) => i < groups@.len() && groups@[i as int].key == key,
            None => !keys_of(groups@).contains(key),
        },
{
    let mut i: usize = 0;
    while i < groups.len()
        invariant
            i <= groups.len(),
            forall|k: int| 0 <= k < i ==> (#[trigger] groups@[k]).key != key,
        decreases groups.len() - i,
    {
        if same_key(groups[i].key, key) {
            return Some(i);
        }
        i = i + 1;
    }
    proof {
        assert forall|k: int| 0 <= k < keys_of(groups@).len() implies keys_of(groups@)[k]
            != key by {
            assert(keys_of(groups@)[k] == groups@[k].key);
        }
    }
    None
}

/// A value that no task has belongs to no task.
pub(crate) proof fn absent_key_has_no_tasks(tasks: Seq<Arc<ScanTask>>, col: Seq<char>, key: Option<u64>)
    requires
        !group_keys(tasks, col).contains(key),
    ensures
        tasks_with(tasks, col, key) =~= Seq::empty(),
    decreases tasks.len(),
{
    if tasks.len() > 0 {
        let init = tasks.drop_last();
        group_keys_are_complete(tasks, col);
        assert(tasks[tasks.len() - 1] == tasks.last());
        assert(!group_keys(init, col).contains(key)) by {
            let keys = group_keys(init, col);
            if keys.contains(key) {
                let w = choose|w: int| 0 <= w < keys.len() && keys[w] == key;
                assert(group_keys(tasks, col)[w] == key);
            }
        }
        absent_key_has_no_tasks(init, col, key);
    }
}

/// Groups tasks by their partition value for a column. Tasks without a partition spec, or whose spec
/// lacks the column, are grouped under `None`.
pub fn group_tasks_by_partition_col(tasks: &[Arc<ScanTask>], col_name: &str) -> (r: Vec<TaskGroup>)
    ensures
        are_groups_of(r@, tasks@, col_name@),
{
    let ghost col = col_name@;
    let mut groups: Vec<TaskGroup> = Vec::new();
    let mut i: usize = 0;
    assert(tasks@.take(0) =~= Seq::empty());
    assert(keys_of(groups@) =~= Seq::empty());
    while i < tasks.len()
        invariant
            i <= tasks.len(),
            col == col_name@,
            are_groups_of(groups@, tasks@.take(i as int), col),
        decreases tasks.len() - i,
    {
        let ghost before = tasks@.take(i as int);
        let ghost after = tasks@.take(i + 1);
        let ghost old_groups = groups@;
        let key = key_of(&tasks[i], col_name);
        proof {
            assert(after.drop_last() =~= before);
            assert(after.last() == tasks@[i as int]);
        }
        match find_group(&groups, key) {
            Some(k) => {
                groups[k].tasks.push(tasks[i].clone());
                proof {
                    group_keys_are_complete(before, col);
                    assert(keys_of(old_groups)[k as int] == key);
                    assert(keys_of(groups@) =~= keys_of(old_groups));
                    assert forall|m: int| 0 <= m < groups@.len() implies (
                    #[trigger] groups@[m]).tasks@ == tasks_with(after, col, groups@[m].key) by {
                        if m != k {
                            assert(groups@[m] == old_groups[m]);
                            assert(keys_of(old_groups)[m] == old_groups[m].key);
                        }
                    }
                }
            },
            None => {
                let mut members: Vec<Arc<ScanTask>> = Vec::new();
                members.push(tasks[i].clone());
                groups.push(TaskGroup { key, tasks: members });
                proof {
                    absent_key_has_no_tasks(before, col, key);
                    assert(keys_of(groups@) =~= keys_of(old_groups).push(key));
                    assert forall|m: int| 0 <= m < groups@.len() implies (
                    #[trigger] groups@[m]).tasks@ == tasks_with(after, col, groups@[m].key) by {
                        if m < old_groups.len() {
                            assert(groups@[m] == old_groups[m]);
                            assert(keys_of(old_groups)[m] == old_groups[m].key);
                        } else {
                            assert(groups@[m].tasks@ =~= seq![tasks@[i as int]]);
                            assert(tasks_with(after, col, key) =~= seq![tasks@[i as int]]);
                        }
                    }
                }
            },
        }
        i = i + 1;
    }
    assert(tasks@.take(i as int) =~= tasks@);
    groups
}

/// The plan is a physical source.
pub open spec fn is_physical_source(plan: LogicalPlan) -> bool {
    plan matches LogicalPlan::Source(s) && *s.source_info is Physical
}

/// The first plan is the second, a physical source, with other tasks.
pub open spec fn is_source_with(
    plan: LogicalPlan,
    base: LogicalPlan,
    tasks: Seq<Arc<ScanTask>>,
) -> bool {
    match (plan, base) {
        (LogicalPlan::Source(s), LogicalPlan::Source(b)) => {
            &&& s.output_schema == b.output_schema
            &&& match (*s.source_info, *b.source_info) {
                (SourceInfo::Physical(p), SourceInfo::Physical(q)) => {
                    &&& p.source_schema == q.source_schema
                    &&& p.partitioning_keys == q.partitioning_keys
                    &&& p.pushdowns == q.pushdowns
                    &&& p.scan_state matches ScanState::Tasks(t) && t@ == tasks
                },
                _ => false,
            }
        },
        _ => false,
    }
}

/// Rebuilds a physical source with a new task list; everything else of it stays.
pub fn source_with_tasks(source_plan: &LogicalPlan, tasks: Vec<Arc<ScanTask>>) -> (r: Arc<
    LogicalPlan,
>)
    requires
        is_physical_source(*source_plan),
    ensures
        is_source_with(*r, *source_plan, tasks@),
{
    match source_plan {
        LogicalPlan::Source(source) => match &*source.source_info {
            SourceInfo::Physical(info) => {
                let info = PhysicalScanInfo {
                    scan_state: ScanState::Tasks(Arc::new(tasks)),
                    source_schema: info.source_schema.clone(),
                    partitioning_keys: info.partitioning_keys.clone(),
                    pushdowns: info.pushdowns.clone(),
                };
                Arc::new(
                    LogicalPlan::Source(
                        Source {
                            output_schema: source.output_schema.clone(),
                            source_info: Arc::new(SourceInfo::Physical(info)),
                        },
                    ),
                )
            },
            _ => vstd::pervasive::unreached(),
        },
        _ => vstd::pervasive::unreached(),
    }
}

/// The left and right tasks of a sub-join.
pub open spec fn sub_tasks(
    l: Seq<Arc<ScanTask>>,
    r: Seq<Arc<ScanTask>>,
    col: Seq<char>,
    sub: SubJoin<u64>,
) -> (Seq<Arc<ScanTask>>, Seq<Arc<ScanTask>>) {
    match sub {
        SubJoin::LeftUnkeyedVsAllRight => (tasks_with(l, col, None), r),
        SubJoin::RightUnkeyedVsKeyedLeft => (
            keyed_tasks(l, col, group_keys(l, col)),
            tasks_with(r, col, None),
        ),
        SubJoin::KeyedPair(k) => (tasks_with(l, col, Some(k)), tasks_with(r, col, Some(k))),
    }
}

/// The sub-joins of the tasks of two scans on a partition column.
pub open spec fn task_sub_joins(
    l: Seq<Arc<ScanTask>>,
    r: Seq<Arc<ScanTask>>,
    col: Seq<char>,
) -> Seq<(Seq<Arc<ScanTask>>, Seq<Arc<ScanTask>>)> {
    sub_joins(group_keys(l, col), group_keys(r, col)).map_values(
        |sub: SubJoin<u64>| sub_tasks(l, r, col, sub),
    )
}

/// The tasks of the sub-joins that the rule splits a join into, where it does. A single sub-join would
/// be no smaller than the join itself.
pub open spec fn split(join: Join) -> Option<Seq<(Seq<Arc<ScanTask>>, Seq<Arc<ScanTask>>)>> {
    if join.join_type != JoinType::Inner {
        None
    } else {
        match (partition_info(*join.left), partition_info(*join.right)) {
            (Some((l, l_names)), Some((r, r_names))) => match shared_key_from(
                l_names,
                r_names,
                join.on.left_eq@,
                join.on.right_eq@,
                0,
            ) {
                Some(col) => if mismatched(group_keys(l, col), group_keys(r, col))
                    || task_sub_joins(l, r, col).len() <= 1 {
                    None
                } else {
                    Some(task_sub_joins(l, r, col))
                },
                None => None,
            },
            _ => None,
        }
    }
}

/// The plan is the join, restricted to the given tasks of each side.
pub open spec fn is_sub_join(
    plan: LogicalPlan,
    join: Join,
    part: (Seq<Arc<ScanTask>>, Seq<Arc<ScanTask>>),
) -> bool {
    &&& plan matches LogicalPlan::Join(sub)
    &&& is_source_with(*sub.left, *join.left, part.0)
    &&& is_source_with(*sub.right, *join.right, part.1)
    &&& sub.on == join.on
    &&& sub.join_type == join.join_type
    &&& sub.join_strategy == join.join_strategy
    &&& sub.output_schema == join.output_schema
}

/// The plan is a left-leaning concatenation of the sub-joins.
pub open spec fn is_concat_of(
    plan: LogicalPlan,
    join: Join,
    parts: Seq<(Seq<Arc<ScanTask>>, Seq<Arc<ScanTask>>)>,
) -> bool
    decreases parts.len(),
{
    if parts.len() == 0 {
        false
    } else if parts.len() == 1 {
        is_sub_join(plan, join, parts[0])
    } else {
        &&& plan matches LogicalPlan::Concat(c)
        &&& c.output_schema == join.output_schema
        &&& is_concat_of(*c.input, join, parts.drop_last())
        &&& is_sub_join(*c.other, join, parts.last())
    }
}

fn copy_tasks(tasks: &Vec<Arc<ScanTask>>) -> (r: Vec<Arc<ScanTask>>)
    ensures
        r@ == tasks@,
{
    let mut out: Vec<Arc<ScanTask>> = Vec::new();
    let mut i: usize = 0;
    while i < tasks.len()
        invariant
            i <= tasks.len(),
            out@ == tasks@.take(i as int),
        decreases tasks.len() - i,
    {
        out.push(tasks[i].clone());
        i = i + 1;
        assert(out@ =~= tasks@.take(i as int));
    }
    assert(out@ =~= tasks@);
    out
}

fn group_key_list(groups: &Vec<TaskGroup>) -> (r: Vec<Option<u64>>)
    ensures
        r@ == keys_of(groups@),
{
    let mut out: Vec<Option<u64>> = Vec::new();
    let mut i: usize = 0;
    while i < groups.len()
        invariant
            i <= groups.len(),
            out@ == keys_of(groups@).take(i as int),
        decreases groups.len() - i,
    {
        out.push(groups[i].key);
        i = i + 1;
        assert(out@ =~= keys_of(groups@).take(i as int));
    }
    assert(out@ =~= keys_of(groups@));
    out
}

fn keyed_group_tasks(
    groups: &Vec<TaskGroup>,
    Ghost(tasks): Ghost<Seq<Arc<ScanTask>>>,
    Ghost(col): Ghost<Seq<char>>,
) -> (r: Vec<Arc<ScanTask>>)
    requires
        are_groups_of(groups@, tasks, col),
    ensures
        r@ == keyed_tasks(tasks, col, group_keys(tasks, col)),
{
    let ghost keys = group_keys(tasks, col);
    let mut out: Vec<Arc<ScanTask>> = Vec::new();
    let mut i: usize = 0;
    assert(keys.take(0) =~= Seq::empty());
    while i < groups.len()
        invariant
            i <= groups.len(),
            keys == keys_of(groups@),
            are_groups_of(groups@, tasks, col),
            out@ == keyed_tasks(tasks, col, keys.take(i as int)),
        decreases groups.len() - i,
    {
        proof {
            assert(keys.take(i + 1).drop_last() =~= keys.take(i as int));
            assert(keys[i as int] == groups@[i as int].key);
        }
        if groups[i].key.is_some() {
            let mut members = copy_tasks(&groups[i].tasks);
            out.append(&mut members);
        }
        i = i + 1;
    }
    assert(keys.take(i as int) =~= keys);
    out
}

pub(crate) proof fn keyed_lists_present<K>(keys: Seq<Option<K>>, k: K)
    ensures
        keyed(keys).contains(k) <==> keys.contains(Some(k)),
    decreases keys.len(),
{
    if keys.len() > 0 {
        let init = keys.drop_last();
        keyed_lists_present(init, k);
        if keys.contains(Some(k)) {
            let w = choose|w: int| 0 <= w < keys.len() && keys[w] == Some(k);
            if w < init.len() {
                assert(init[w] == Some(k));
                let v = choose|v: int| 0 <= v < keyed(init).len() && keyed(init)[v] == k;
                assert(keyed(keys)[v] == k);
            } else {
                assert(keyed(keys)[keyed(init).len() as int] == k);
            }
        }
        if keyed(keys).contains(k) {
            let v = choose|v: int| 0 <= v < keyed(keys).len() && keyed(keys)[v] == k;
            if v < keyed(init).len() {
                assert(keyed(init)[v] == k);
                let w = choose|w: int| 0 <= w < init.len() && init[w] == Some(k);
                assert(keys[w] == Some(k));
            } else {
                assert(keys[keys.len() - 1] == Some(k));
            }
        }
    }
}

proof fn paired_occur_on_both_sides(l: Seq<u64>, r: Seq<u64>, i: int)
    requires
        0 <= i < paired(l, r).len(),
    ensures
        l.contains(paired(l, r)[i]),
        r.contains(paired(l, r)[i]),
    decreases l.len(),
{
    if l.len() > 0 {
        let init = l.drop_last();
        if i < paired(init, r).len() {
            paired_occur_on_both_sides(init, r, i);
            let w = choose|w: int| 0 <= w < init.len() && init[w] == paired(init, r)[i];
            assert(l[w] == paired(l, r)[i]);
        } else {
            assert(l[l.len() - 1] == paired(l, r)[i]);
            let w = choose|w: int| 0 <= w < r.len() && l.last().eq_spec(&#[trigger] r[w]);
            assert(r[w] == paired(l, r)[i]);
        }
    }
}

/// A planned sub-join only names groups that exist.
proof fn planned_groups_exist(l: Seq<Option<u64>>, r: Seq<Option<u64>>, i: int)
    requires
        0 <= i < sub_joins(l, r).len(),
    ensures
        match sub_joins(l, r)[i] {
            SubJoin::LeftUnkeyedVsAllRight => l.contains(None),
            SubJoin::RightUnkeyedVsKeyedLeft => r.contains(None),
            SubJoin::KeyedPair(k) => l.contains(Some(k)) && r.contains(Some(k)),
        },
{
    match sub_joins(l, r)[i] {
        SubJoin::LeftUnkeyedVsAllRight => {
            let w = choose|w: int| 0 <= w < l.len() && (#[trigger] l[w]) is None;
            assert(l[w] == None::<u64>);
        },
        SubJoin::RightUnkeyedVsKeyedLeft => {
            let w = choose|w: int| 0 <= w < r.len() && (#[trigger] r[w]) is None;
            assert(r[w] == None::<u64>);
        },
        SubJoin::KeyedPair(k) => {
            let pairs = paired(keyed(l), keyed(r));
            let base = sub_joins(l, r).len() - pairs.len();
            assert(pairs[i - base] == k);
            paired_occur_on_both_sides(keyed(l), keyed(r), i - base);
            keyed_lists_present(l, k);
            keyed_lists_present(r, k);
        },
    }
}

fn make_sub_join(
    join: &Join,
    l_tasks: Vec<Arc<ScanTask>>,
    r_tasks: Vec<Arc<ScanTask>>,
) -> (r: Arc<LogicalPlan>)
    requires
        is_physical_source(*join.left),
        is_physical_source(*join.right),
    ensures
        is_sub_join(*r, *join, (l_tasks@, r_tasks@)),
{
    Arc::new(
        LogicalPlan::Join(
            Join {
                left: source_with_tasks(&join.left, l_tasks),
                right: source_with_tasks(&join.right, r_tasks),
                on: join.on.clone(),
                join_type: join.join_type,
                join_strategy: join.join_strategy,
                output_schema: join.output_schema.clone(),
            },
        ),
    )
}

/// Builds one planned sub-join from the task groups of both sides.
fn build_sub_join(
    join: &Join,
    l_groups: &Vec<TaskGroup>,
    r_groups: &Vec<TaskGroup>,
    l_keyed_tasks: &Vec<Arc<ScanTask>>,
    r_tasks: &Vec<Arc<ScanTask>>,
    sub: &SubJoin<u64>,
    Ghost(l): Ghost<Seq<Arc<ScanTask>>>,
    Ghost(col): Ghost<Seq<char>>,
) -> (r: Arc<LogicalPlan>)
    requires
        is_physical_source(*join.left),
        is_physical_source(*join.right),
        are_groups_of(l_groups@, l, col),
        are_groups_of(r_groups@, r_tasks@, col),
        l_keyed_tasks@ == keyed_tasks(l, col, group_keys(l, col)),
        match *sub {
            SubJoin::LeftUnkeyedVsAllRight => keys_of(l_groups@).contains(None),
            SubJoin::RightUnkeyedVsKeyedLeft => keys_of(r_groups@).contains(None),
            SubJoin::KeyedPair(k) => keys_of(l_groups@).contains(Some(k)) && keys_of(
                r_groups@,
            ).contains(Some(k)),
        },
    ensures
        is_sub_join(*r, *join, sub_tasks(l, r_tasks@, col, *sub)),
{
    match sub {
        SubJoin::LeftUnkeyedVsAllRight => match find_group(l_groups, None) {
            Some(i) => make_sub_join(join, copy_tasks(&l_groups[i].tasks), copy_tasks(r_tasks)),
            None => vstd::pervasive::unreached(),
        },
        SubJoin::RightUnkeyedVsKeyedLeft => match find_group(r_groups, None) {
            Some(i) => make_sub_join(
                join,
                copy_tasks(l_keyed_tasks),
                copy_tasks(&r_groups[i].tasks),
            ),
            None => vstd::pervasive::unreached(),
        },
        SubJoin::KeyedPair(k) => match (
            find_group(l_groups, Some(*k)),
            find_group(r_groups, Some(*k)),
        ) {
            (Some(i), Some(j)) => make_sub_join(
                join,
                copy_tasks(&l_groups[i].tasks),
                copy_tasks(&r_groups[j].tasks),
            ),
            _ => vstd::pervasive::unreached(),
        },
    }
}

/// What the rule makes of one node.
pub open spec fn node_result(plan: Arc<LogicalPlan>, r: Transformed) -> bool {
    match *plan {
        LogicalPlan::Join(join) => match split(join) {
            Some(parts) => r.transformed && is_concat_of(*r.data, join, parts),
            None => r.data == plan && !r.transformed,
        },
        _ => r.data == plan && !r.transformed,
    }
}

/// The optimizer rule that splits a join on a shared partition key into one join per partition value.
#[derive(Debug)]
pub struct CollocatedJoin;

impl Default for CollocatedJoin {
    fn default() -> (r: Self)
        ensures
            r == CollocatedJoin,
    {
        CollocatedJoin
    }
}

impl CollocatedJoin {
    /// Applies the rule to one node.
    pub fn try_optimize_node(&self, plan: Arc<LogicalPlan>) -> (r: Result<Transformed, DaftError>)
        ensures
            r matches Ok(t) && node_result(plan, t),
    {
        let join = match &*plan {
            LogicalPlan::Join(join) => join,
            _ => {
                return Ok(Transformed::no(plan));
            },
        };
        if join.join_type != JoinType::Inner {
            return Ok(Transformed::no(plan));
        }
        let (l_tasks, l_pkeys) = match source_partition_info(&join.left) {
            Some(info) => info,
            None => {
                return Ok(Transformed::no(plan));
            },
        };
        let (r_tasks, r_pkeys) = match source_partition_info(&join.right) {
            Some(info) => info,
            None => {
                return Ok(Transformed::no(plan));
            },
        };
        if join.on.left_eq.len() == 0 {
            return Ok(Transformed::no(plan));
        }
        let pk_col = match find_shared_partition_key(
            l_pkeys.as_slice(),
            r_pkeys.as_slice(),
            join.on.left_eq.as_slice(),
            join.on.right_eq.as_slice(),
        ) {
            Some(col) => col,
            None => {
                return Ok(Transformed::no(plan));
            },
        };
        let ghost l = l_tasks@;
        let ghost r = r_tasks@;
        let ghost col = pk_col@;
        let l_groups = group_tasks_by_partition_col(l_tasks.as_slice(), pk_col);
        let r_groups = group_tasks_by_partition_col(r_tasks.as_slice(), pk_col);
        let l_keys = group_key_list(&l_groups);
        let r_keys = group_key_list(&r_groups);
        let planned = match plan_sub_joins(l_keys.as_slice(), r_keys.as_slice()) {
            Some(planned) => planned,
            None => {
                return Ok(Transformed::no(plan));
            },
        };
        let ghost subs = sub_joins(group_keys(l, col), group_keys(r, col));
        let ghost parts = task_sub_joins(l, r, col);
        assert(planned@ =~= subs) by {
            assert forall|i: int| 0 <= i < planned@.len() implies planned@[i] == subs[i] by {
                assert(same_sub_join(subs[i], planned@[i]));
            }
        }
        if planned.len() <= 1 {
            return Ok(Transformed::no(plan));
        }
        let l_keyed_tasks = keyed_group_tasks(&l_groups, Ghost(l), Ghost(col));
        proof {
            planned_groups_exist(l_keys@, r_keys@, 0);
        }
        let mut acc = build_sub_join(
            join,
            &l_groups,
            &r_groups,
            &l_keyed_tasks,
            &r_tasks,
            &planned[0],
            Ghost(l),
            Ghost(col),
        );
        let mut i: usize = 1;
        assert(parts.take(1)[0] == parts[0]);
        while i < planned.len()
            invariant
                1 <= i <= planned.len(),
                planned@ == subs,
                subs == sub_joins(group_keys(l, col), group_keys(r, col)),
                parts == task_sub_joins(l, r, col),
                r == r_tasks@,
                is_physical_source(*join.left),
                is_physical_source(*join.right),
                are_groups_of(l_groups@, l, col),
                are_groups_of(r_groups@, r, col),
                l_keyed_tasks@ == keyed_tasks(l, col, group_keys(l, col)),
                is_concat_of(*acc, *join, parts.take(i as int)),
            decreases planned.len() - i,
        {
            proof {
                planned_groups_exist(group_keys(l, col), group_keys(r, col), i as int);
                assert(parts.take(i + 1).drop_last() =~= parts.take(i as int));
                assert(parts.take(i + 1).last() == parts[i as int]);
            }
            let next = build_sub_join(
                join,
                &l_groups,
                &r_groups,
                &l_keyed_tasks,
                &r_tasks,
                &planned[i],
                Ghost(l),
                Ghost(col),
            );
            acc =
            Arc::new(
                LogicalPlan::Concat(
                    Concat {
                        input: acc,
                        other: next,
                        output_schema: join.output_schema.clone(),
                    },
                ),
            );
            i = i + 1;
        }
        assert(parts.take(i as int) =~= parts);
        Ok(Transformed::yes(acc))
    }

    /// Applies the rule to every node of the plan, children before their parents.
    pub fn try_optimize(&self, plan: Arc<LogicalPlan>) -> (r: Result<Transformed, DaftError>)
        ensures
            r matches Ok(t) && t.transformed == changes(*plan) && optimized(*plan, *t.data),
        decreases *plan,
    {
        match &*plan {
            LogicalPlan::Source(_) => self.try_optimize_node(plan),
            LogicalPlan::Join(join) => {
                let left = self.try_optimize(join.left.clone())?;
                let right = self.try_optimize(join.right.clone())?;
                if left.transformed || right.transformed {
                    proof {
                        changed_is_no_source(*join);
                    }
                    let node = Join {
                        left: left.data,
                        right: right.data,
                        on: join.on.clone(),
                        join_type: join.join_type,
                        join_strategy: join.join_strategy,
                        output_schema: join.output_schema.clone(),
                    };
                    proof {
                        optimized_is_no_source(*join, node);
                    }
                    let t = self.try_optimize_node(Arc::new(LogicalPlan::Join(node)))?;
                    Ok(Transformed::yes(t.data))
                } else {
                    self.try_optimize_node(plan)
                }
            },
            LogicalPlan::Concat(concat) => {
                let input = self.try_optimize(concat.input.clone())?;
                let other = self.try_optimize(concat.other.clone())?;
                if input.transformed || other.transformed {
                    let node = Concat {
                        input: input.data,
                        other: other.data,
                        output_schema: concat.output_schema.clone(),
                    };
                    let t = self.try_optimize_node(Arc::new(LogicalPlan::Concat(node)))?;
                    Ok(Transformed::yes(t.data))
                } else {
                    self.try_optimize_node(plan)
                }
            },
            LogicalPlan::Other(op) => {
                let mut children: Vec<Arc<LogicalPlan>> = Vec::new();
                let mut changed = false;
                let mut i: usize = 0;
                while i < op.children.len()
                    invariant
                        *plan == LogicalPlan::Other(*op),
                        i <= op.children.len(),
                        children@.len() == i,
                        changed == exists|k: int| 0 <= k < i && changes(*#[trigger] op.children@[k]),
                        forall|k: int|
                            0 <= k < i ==> optimized(*op.children@[k], *#[trigger] children@[k]),
                    decreases op.children.len() - i,
                {
                    proof {
                        assert(decreases_to!(*plan => plan->Other_0));
                        assert(decreases_to!(plan->Other_0 => op.children));
                        assert(decreases_to!(op.children => op.children@));
                    }
                    let child = self.try_optimize(op.children[i].clone())?;
                    changed = changed || child.transformed;
                    children.push(child.data);
                    i = i + 1;
                }
                if changed {
                    let node = OtherOp {
                        name: op.name.clone(),
                        children,
                        output_schema: op.output_schema.clone(),
                    };
                    let t = self.try_optimize_node(Arc::new(LogicalPlan::Other(node)))?;
                    Ok(Transformed::yes(t.data))
                } else {
                    self.try_optimize_node(plan)
                }
            },
        }
    }
}

/// The rule changes some node of the plan.
pub open spec fn changes(plan: LogicalPlan) -> bool
    decreases plan,
{
    match plan {
        LogicalPlan::Source(_) => false,
        LogicalPlan::Join(j) => split(j) is Some || changes(*j.left) || changes(*j.right),
        LogicalPlan::Concat(c) => changes(*c.input) || changes(*c.other),
        LogicalPlan::Other(op) => exists|k: int|
            0 <= k < op.children@.len() && changes(*#[trigger] op.children@[k]),
    }
}

/// The second plan is the first, with every join that the rule splits replaced by the concatenation of
/// its sub-joins.
pub open spec fn optimized(plan: LogicalPlan, out: LogicalPlan) -> bool
    decreases plan,
{
    if !changes(plan) {
        out == plan
    } else {
        match (plan, out) {
            (LogicalPlan::Join(j), _) if split(j) is Some => is_concat_of(out, j, split(j)->0),
            (LogicalPlan::Join(j), LogicalPlan::Join(o)) => {
                &&& optimized(*j.left, *o.left)
                &&& optimized(*j.right, *o.right)
                &&& o.on == j.on
                &&& o.join_type == j.join_type
                &&& o.join_strategy == j.join_strategy
                &&& o.output_schema == j.output_schema
            },
            (LogicalPlan::Concat(c), LogicalPlan::Concat(o)) => {
                &&& optimized(*c.input, *o.input)
                &&& optimized(*c.other, *o.other)
                &&& o.output_schema == c.output_schema
            },
            (LogicalPlan::Other(op), LogicalPlan::Other(o)) => {
                &&& o.name == op.name
                &&& o.output_schema == op.output_schema
                &&& o.children@.len() == op.children@.len()
                &&& forall|k: int|
                    0 <= k < op.children@.len() ==> optimized(
                        *op.children@[k],
                        *#[trigger] o.children@[k],
                    )
            },
            _ => false,
        }
    }
}

/// A join with a child that changes is not itself split: its children are not both sources.
proof fn changed_is_no_source(join: Join)
    requires
        changes(*join.left) || changes(*join.right),
    ensures
        split(join) is None,
{
}

/// A child that changed is no source afterwards either.
pub(crate) proof fn optimized_is_no_source(join: Join, out: Join)
    requires
        changes(*join.left) || changes(*join.right),
        optimized(*join.left, *out.left),
        optimized(*join.right, *out.right),
    ensures
        split(out) is None,
{
}

} // verus!
