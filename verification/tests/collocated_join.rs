use std::sync::Arc;

use daft_ext::collocated_join::{
    expr_col_name, find_shared_partition_key, group_tasks_by_partition_col, plan_sub_joins,
    source_partition_info, source_with_tasks, CollocatedJoin, SubJoin,
};
use daft_ext::expr::{Column, Expr, ResolvedColumn};
use daft_ext::local_plan::JoinType;
use daft_ext::logical_plan::{
    Join, JoinPredicate, JoinStrategy, LogicalPlan, OtherOp, PartitionKey, PartitionSpec,
    PhysicalScanInfo, ScanState, ScanTask, Source, SourceInfo,
};
use daft_ext::schema::{DataType, Field, Schema};

fn resolved_col(name: &str) -> Arc<Expr> {
    Arc::new(Expr::Column(Column::Resolved(ResolvedColumn::Basic(
        Arc::from(name),
    ))))
}

#[test]
fn keyed_pairs_and_partial_overlap() {
    let l = vec![Some(1), Some(2), Some(3)];
    let r = vec![Some(2), Some(3), Some(4)];
    let plan = plan_sub_joins(&l, &r).expect("partial overlap must not abort");
    assert!(plan.contains(&SubJoin::KeyedPair(2)));
    assert!(plan.contains(&SubJoin::KeyedPair(3)));
    assert_eq!(plan.len(), 2);
}

#[test]
fn right_unkeyed_tasks_are_joined_against_keyed_left() {
    let l = vec![Some(1), Some(2)];
    let r = vec![Some(1), None];
    let plan = plan_sub_joins(&l, &r).unwrap();
    assert!(plan.contains(&SubJoin::RightUnkeyedVsKeyedLeft));
    assert!(plan.contains(&SubJoin::KeyedPair(1)));
}

#[test]
fn unkeyed_on_both_sides_is_not_double_counted() {
    let l = vec![Some(1), None];
    let r = vec![Some(1), None];
    let plan = plan_sub_joins(&l, &r).unwrap();
    assert!(plan.contains(&SubJoin::LeftUnkeyedVsAllRight));
    assert!(plan.contains(&SubJoin::RightUnkeyedVsKeyedLeft));
    assert!(plan.contains(&SubJoin::KeyedPair(1)));
    assert_eq!(plan.len(), 3);
}

#[test]
fn systematic_mismatch_aborts() {
    let l = vec![Some(1), Some(2)];
    let r = vec![Some(10), Some(20)];
    assert!(plan_sub_joins(&l, &r).is_none());
}

#[test]
fn systematic_mismatch_with_left_unkeyed_still_aborts() {
    let l = vec![Some(1), Some(2), None];
    let r = vec![Some(10)];
    assert!(plan_sub_joins(&l, &r).is_none());
}

#[test]
fn all_right_unkeyed_pairs_with_keyed_left() {
    let l = vec![Some(1), Some(2)];
    let r = vec![None];
    let plan = plan_sub_joins(&l, &r).unwrap();
    assert_eq!(plan, vec![SubJoin::RightUnkeyedVsKeyedLeft]);
}

#[test]
fn find_shared_partition_key_requires_both_sides() {
    let l_pkeys = vec!["region".to_string()];
    let r_pkeys: Vec<String> = vec![];
    let l_eq = vec![resolved_col("region")];
    let r_eq = vec![resolved_col("region")];
    assert_eq!(find_shared_partition_key(&l_pkeys, &r_pkeys, &l_eq, &r_eq), None);
    let r_pkeys = vec!["region".to_string()];
    assert_eq!(
        find_shared_partition_key(&l_pkeys, &r_pkeys, &l_eq, &r_eq),
        Some("region")
    );
}

#[test]
fn the_first_shared_key_wins() {
    let keys = vec!["a".to_string(), "b".to_string()];
    let computed = Arc::new(Expr::Other("a + 1".to_string()));
    let l_eq = vec![computed, resolved_col("x"), resolved_col("b"), resolved_col("a")];
    let r_eq = vec![
        resolved_col("a"),
        resolved_col("a"),
        resolved_col("a"),
        resolved_col("a"),
    ];
    // Columns with different names are no shared key.
    assert_eq!(find_shared_partition_key(&keys, &keys, &l_eq, &r_eq), Some("a"));
    assert_eq!(find_shared_partition_key(&keys, &keys, &l_eq[..3], &r_eq), None);
    assert_eq!(expr_col_name(&l_eq[1]), Some("x"));
    assert_eq!(expr_col_name(&l_eq[0]), None);
}

fn schema() -> Arc<Schema> {
    Arc::new(Schema::new(vec![Field::new("cell", DataType::Utf8)]))
}

fn task(id: u64, key: Option<u64>) -> Arc<ScanTask> {
    Arc::new(ScanTask {
        id,
        partition_spec: key.map(|value| PartitionSpec {
            keys: vec![PartitionKey {
                name: Arc::from("cell"),
                value,
            }],
        }),
    })
}

fn source(tasks: Vec<Arc<ScanTask>>) -> Arc<LogicalPlan> {
    Arc::new(LogicalPlan::Source(Source {
        output_schema: schema(),
        source_info: Arc::new(SourceInfo::Physical(PhysicalScanInfo {
            scan_state: ScanState::Tasks(Arc::new(tasks)),
            source_schema: schema(),
            partitioning_keys: Arc::new(vec![Field::new("cell", DataType::Utf8)]),
            pushdowns: Arc::from("columns=[cell]"),
        })),
    }))
}

fn join(left: Arc<LogicalPlan>, right: Arc<LogicalPlan>, join_type: JoinType) -> Arc<LogicalPlan> {
    Arc::new(LogicalPlan::Join(Join {
        left,
        right,
        on: Arc::new(JoinPredicate {
            remaining: None,
            left_eq: vec![resolved_col("cell")],
            right_eq: vec![resolved_col("cell")],
            null_equals_nulls: vec![false],
        }),
        join_type,
        join_strategy: Some(JoinStrategy::Hash),
        output_schema: schema(),
    }))
}

fn task_ids(plan: &LogicalPlan) -> Vec<u64> {
    let LogicalPlan::Source(s) = plan else {
        panic!("not a source")
    };
    let SourceInfo::Physical(p) = &*s.source_info else {
        panic!("not physical")
    };
    assert_eq!(&*p.pushdowns, "columns=[cell]");
    let ScanState::Tasks(tasks) = &p.scan_state else {
        panic!("no tasks")
    };
    tasks.iter().map(|t| t.id).collect()
}

fn sub_joins(plan: &LogicalPlan) -> Vec<(Vec<u64>, Vec<u64>)> {
    match plan {
        LogicalPlan::Concat(c) => {
            let mut parts = sub_joins(&c.input);
            parts.extend(sub_joins(&c.other));
            parts
        }
        LogicalPlan::Join(j) => {
            assert_eq!(j.join_type, JoinType::Inner);
            assert_eq!(j.join_strategy, Some(JoinStrategy::Hash));
            vec![(task_ids(&j.left), task_ids(&j.right))]
        }
        _ => panic!("unexpected node"),
    }
}

#[test]
fn tasks_are_grouped_in_order() {
    let tasks = vec![
        task(1, Some(7)),
        task(2, None),
        task(3, Some(8)),
        task(4, Some(7)),
    ];
    let groups = group_tasks_by_partition_col(&tasks, "cell");
    let seen: Vec<(Option<u64>, Vec<u64>)> = groups
        .iter()
        .map(|g| (g.key, g.tasks.iter().map(|t| t.id).collect()))
        .collect();
    assert_eq!(
        seen,
        vec![
            (Some(7), vec![1, 4]),
            (None, vec![2]),
            (Some(8), vec![3])
        ]
    );
    // A column that no task has puts all of them under `None`.
    let none = group_tasks_by_partition_col(&tasks, "other");
    assert_eq!(none.len(), 1);
    assert_eq!(none[0].key, None);
    assert_eq!(none[0].tasks.len(), 4);
}

#[test]
fn join_is_split_by_partition_value() {
    let left = source(vec![task(1, Some(10)), task(2, Some(20)), task(3, Some(10))]);
    let right = source(vec![task(4, Some(20)), task(5, Some(10)), task(6, Some(30))]);
    let plan = join(left, right, JoinType::Inner);
    let t = CollocatedJoin::default().try_optimize(plan).unwrap();
    assert!(t.transformed);
    assert_eq!(
        sub_joins(&t.data),
        vec![(vec![1, 3], vec![5]), (vec![2], vec![4])]
    );
}

#[test]
fn every_matching_pair_is_joined_once() {
    let left = vec![(1, Some(10)), (2, None), (3, Some(20)), (4, Some(99))];
    let right = vec![(5, None), (6, Some(10)), (7, Some(20)), (8, Some(77))];
    let plan = join(
        source(left.iter().map(|&(id, k)| task(id, k)).collect()),
        source(right.iter().map(|&(id, k)| task(id, k)).collect()),
        JoinType::Inner,
    );
    let t = CollocatedJoin.try_optimize_node(plan).unwrap();
    let parts = sub_joins(&t.data);
    for &(l, lk) in &left {
        for &(r, rk) in &right {
            let times = parts
                .iter()
                .filter(|(ls, rs)| ls.contains(&l) && rs.contains(&r))
                .count();
            let expected = if lk.is_none() || rk.is_none() || lk == rk {
                1
            } else {
                0
            };
            assert_eq!(times, expected, "pair ({l}, {r})");
        }
    }
}

#[test]
fn single_sub_join_keeps_the_plan() {
    let plan = join(
        source(vec![task(1, Some(10))]),
        source(vec![task(2, Some(10)), task(3, Some(20))]),
        JoinType::Inner,
    );
    let t = CollocatedJoin.try_optimize(plan.clone()).unwrap();
    assert!(!t.transformed);
    assert!(Arc::ptr_eq(&t.data, &plan));
}

#[test]
fn mismatched_values_and_outer_joins_keep_the_plan() {
    let left = || source(vec![task(1, Some(10)), task(2, Some(20))]);
    let right = || source(vec![task(3, Some(30)), task(4, Some(40))]);
    let mismatch = join(left(), right(), JoinType::Inner);
    assert!(!CollocatedJoin.try_optimize(mismatch).unwrap().transformed);
    let outer = join(left(), left(), JoinType::Left);
    assert!(!CollocatedJoin.try_optimize(outer).unwrap().transformed);
}

#[test]
fn joins_below_other_nodes_are_split() {
    let inner = join(
        source(vec![task(1, Some(10)), task(2, Some(20))]),
        source(vec![task(3, Some(10)), task(4, Some(20))]),
        JoinType::Inner,
    );
    let plan = Arc::new(LogicalPlan::Other(OtherOp {
        name: Arc::from("Limit"),
        children: vec![source(vec![]), inner],
        output_schema: schema(),
    }));
    let t = CollocatedJoin.try_optimize(plan).unwrap();
    assert!(t.transformed);
    let LogicalPlan::Other(op) = &*t.data else {
        panic!("the node stays")
    };
    assert_eq!(&*op.name, "Limit");
    assert_eq!(
        sub_joins(&op.children[1]),
        vec![(vec![1], vec![3]), (vec![2], vec![4])]
    );
}

#[test]
fn partition_info_needs_tasks_and_keys() {
    let (tasks, names) = source_partition_info(&source(vec![task(1, None)])).unwrap();
    assert_eq!(tasks.len(), 1);
    assert_eq!(names, vec!["cell".to_string()]);
    let unmaterialized = LogicalPlan::Source(Source {
        output_schema: schema(),
        source_info: Arc::new(SourceInfo::Physical(PhysicalScanInfo {
            scan_state: ScanState::Operator("glob".to_string()),
            source_schema: schema(),
            partitioning_keys: Arc::new(vec![Field::new("cell", DataType::Utf8)]),
            pushdowns: Arc::from(""),
        })),
    });
    assert!(source_partition_info(&unmaterialized).is_none());
    let replaced = source_with_tasks(&source(vec![]), vec![task(8, None)]);
    assert_eq!(task_ids(&replaced), vec![8]);
}

#[test]
fn one_pass_splits_everything() {
    let plan = join(
        source(vec![task(1, Some(10)), task(2, None), task(3, Some(20))]),
        source(vec![task(4, Some(20)), task(5, Some(10)), task(6, None)]),
        JoinType::Inner,
    );
    let once = CollocatedJoin.try_optimize(plan).unwrap();
    assert!(once.transformed);
    let LogicalPlan::Concat(c) = &*once.data else {
        panic!("not a concatenation")
    };
    assert_eq!(c.output_schema.fields.len(), 1);
    let twice = CollocatedJoin.try_optimize(once.data.clone()).unwrap();
    assert!(!twice.transformed);
    assert!(Arc::ptr_eq(&once.data, &twice.data));
}

#[test]
fn keys_of_different_names_keep_the_plan() {
    let scan = |keys: &[&str], tasks: &[&[(&str, u64)]]| {
        let tasks = tasks
            .iter()
            .enumerate()
            .map(|(id, values)| {
                Arc::new(ScanTask {
                    id: id as u64,
                    partition_spec: Some(PartitionSpec {
                        keys: values
                            .iter()
                            .map(|&(name, value)| PartitionKey {
                                name: Arc::from(name),
                                value,
                            })
                            .collect(),
                    }),
                })
            })
            .collect();
        Arc::new(LogicalPlan::Source(Source {
            output_schema: schema(),
            source_info: Arc::new(SourceInfo::Physical(PhysicalScanInfo {
                scan_state: ScanState::Tasks(Arc::new(tasks)),
                source_schema: schema(),
                partitioning_keys: Arc::new(
                    keys.iter().map(|k| Field::new(k, DataType::Int64)).collect(),
                ),
                pushdowns: Arc::from(""),
            })),
        }))
    };
    let plan = Arc::new(LogicalPlan::Join(Join {
        left: scan(&["a"], &[&[("a", 1)], &[("a", 2)]]),
        right: scan(&["b", "a"], &[&[("b", 1), ("a", 2)], &[("b", 2), ("a", 1)]]),
        on: Arc::new(JoinPredicate {
            remaining: None,
            left_eq: vec![resolved_col("a")],
            right_eq: vec![resolved_col("b")],
            null_equals_nulls: vec![false],
        }),
        join_type: JoinType::Inner,
        join_strategy: None,
        output_schema: schema(),
    }));
    let t = CollocatedJoin.try_optimize(plan.clone()).unwrap();
    assert!(!t.transformed);
    assert!(Arc::ptr_eq(&t.data, &plan));
}
