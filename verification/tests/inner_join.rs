use std::sync::Arc;

use daft_ext::inner_join::{probe_inner, HashJoinParams, RowMatches};
use daft_ext::record_batch::{
    get_columns_by_name, GrowableRecordBatch, MicroPartition, RecordBatch,
};
use daft_ext::schema::{DataType, Field, Schema};

fn schema(names: &[&str]) -> Schema {
    Schema::new(
        names
            .iter()
            .map(|n| Field::new(n, DataType::Int64))
            .collect::<Vec<_>>(),
    )
}

fn i64_batch(name1: &str, v1: Vec<i64>, name2: &str, v2: Vec<i64>) -> RecordBatch<i64> {
    let rows = v1.len();
    RecordBatch::new(schema(&[name1, name2]), vec![v1, v2], rows)
}

fn names(batch: &RecordBatch<i64>) -> Vec<String> {
    batch
        .schema
        .fields
        .iter()
        .map(|f| f.name.to_string())
        .collect()
}

/// The matches of the first column of the input in the first columns of the build tables.
fn probe(input: &RecordBatch<i64>, build: &[RecordBatch<i64>]) -> Vec<RowMatches> {
    input.columns[0]
        .iter()
        .map(|key| {
            let mut found = vec![];
            for (t, table) in build.iter().enumerate() {
                for (r, k) in table.columns[0].iter().enumerate() {
                    if k == key {
                        found.push((t as u32, r as u64));
                    }
                }
            }
            if found.is_empty() {
                None
            } else {
                Some(found)
            }
        })
        .collect()
}

fn params(build_on_left: bool) -> HashJoinParams {
    HashJoinParams {
        build_on_left,
        left_schema: Arc::new(schema(&["k", "v"])),
        right_schema: Arc::new(schema(&["k", "w"])),
        common_join_cols: vec!["k".to_string()],
        output_schema: Arc::new(schema(&["k", "v", "w"])),
    }
}

fn join(build_tables: Vec<RecordBatch<i64>>) -> MicroPartition<i64> {
    let table = i64_batch("k", vec![2, 3, 4], "w", vec![200, 300, 400]);
    let matches = vec![probe(&table, &build_tables)];
    let input = MicroPartition::new_loaded(Arc::new(schema(&["k", "w"])), vec![table]);
    probe_inner(&input, &build_tables, &matches, &params(true)).unwrap()
}

fn run(build_tables: Vec<RecordBatch<i64>>) -> usize {
    join(build_tables).len()
}

#[test]
fn inner_join_single_and_multi_table_build_match() {
    let single = vec![i64_batch("k", vec![1, 2, 3], "v", vec![10, 20, 30])];
    let multi = vec![
        i64_batch("k", vec![1, 2], "v", vec![10, 20]),
        i64_batch("k", vec![3], "v", vec![30]),
    ];
    assert_eq!(run(single), 2, "single-table build");
    assert_eq!(run(multi), 2, "multi-table build");
}

#[test]
fn single_and_multi_table_build_give_the_same_rows() {
    let single = join(vec![i64_batch("k", vec![1, 2, 3], "v", vec![10, 20, 30])]);
    let multi = join(vec![
        i64_batch("k", vec![1, 2], "v", vec![10, 20]),
        i64_batch("k", vec![3], "v", vec![30]),
    ]);
    let expected = vec![vec![2, 3], vec![20, 30], vec![200, 300]];
    assert_eq!(single.tables[0].columns, expected);
    assert_eq!(multi.tables[0].columns, expected);
    assert_eq!(names(&single.tables[0]), vec!["k", "v", "w"]);
}

#[test]
fn duplicate_keys_multiply() {
    let build = vec![
        i64_batch("k", vec![2, 2], "v", vec![20, 21]),
        i64_batch("k", vec![2], "v", vec![22]),
    ];
    let out = join(build);
    assert_eq!(
        out.tables[0].columns,
        vec![vec![2, 2, 2], vec![20, 21, 22], vec![200, 200, 200]]
    );
}

#[test]
fn build_side_may_be_the_right_input() {
    let probe_table = i64_batch("k", vec![5, 6], "v", vec![50, 60]);
    let build = vec![i64_batch("k", vec![6], "w", vec![600])];
    let matches = vec![probe(&probe_table, &build)];
    let input = MicroPartition::new_loaded(Arc::new(schema(&["k", "v"])), vec![probe_table]);
    let out = probe_inner(&input, &build, &matches, &params(false)).unwrap();
    assert_eq!(out.tables[0].columns, vec![vec![6], vec![60], vec![600]]);
}

#[test]
fn missing_columns_are_reported() {
    let probe_table = i64_batch("k", vec![5], "w", vec![50]);
    let build = vec![i64_batch("k", vec![5], "z", vec![500])];
    let matches = vec![probe(&probe_table, &build)];
    let input = MicroPartition::new_loaded(Arc::new(schema(&["k", "w"])), vec![probe_table]);
    let e = probe_inner(&input, &build, &matches, &params(true)).unwrap_err();
    assert_eq!(e.message(), "v");
}

#[test]
fn no_input_batches_give_no_output() {
    let input = MicroPartition::<i64>::new_loaded(Arc::new(schema(&["k", "w"])), vec![]);
    let out = probe_inner(&input, &vec![], &vec![], &params(true)).unwrap();
    assert_eq!(out.len(), 0);
}

#[test]
fn batches_are_gathered_and_selected() {
    let a = i64_batch("x", vec![1, 2, 3], "y", vec![4, 5, 6]);
    let taken = a.take(&vec![2, 0, 2]);
    assert_eq!(taken.columns, vec![vec![3, 1, 3], vec![6, 4, 6]]);
    let y = get_columns_by_name(&a, &vec!["y".to_string()]).unwrap();
    assert_eq!(y.columns, vec![vec![4, 5, 6]]);
    assert_eq!(names(&y.union(&a)), vec!["y", "x", "y"]);
    let tables = vec![a, i64_batch("x", vec![7], "y", vec![8])];
    let mut growable = GrowableRecordBatch::new(&tables);
    growable.extend(1, 0, 1);
    growable.extend(0, 1, 2);
    assert_eq!(growable.len(), 3);
    assert_eq!(
        growable.build().columns,
        vec![vec![7, 2, 3], vec![8, 5, 6]]
    );
}
