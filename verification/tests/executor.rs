use std::sync::Arc;

use daft_ext::error::DaftError;
use daft_ext::executor::{
    Action, DuckDbConfig, DuckDbExecutor, DuckDbSession, Event, Execution,
};
use daft_ext::expr::{BoundColumn, Column, Expr, Literal, Operator};
use daft_ext::local_plan::{
    Filter, HashJoin, InMemoryScan, JoinType, LocalPhysicalPlan, OtherNode,
};
use daft_ext::rebatch::{rebatch, RowRange};
use daft_ext::schema::{DataType, Field, Schema};

fn scan(id: u32) -> Arc<LocalPhysicalPlan> {
    Arc::new(LocalPhysicalPlan::InMemoryScan(InMemoryScan {
        source_id: id,
        schema: amount_schema(),
    }))
}

fn amount_schema() -> Arc<Schema> {
    Arc::new(Schema::new(vec![Field::new("amount", DataType::Int64)]))
}

/// `filter(amount > 100)` over a scan of source 3.
fn filter_plan() -> Arc<LocalPhysicalPlan> {
    Arc::new(LocalPhysicalPlan::Filter(Filter {
        input: scan(3),
        predicate: Arc::new(Expr::BinaryOp {
            op: Operator::Gt,
            left: Arc::new(Expr::Column(Column::Bound(BoundColumn { index: 0 }))),
            right: Arc::new(Expr::Literal(Literal::Int64(100))),
        }),
        schema: amount_schema(),
    }))
}

const FILTER_SQL: &str =
    "SELECT \"amount\" FROM (SELECT \"amount\" FROM daft_src_3) WHERE (\"amount\" > 100)";

fn describe(action: &Action) -> String {
    match action {
        Action::Open => "open".to_string(),
        Action::Execute(s) => format!("execute {s}"),
        Action::Fetch(id) => format!("fetch {id}"),
        Action::Register(id, name) => format!("register {id} as {name}"),
        Action::Query(s) => format!("query {s}"),
        Action::Finish(Ok(())) => "finish".to_string(),
        Action::Finish(Err(e)) => format!("fail: {}", e.message()),
    }
}

/// Carries every action out with success; fetches find two batches.
fn run_to_end(mut run: Execution) -> Vec<String> {
    let mut seen = vec![];
    let mut action = run.action();
    loop {
        seen.push(describe(&action));
        let event = match action {
            Action::Finish(_) => return seen,
            Action::Fetch(_) => Event::Batches(vec![3, 4]),
            _ => Event::Done,
        };
        action = run.next(event);
    }
}

#[test]
fn default_run_opens_registers_and_queries() {
    let run = DuckDbExecutor::run(&filter_plan()).unwrap();
    assert_eq!(
        run_to_end(run),
        vec![
            "open".to_string(),
            "fetch 3".to_string(),
            "register 3 as daft_src_3".to_string(),
            format!("query {FILTER_SQL}"),
            "finish".to_string(),
        ]
    );
}

#[test]
fn caps_are_applied_before_anything_else() {
    let config = DuckDbConfig {
        threads: Some(2),
        memory_limit: Some("1GB".to_string()),
    };
    let seen = run_to_end(DuckDbExecutor::run_with_config(&filter_plan(), &config).unwrap());
    assert_eq!(
        seen[..3],
        ["open", "execute SET threads=2;", "execute SET memory_limit='1GB';"]
    );
    assert_eq!(seen.len(), 7);
}

#[test]
fn benchmark_registers_once_and_repeats_the_query() {
    let seen = run_to_end(
        DuckDbExecutor::bench_runs(&filter_plan(), &DuckDbConfig::default(), 3).unwrap(),
    );
    assert_eq!(seen.iter().filter(|s| s.starts_with("register")).count(), 1);
    assert_eq!(seen.iter().filter(|s| s.starts_with("query")).count(), 3);
    let none = run_to_end(
        DuckDbExecutor::bench_runs(&filter_plan(), &DuckDbConfig::default(), 0).unwrap(),
    );
    assert_eq!(none.last().unwrap(), "finish");
    assert_eq!(none.iter().filter(|s| s.starts_with("query")).count(), 0);
}

/// A join of the sources 5 and 1.
fn join_plan() -> Arc<LocalPhysicalPlan> {
    Arc::new(LocalPhysicalPlan::HashJoin(HashJoin {
        left: scan(5),
        right: scan(1),
        left_on: vec![Arc::new(Expr::Column(Column::Bound(BoundColumn { index: 0 })))],
        right_on: vec![Arc::new(Expr::Column(Column::Bound(BoundColumn { index: 0 })))],
        null_equals_null: None,
        join_type: JoinType::Inner,
        schema: amount_schema(),
    }))
}

#[test]
fn all_sources_are_registered_before_the_query() {
    let plan = join_plan();
    let seen = run_to_end(DuckDbExecutor::run(&plan).unwrap());
    assert_eq!(
        seen[1..5],
        [
            "fetch 5",
            "register 5 as daft_src_5",
            "fetch 1",
            "register 1 as daft_src_1"
        ]
    );
    assert!(seen[5].starts_with("query "));
}

#[test]
fn quoted_memory_limit_is_refused() {
    let config = DuckDbConfig {
        threads: None,
        memory_limit: Some("1GB'; --".to_string()),
    };
    let seen = run_to_end(DuckDbExecutor::run_with_config(&filter_plan(), &config).unwrap());
    assert_eq!(
        seen,
        vec!["open", "fail: duckdb POC: invalid memory_limit \"1GB'; --\""]
    );
}

#[test]
fn sources_without_data_end_the_run() {
    let start = || {
        let mut run = DuckDbExecutor::run(&filter_plan()).unwrap();
        run.next(Event::Done);
        run
    };
    assert_eq!(
        describe(&start().next(Event::NoPartitions)),
        "fail: duckdb POC: no input partitions for source 3"
    );
    assert_eq!(
        describe(&start().next(Event::Batches(vec![]))),
        "fail: duckdb POC: source 3 has no record batches"
    );
    let failed = DaftError::External("disk full".to_string());
    assert_eq!(describe(&start().next(Event::Failed(failed))), "fail: disk full");
}

#[test]
fn untranslatable_plans_never_open_a_connection() {
    let plan = Arc::new(LocalPhysicalPlan::Other(OtherNode {
        name: "Sort".to_string(),
        schema: amount_schema(),
    }));
    assert_eq!(
        DuckDbExecutor::run(&plan).unwrap_err().message(),
        "duckdb POC: unsupported plan node: Sort"
    );
}

#[test]
fn sessions_open_once_and_reuse_the_translation() {
    let config = DuckDbConfig {
        threads: Some(1),
        memory_limit: None,
    };
    let (mut session, setup) = DuckDbSession::new(&config);
    assert_eq!(
        run_to_end(setup),
        vec!["open", "execute SET threads=1;", "finish"]
    );
    let plan = filter_plan();
    for _ in 0..2 {
        let seen = run_to_end(session.run(&plan).unwrap());
        assert_eq!(
            seen,
            vec![
                "fetch 3".to_string(),
                "register 3 as daft_src_3".to_string(),
                format!("query {FILTER_SQL}"),
                "finish".to_string(),
            ]
        );
    }
    // A plan that cannot be translated leaves the kept translation in place.
    let other = Arc::new(LocalPhysicalPlan::Other(OtherNode {
        name: "Limit".to_string(),
        schema: amount_schema(),
    }));
    assert!(session.run(&other).is_err());
    assert_eq!(run_to_end(session.run(&plan).unwrap())[0], "fetch 3");
    // Another plan is translated anew.
    let next = run_to_end(session.run(&scan(8)).unwrap());
    assert_eq!(next[0], "fetch 8");
    assert!(session.run(&other).is_err());
}

#[test]
fn rebatch_splits_large_batches_zero_copy_and_lossless() {
    let range = |batch, start, rows| RowRange { batch, start, rows };
    let out = rebatch(&vec![1000], 300);
    assert_eq!(
        out,
        vec![
            range(0, 0, 300),
            range(0, 300, 300),
            range(0, 600, 300),
            range(0, 900, 100)
        ]
    );
    // A batch at or under the target is unchanged, and so is any batch for a zero target.
    assert_eq!(rebatch(&vec![1000], 5000), vec![range(0, 0, 1000)]);
    assert_eq!(rebatch(&vec![1000], 1000), vec![range(0, 0, 1000)]);
    assert_eq!(rebatch(&vec![1000, 0], 0), vec![range(0, 0, 1000), range(1, 0, 0)]);
    assert!(rebatch(&vec![], 300).is_empty());
}

#[test]
fn sources_are_registered_in_small_batches() {
    let range = |batch, start, rows| RowRange { batch, start, rows };
    let mut run = DuckDbExecutor::run(&filter_plan()).unwrap();
    run.next(Event::Done);
    let action = run.next(Event::Batches(vec![5, 245_761]));
    assert_eq!(describe(&action), "register 3 as daft_src_3");
    assert_eq!(
        run.ranges(),
        vec![
            range(0, 0, 5),
            range(1, 0, 122_880),
            range(1, 122_880, 122_880),
            range(1, 245_760, 1)
        ]
    );
}

#[test]
fn each_source_is_registered_with_its_own_batches() {
    let range = |batch, start, rows| RowRange { batch, start, rows };
    let mut run = DuckDbExecutor::run(&join_plan()).unwrap();
    run.next(Event::Done);
    let action = run.next(Event::Batches(vec![7]));
    assert_eq!(describe(&action), "register 5 as daft_src_5");
    assert_eq!(run.ranges(), vec![range(0, 0, 7)]);
    run.next(Event::Done);
    let action = run.next(Event::Batches(vec![2, 3]));
    assert_eq!(describe(&action), "register 1 as daft_src_1");
    assert_eq!(run.ranges(), vec![range(0, 0, 2), range(1, 0, 3)]);
}
