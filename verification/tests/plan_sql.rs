use std::sync::Arc;

use daft_ext::error::DaftError;
use daft_ext::expr::{AggExpr, BoundColumn, Column, Expr, Literal, Operator};
use daft_ext::local_plan::{
    Filter, HashAggregate, HashJoin, InMemoryScan, JoinType, LocalPhysicalPlan, OtherNode, Project,
    UnGroupedAggregate,
};
use daft_ext::plan_check::plan_columns_exist;
use daft_ext::plan_sql::{
    aggregate_select, dtype_to_duckdb_cast, join_key_predicate, plan_to_sql, projection_list,
    source_view_name,
};
use daft_ext::schema::{DataType, Field, Schema};

fn schema_of(fields: Vec<(&str, DataType)>) -> Arc<Schema> {
    Arc::new(Schema::new(
        fields
            .into_iter()
            .map(|(n, t)| Field::new(n, t))
            .collect::<Vec<_>>(),
    ))
}

fn scan(schema: Arc<Schema>, source_id: u32) -> Arc<LocalPhysicalPlan> {
    Arc::new(LocalPhysicalPlan::InMemoryScan(InMemoryScan {
        source_id,
        schema,
    }))
}

fn bound(index: usize) -> Arc<Expr> {
    Arc::new(Expr::Column(Column::Bound(BoundColumn { index })))
}

fn gt(left: Arc<Expr>, n: i64) -> Arc<Expr> {
    Arc::new(Expr::BinaryOp {
        op: Operator::Gt,
        left,
        right: Arc::new(Expr::Literal(Literal::Int64(n))),
    })
}

fn join_plan(
    null_equals_null: Option<Vec<bool>>,
    join_type: JoinType,
) -> Arc<LocalPhysicalPlan> {
    let left_schema = schema_of(vec![("k", DataType::Int64), ("amount", DataType::Int64)]);
    let right_schema = schema_of(vec![("k", DataType::Int64), ("region", DataType::Utf8)]);
    let out_schema = schema_of(vec![
        ("k", DataType::Int64),
        ("amount", DataType::Int64),
        ("region", DataType::Utf8),
    ]);
    Arc::new(LocalPhysicalPlan::HashJoin(HashJoin {
        left: scan(left_schema, 1),
        right: scan(right_schema, 2),
        left_on: vec![bound(0)],
        right_on: vec![bound(0)],
        null_equals_null,
        join_type,
        schema: out_schema,
    }))
}

#[test]
fn filter_over_scan() {
    let schema = schema_of(vec![("amount", DataType::Int64), ("region", DataType::Utf8)]);
    let f = Arc::new(LocalPhysicalPlan::Filter(Filter {
        input: scan(schema.clone(), 7),
        predicate: gt(bound(0), 100),
        schema,
    }));
    let out = plan_to_sql(&f).unwrap();
    assert_eq!(out.bindings, vec![7]);
    assert_eq!(
        out.sql,
        "SELECT \"amount\", \"region\" FROM (SELECT \"amount\", \"region\" FROM daft_src_7) WHERE (\"amount\" > 100)"
    );
}

#[test]
fn hash_aggregate_group_cols_first_then_aggs() {
    let input_schema = schema_of(vec![("region", DataType::Utf8), ("amount", DataType::Int64)]);
    let out_schema = schema_of(vec![("region", DataType::Utf8), ("total", DataType::Int64)]);
    let agg = Arc::new(LocalPhysicalPlan::HashAggregate(HashAggregate {
        input: scan(input_schema, 3),
        aggregations: vec![AggExpr::Sum(bound(1))],
        group_by: vec![bound(0)],
        schema: out_schema,
    }));
    let out = plan_to_sql(&agg).unwrap();
    assert_eq!(out.bindings, vec![3]);
    assert_eq!(
        out.sql,
        "SELECT \"region\" AS \"region\", CAST(SUM(\"amount\") AS BIGINT) AS \"total\" \
         FROM (SELECT \"region\", \"amount\" FROM daft_src_3) GROUP BY \"region\""
    );
}

#[test]
fn join_key_predicate_uses_eq_when_null_not_equal() {
    assert_eq!(
        join_key_predicate("\"k\"", "\"k\"", false),
        "l.\"k\" = r.\"k\""
    );
}

#[test]
fn join_key_predicate_uses_is_not_distinct_when_null_equal() {
    assert_eq!(
        join_key_predicate("\"k\"", "\"k\"", true),
        "l.\"k\" IS NOT DISTINCT FROM r.\"k\""
    );
}

#[test]
fn hash_join_null_equals_null_emits_is_not_distinct_from() {
    let join = join_plan(Some(vec![true]), JoinType::Inner);
    let out = plan_to_sql(&join).unwrap();
    assert!(
        out.sql.contains("l.\"k\" IS NOT DISTINCT FROM r.\"k\""),
        "expected IS NOT DISTINCT FROM in ON clause, got: {}",
        out.sql
    );
    assert!(
        !out.sql.contains("l.\"k\" = r.\"k\""),
        "should not emit plain `=` when null_equals_null is true: {}",
        out.sql
    );
    assert!(out.sql.contains("l.\"k\" AS \"k\""), "got: {}", out.sql);
}

#[test]
fn hash_join_default_null_equality_emits_eq() {
    let join = join_plan(None, JoinType::Inner);
    let out = plan_to_sql(&join).unwrap();
    assert!(
        out.sql.contains("l.\"k\" = r.\"k\""),
        "expected plain `=` in ON clause, got: {}",
        out.sql
    );
    assert!(
        !out.sql.contains("IS NOT DISTINCT FROM"),
        "should not emit IS NOT DISTINCT FROM when null_equals_null is None: {}",
        out.sql
    );
}

#[test]
fn join_query_in_full() {
    let out = plan_to_sql(&join_plan(None, JoinType::Inner)).unwrap();
    assert_eq!(out.bindings, vec![1, 2]);
    assert_eq!(
        out.sql,
        "SELECT l.\"k\" AS \"k\", l.\"amount\" AS \"amount\", r.\"region\" AS \"region\" \
         FROM (SELECT \"k\", \"amount\" FROM daft_src_1) AS l \
         INNER JOIN (SELECT \"k\", \"region\" FROM daft_src_2) AS r ON l.\"k\" = r.\"k\""
    );
}

#[test]
fn only_inner_joins_are_supported() {
    let e = plan_to_sql(&join_plan(None, JoinType::Left)).unwrap_err();
    assert_eq!(
        e.message(),
        "duckdb POC: unsupported plan node: Left join (inner only)"
    );
    assert!(matches!(e, DaftError::NotImplemented(_)));
}

#[test]
fn projection_renames_to_output_names() {
    let input = schema_of(vec![("a", DataType::Int64), ("b", DataType::Int64)]);
    let plan = Arc::new(LocalPhysicalPlan::Project(Project {
        input: scan(input, 9),
        projection: vec![bound(1), gt(bound(0), 5)],
        schema: schema_of(vec![("b", DataType::Int64), ("big", DataType::Boolean)]),
    }));
    assert_eq!(
        plan_to_sql(&plan).unwrap().sql,
        "SELECT \"b\" AS \"b\", (\"a\" > 5) AS \"big\" FROM (SELECT \"a\", \"b\" FROM daft_src_9)"
    );
}

#[test]
fn ungrouped_aggregate_has_no_group_by() {
    let input = schema_of(vec![("a", DataType::Int64)]);
    let plan = Arc::new(LocalPhysicalPlan::UnGroupedAggregate(UnGroupedAggregate {
        input: scan(input, 4),
        aggregations: vec![AggExpr::Max(bound(0)), AggExpr::Min(bound(0))],
        schema: schema_of(vec![("hi", DataType::Date), ("lo", DataType::Float64)]),
    }));
    assert_eq!(
        plan_to_sql(&plan).unwrap().sql,
        "SELECT MAX(\"a\") AS \"hi\", CAST(MIN(\"a\") AS DOUBLE) AS \"lo\" \
         FROM (SELECT \"a\" FROM daft_src_4)"
    );
}

#[test]
fn aggregate_schema_must_fit() {
    let input = schema_of(vec![("a", DataType::Int64)]);
    let out = schema_of(vec![("x", DataType::Int64)]);
    let groups = vec!["\"a\"".to_string()];
    let aggs = vec![AggExpr::Sum(bound(0))];
    let e = aggregate_select(&out, &groups, &aggs, &input).unwrap_err();
    assert_eq!(
        e.message(),
        "duckdb POC: aggregate output schema has 1 fields but expected 2 (group-by 1 + aggregations 1)"
    );
    assert!(matches!(e, DaftError::ValueError(_)));
}

#[test]
fn unsupported_node_anywhere_is_refused() {
    let schema = schema_of(vec![("a", DataType::Int64)]);
    let sort = Arc::new(LocalPhysicalPlan::Other(OtherNode {
        name: "Sort".to_string(),
        schema: schema.clone(),
    }));
    let plan = Arc::new(LocalPhysicalPlan::Filter(Filter {
        input: sort,
        predicate: gt(bound(0), 1),
        schema,
    }));
    assert_eq!(
        plan_to_sql(&plan).unwrap_err().message(),
        "duckdb POC: unsupported plan node: Sort"
    );
}

#[test]
fn casts_by_output_type() {
    assert_eq!(dtype_to_duckdb_cast(&DataType::Int8), Some("TINYINT"));
    assert_eq!(dtype_to_duckdb_cast(&DataType::Int64), Some("BIGINT"));
    assert_eq!(dtype_to_duckdb_cast(&DataType::UInt32), Some("UINTEGER"));
    assert_eq!(dtype_to_duckdb_cast(&DataType::Float32), Some("FLOAT"));
    assert_eq!(dtype_to_duckdb_cast(&DataType::Utf8), Some("VARCHAR"));
    assert_eq!(dtype_to_duckdb_cast(&DataType::Date), None);
    assert_eq!(dtype_to_duckdb_cast(&DataType::Decimal128(10, 2)), None);
}

#[test]
fn names_are_listed_in_quotes() {
    let schema = schema_of(vec![("a", DataType::Int64), ("b c", DataType::Int64)]);
    assert_eq!(projection_list(&schema), "\"a\", \"b c\"");
    assert_eq!(projection_list(&schema_of(vec![])), "");
}

#[test]
fn view_names_differ_by_source() {
    assert_eq!(source_view_name(0), "daft_src_0");
    assert_eq!(source_view_name(u32::MAX), "daft_src_4294967295");
}

#[test]
fn missing_columns_are_found() {
    let schema = schema_of(vec![("a", DataType::Int64)]);
    let filter = |predicate: Arc<Expr>, input: Arc<LocalPhysicalPlan>| {
        Arc::new(LocalPhysicalPlan::Filter(Filter {
            input,
            predicate,
            schema: schema.clone(),
        }))
    };
    assert!(plan_columns_exist(&filter(gt(bound(0), 1), scan(schema.clone(), 1))));
    assert!(!plan_columns_exist(&filter(gt(bound(1), 1), scan(schema.clone(), 1))));
    // The predicate over a node that is refused is never looked at.
    let sort = Arc::new(LocalPhysicalPlan::Other(OtherNode {
        name: "Sort".to_string(),
        schema: schema.clone(),
    }));
    assert!(plan_columns_exist(&filter(gt(bound(9), 1), sort)));
    assert!(plan_columns_exist(&join_plan(None, JoinType::Inner)));
    let aggregate = |index: usize, width: usize| {
        Arc::new(LocalPhysicalPlan::UnGroupedAggregate(UnGroupedAggregate {
            input: scan(schema.clone(), 1),
            aggregations: vec![AggExpr::Sum(bound(index))],
            schema: schema_of(vec![("x", DataType::Int64); width]),
        }))
    };
    assert!(plan_columns_exist(&aggregate(0, 1)));
    assert!(!plan_columns_exist(&aggregate(3, 1)));
    // A schema of the wrong width is refused before the aggregations are looked at.
    assert!(plan_columns_exist(&aggregate(3, 2)));
    assert!(plan_to_sql(&aggregate(3, 2)).is_err());
}
