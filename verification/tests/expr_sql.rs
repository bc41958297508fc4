use std::sync::Arc;

use daft_ext::error::DaftError;
use daft_ext::expr::{
    AggExpr, BoundColumn, Column, CountMode, Expr, Literal, Operator, ResolvedColumn,
};
use daft_ext::expr_sql::{agg_to_sql, binop_to_sql, expr_to_sql, literal_to_sql};
use daft_ext::schema::{DataType, Field, Schema};

fn schema() -> Schema {
    Schema::new(vec![
        Field::new("amount", DataType::Int64),
        Field::new("region", DataType::Utf8),
    ])
}

fn bound_col(name: &str) -> Arc<Expr> {
    let index = schema()
        .fields
        .iter()
        .position(|f| &*f.name == name)
        .unwrap();
    Arc::new(Expr::Column(Column::Bound(BoundColumn { index })))
}

fn lit(l: Literal) -> Arc<Expr> {
    Arc::new(Expr::Literal(l))
}

fn binary(op: Operator, left: Arc<Expr>, right: Arc<Expr>) -> Arc<Expr> {
    Arc::new(Expr::BinaryOp { op, left, right })
}

fn gt_100() -> Arc<Expr> {
    binary(Operator::Gt, bound_col("amount"), lit(Literal::Int64(100)))
}

fn float(v: f64) -> Literal {
    Literal::Float64 {
        bits: v.to_bits(),
        text: v.to_string(),
    }
}

#[test]
fn column_becomes_quoted_name() {
    let e = bound_col("amount");
    assert_eq!(expr_to_sql(&e, &schema()).unwrap(), "\"amount\"");
}

#[test]
fn comparison_and_literal() {
    let e = gt_100();
    assert_eq!(expr_to_sql(&e, &schema()).unwrap(), "(\"amount\" > 100)");
}

#[test]
fn string_literal_is_single_quoted() {
    let e = binary(
        Operator::Eq,
        bound_col("region"),
        lit(Literal::Utf8("us".to_string())),
    );
    assert_eq!(expr_to_sql(&e, &schema()).unwrap(), "(\"region\" = 'us')");
}

#[test]
fn unsupported_expr_errors() {
    // A cast is outside the supported subset.
    let e2 = Arc::new(Expr::Other("cast(col(amount) as Float64)".to_string()));
    assert!(expr_to_sql(&e2, &schema()).is_err());
}

#[test]
fn not_wraps_inner() {
    let e = Arc::new(Expr::Not(gt_100()));
    assert_eq!(
        expr_to_sql(&e, &schema()).unwrap(),
        "(NOT (\"amount\" > 100))"
    );
}

#[test]
fn is_null() {
    let e = Arc::new(Expr::IsNull(bound_col("region")));
    assert_eq!(expr_to_sql(&e, &schema()).unwrap(), "(\"region\" IS NULL)");
}

#[test]
fn is_not_null() {
    let e = Arc::new(Expr::NotNull(bound_col("region")));
    assert_eq!(
        expr_to_sql(&e, &schema()).unwrap(),
        "(\"region\" IS NOT NULL)"
    );
}

#[test]
fn null_literal() {
    let e = lit(Literal::Null);
    assert_eq!(expr_to_sql(&e, &schema()).unwrap(), "NULL");
}

#[test]
fn boolean_literal() {
    let e = lit(Literal::Boolean(false));
    assert_eq!(expr_to_sql(&e, &schema()).unwrap(), "FALSE");
}

#[test]
fn non_finite_float_literal_errors() {
    let e = lit(float(f64::NAN));
    assert!(expr_to_sql(&e, &schema()).is_err());
}

#[test]
fn count_valid_counts_column() {
    let agg = AggExpr::Count(bound_col("amount"), CountMode::Valid);
    assert_eq!(agg_to_sql(&agg, &schema()).unwrap(), "COUNT(\"amount\")");
}

#[test]
fn count_all_counts_star() {
    let agg = AggExpr::Count(bound_col("amount"), CountMode::All);
    assert_eq!(agg_to_sql(&agg, &schema()).unwrap(), "COUNT(*)");
}

#[test]
fn count_null_is_unsupported() {
    let agg = AggExpr::Count(bound_col("amount"), CountMode::Null);
    assert!(agg_to_sql(&agg, &schema()).is_err());
}

#[test]
fn sum_emits_sum() {
    let agg = AggExpr::Sum(bound_col("amount"));
    assert_eq!(agg_to_sql(&agg, &schema()).unwrap(), "SUM(\"amount\")");
}

#[test]
fn other_aggregations() {
    assert_eq!(
        agg_to_sql(&AggExpr::Min(bound_col("amount")), &schema()).unwrap(),
        "MIN(\"amount\")"
    );
    assert_eq!(
        agg_to_sql(&AggExpr::Max(bound_col("amount")), &schema()).unwrap(),
        "MAX(\"amount\")"
    );
    assert_eq!(
        agg_to_sql(&AggExpr::Mean(bound_col("amount")), &schema()).unwrap(),
        "AVG(\"amount\")"
    );
    let other = AggExpr::Other("Skew(amount)".to_string());
    assert_eq!(
        agg_to_sql(&other, &schema()).unwrap_err().message(),
        "duckdb POC: unsupported expression: aggregation Skew(amount)"
    );
}

#[test]
fn integer_literals_are_decimal() {
    assert_eq!(literal_to_sql(&Literal::Int8(-128)).unwrap(), "-128");
    assert_eq!(literal_to_sql(&Literal::Int16(0)).unwrap(), "0");
    assert_eq!(literal_to_sql(&Literal::Int32(-70000)).unwrap(), "-70000");
    assert_eq!(
        literal_to_sql(&Literal::Int64(i64::MIN)).unwrap(),
        "-9223372036854775808"
    );
    assert_eq!(literal_to_sql(&Literal::UInt8(255)).unwrap(), "255");
    assert_eq!(literal_to_sql(&Literal::UInt16(10)).unwrap(), "10");
    assert_eq!(literal_to_sql(&Literal::UInt32(100)).unwrap(), "100");
    assert_eq!(
        literal_to_sql(&Literal::UInt64(u64::MAX)).unwrap(),
        "18446744073709551615"
    );
}

#[test]
fn quotes_in_string_literals_are_doubled() {
    assert_eq!(
        literal_to_sql(&Literal::Utf8("O'Brien's".to_string())).unwrap(),
        "'O''Brien''s'"
    );
    assert_eq!(literal_to_sql(&Literal::Utf8(String::new())).unwrap(), "''");
}

#[test]
fn finite_floats_keep_their_text() {
    assert_eq!(literal_to_sql(&float(1.5)).unwrap(), "1.5");
    assert_eq!(literal_to_sql(&float(-0.25)).unwrap(), "-0.25");
    assert_eq!(
        literal_to_sql(&float(f64::MAX)).unwrap(),
        f64::MAX.to_string()
    );
    let single = Literal::Float32 {
        bits: 2.5f32.to_bits(),
        text: "2.5".to_string(),
    };
    assert_eq!(literal_to_sql(&single).unwrap(), "2.5");
    assert_eq!(
        literal_to_sql(&float(f64::INFINITY)).unwrap_err().message(),
        "duckdb POC: unsupported expression: non-finite float literal inf"
    );
    let single_nan = Literal::Float32 {
        bits: f32::NAN.to_bits(),
        text: "NaN".to_string(),
    };
    assert!(literal_to_sql(&single_nan).is_err());
}

#[test]
fn other_literals_are_refused() {
    let e = literal_to_sql(&Literal::Other("Date(3)".to_string())).unwrap_err();
    assert_eq!(
        e.message(),
        "duckdb POC: unsupported expression: literal Date(3)"
    );
    assert!(matches!(e, DaftError::NotImplemented(_)));
}

#[test]
fn operators_have_symbols_or_are_refused() {
    assert_eq!(binop_to_sql(Operator::NotEq).unwrap(), "!=");
    assert_eq!(binop_to_sql(Operator::LtEq).unwrap(), "<=");
    assert_eq!(binop_to_sql(Operator::GtEq).unwrap(), ">=");
    assert_eq!(binop_to_sql(Operator::And).unwrap(), "AND");
    assert_eq!(binop_to_sql(Operator::Or).unwrap(), "OR");
    assert_eq!(binop_to_sql(Operator::TrueDivide).unwrap(), "/");
    assert_eq!(
        binop_to_sql(Operator::Modulus).unwrap_err().message(),
        "duckdb POC: unsupported expression: operator Modulus"
    );
}

#[test]
fn alias_is_transparent() {
    let e = Arc::new(Expr::Alias(gt_100(), Arc::from("big")));
    assert_eq!(expr_to_sql(&e, &schema()).unwrap(), "(\"amount\" > 100)");
}

#[test]
fn unbound_columns_are_refused_with_their_debug_form() {
    let e = Arc::new(Expr::Column(Column::Resolved(ResolvedColumn::Basic(
        Arc::from("a\"b"),
    ))));
    assert_eq!(
        expr_to_sql(&e, &schema()).unwrap_err().message(),
        "duckdb POC: unsupported expression: Column(Resolved(Basic(\"a\\\"b\")))"
    );
}

#[test]
fn the_left_operand_fails_first() {
    let e = binary(
        Operator::Xor,
        Arc::new(Expr::Other("left".to_string())),
        Arc::new(Expr::Other("right".to_string())),
    );
    assert_eq!(
        expr_to_sql(&e, &schema()).unwrap_err().message(),
        "duckdb POC: unsupported expression: left"
    );
}
