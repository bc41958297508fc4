//! What a physical plan gives, from the tables of its sources.
use std::sync::Arc;
use vstd::prelude::*;

use crate::expr::{AggExpr, Expr};
use crate::local_plan::{HashAggregate, HashJoin, LocalPhysicalPlan, SourceId};
use crate::schema::Schema;
use crate::sql_read::{all_somes, distinct, keys_match, named_value, rows_with, somes, Table};
use crate::sql_value::{agg_value, converted, expr_value, kind_of, Value};

verus! {

/// The values of the expressions for a row.
pub open spec fn expr_row(exprs: Seq<Arc<Expr>>, row: Seq<Value>) -> Seq<Value> {
    Seq::new(exprs.len(), |k: int| expr_value(*exprs[k], row))
}

/// The values of the aggregations for the rows, each converted to the type of its column; the columns
/// start at `base`.
pub open spec fn agg_row(
    aggs: Seq<AggExpr>,
    schema: Schema,
    base: nat,
    rows: Seq<Seq<Value>>,
) -> Seq<Value> {
    Seq::new(
        aggs.len(),
        |k: int| converted(agg_value(aggs[k], rows), kind_of(schema.fields@[base + k].dtype)),
    )
}

/// Two nulls match for the key at `k`.
pub open spec fn nulls_match(j: HashJoin, k: int) -> bool {
    match j.null_equals_null {
        Some(flags) => k < flags@.len() && flags@[k],
        None => false,
    }
}

/// The rows match in all keys of the join.
pub open spec fn join_keys_match(j: HashJoin, lrow: Seq<Value>, rrow: Seq<Value>) -> bool {
    forall|k: int|
        0 <= k < j.left_on@.len() ==> keys_match(
            expr_value(*(#[trigger] j.left_on@[k]), lrow),
            expr_value(*j.right_on@[k], rrow),
            nulls_match(j, k),
        )
}

/// The output row of a pair of rows: each column is that of the left row where it has one of that name,
/// and that of the right row otherwise.
pub open spec fn join_row(j: HashJoin, lrow: Seq<Value>, rrow: Seq<Value>) -> Seq<Value> {
    let l = j.left.output().names();
    let r = j.right.output().names();
    Seq::new(
        j.schema.width(),
        |c: int|
            if l.contains(j.schema.name_at(c)) {
                named_value(l, lrow, j.schema.name_at(c))
            } else {
                named_value(r, rrow, j.schema.name_at(c))
            },
    )
}

/// The rows for which the predicate is true.
pub open spec fn passing(predicate: Arc<Expr>, rows: Seq<Seq<Value>>) -> Seq<Option<Seq<Value>>> {
    Seq::new(
        rows.len(),
        |i: int|
            if expr_value(*predicate, rows[i]) == Value::Truth(true) {
                Some(rows[i])
            } else {
                None
            },
    )
}

/// The values of the expressions for each row.
pub open spec fn expr_rows(exprs: Seq<Arc<Expr>>, rows: Seq<Seq<Value>>) -> Seq<Seq<Value>> {
    Seq::new(rows.len(), |i: int| expr_row(exprs, rows[i]))
}

/// The rows of a left row with each right row that it matches.
pub open spec fn join_pairs(j: HashJoin, lrow: Seq<Value>, r: Seq<Seq<Value>>) -> Seq<
    Option<Seq<Value>>,
> {
    Seq::new(
        r.len(),
        |k: int|
            if join_keys_match(j, lrow, r[k]) {
                Some(join_row(j, lrow, r[k]))
            } else {
                None
            },
    )
}

/// The rows of all left rows with the right rows that they match.
pub open spec fn all_join_pairs(j: HashJoin, l: Seq<Seq<Value>>, r: Seq<Seq<Value>>) -> Seq<
    Seq<Option<Seq<Value>>>,
> {
    Seq::new(l.len(), |i: int| join_pairs(j, l[i], r))
}

/// A row for each group: its key, and the aggregations over its rows.
pub open spec fn aggregated(
    a: HashAggregate,
    rows: Seq<Seq<Value>>,
    keys: Seq<Seq<Value>>,
) -> Seq<Seq<Value>> {
    Seq::new(
        distinct(keys).len(),
        |g: int|
            distinct(keys)[g] + agg_row(
                a.aggregations@,
                *a.schema,
                a.group_by@.len(),
                rows_with(rows, keys, distinct(keys)[g]),
            ),
    )
}

/// The rows of a plan, where `sources` gives the rows of a source.
pub open spec fn plan_output(
    plan: LocalPhysicalPlan,
    sources: spec_fn(SourceId) -> Seq<Seq<Value>>,
) -> Seq<Seq<Value>>
    decreases plan,
{
    match plan {
        LocalPhysicalPlan::InMemoryScan(scan) => sources(scan.source_id),
        LocalPhysicalPlan::Filter(f) => somes(passing(f.predicate, plan_output(*f.input, sources))),
        LocalPhysicalPlan::Project(p) => expr_rows(p.projection@, plan_output(*p.input, sources)),
        LocalPhysicalPlan::HashJoin(j) => all_somes(
            all_join_pairs(j, plan_output(*j.left, sources), plan_output(*j.right, sources)),
        ),
        LocalPhysicalPlan::HashAggregate(a) => {
            let rows = plan_output(*a.input, sources);
            aggregated(a, rows, expr_rows(a.group_by@, rows))
        },
        LocalPhysicalPlan::UnGroupedAggregate(a) => seq![
            agg_row(a.aggregations@, *a.schema, 0, plan_output(*a.input, sources)),
        ],
        LocalPhysicalPlan::Other(_) => Seq::empty(),
    }
}

/// The table of a plan: its rows, under the names of its schema.
pub open spec fn plan_table(
    plan: LocalPhysicalPlan,
    sources: spec_fn(SourceId) -> Seq<Seq<Value>>,
) -> Table {
    Table { names: plan.output().names(), rows: plan_output(plan, sources) }
}

} // verus!
