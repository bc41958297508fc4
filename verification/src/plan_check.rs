//! Testing whether a plan can be translated: whether every column that its translation looks up exists.
use std::sync::Arc;
use vstd::prelude::*;

use crate::error::ErrorView;
use crate::expr::{AggExpr, Column, CountMode, Expr};
use crate::expr_sql::{agg_in_schema, agg_to_sql, expr_in_schema, expr_to_sql};
use crate::local_plan::{HashAggregate, HashJoin, JoinType, LocalPhysicalPlan, Project};
use crate::plan_sql::{
    agg_items, aggs_in_schema, collect, collect_step, collect_stops, group_items,
    join_keys_in_schema, key_columns_exist, on_in_schema, on_items, plan_in_schema, plan_to_sql,
    project_items, reached,
};
use crate::schema::Schema;

verus! {

/// Whether every column that the translation of the expression looks up exists.
pub fn expr_columns_exist(expr: &Arc<Expr>, schema: &Schema) -> (r: bool)
    ensures
        r == expr_in_schema(**expr, *schema),
    decreases **expr,
{
    match &**expr {
        Expr::Column(Column::Bound(bc)) => bc.index < schema.fields.len(),
        Expr::BinaryOp { op: _, left, right } => {
            if !expr_columns_exist(left, schema) {
                return false;
            }
            match expr_to_sql(left, schema) {
                Ok(_) => expr_columns_exist(right, schema),
                Err(_) => true,
            }
        },
        Expr::Alias(inner, _) => expr_columns_exist(inner, schema),
        Expr::Not(inner) => expr_columns_exist(inner, schema),
        Expr::IsNull(inner) => expr_columns_exist(inner, schema),
        Expr::NotNull(inner) => expr_columns_exist(inner, schema),
        _ => true,
    }
}

/// Whether every column that the translation of the aggregation looks up exists.
pub fn agg_columns_exist(agg: &AggExpr, schema: &Schema) -> (r: bool)
    ensures
        r == agg_in_schema(*agg, *schema),
{
    match agg {
        AggExpr::Count(c, CountMode::Valid) => expr_columns_exist(c, schema),
        AggExpr::Sum(c) => expr_columns_exist(c, schema),
        AggExpr::Min(c) => expr_columns_exist(c, schema),
        AggExpr::Max(c) => expr_columns_exist(c, schema),
        AggExpr::Mean(c) => expr_columns_exist(c, schema),
        _ => true,
    }
}

/// What fails at one item is not reached at a later one.
proof fn not_reached_after(items: Seq<Result<Seq<char>, ErrorView>>, i: int, k: int)
    requires
        0 <= i <= k <= items.len(),
        !reached(items, i),
    ensures
        !reached(items, k),
{
    let prefix = items.take(k);
    assert(prefix.take(i) =~= items.take(i));
    collect_stops(prefix, i);
}

fn projection_columns_exist(p: &Project) -> (r: bool)
    ensures
        r == forall|i: int|
            0 <= i < project_items(*p).len() && reached(project_items(*p), i) ==> expr_in_schema(
                *(#[trigger] p.projection@[i]),
                p.input.output(),
            ),
{
    let ghost all = project_items(*p);
    let input_schema = p.input.schema();
    let mut i: usize = 0;
    assert(all.take(0) =~= Seq::empty());
    while i < p.projection.len() && i < p.schema.fields.len()
        invariant
            i <= all.len(),
            all == project_items(*p),
            *input_schema == p.input.output(),
            reached(all, i as int),
            forall|k: int|
                0 <= k < i ==> expr_in_schema(*(#[trigger] p.projection@[k]), p.input.output()),
        decreases p.projection.len() - i,
    {
        if !expr_columns_exist(&p.projection[i], input_schema) {
            assert(!expr_in_schema(*p.projection@[i as int], p.input.output()));
            return false;
        }
        proof {
            collect_step(all, i as int);
        }
        if expr_to_sql(&p.projection[i], input_schema).is_err() {
            proof {
                assert forall|k: int| 0 <= k < all.len() && reached(all, k) implies expr_in_schema(
                    *(#[trigger] p.projection@[k]),
                    p.input.output(),
                ) by {
                    if k > i {
                        not_reached_after(all, i + 1, k);
                    }
                }
            }
            return true;
        }
        i = i + 1;
    }
    true
}

fn key_columns_are_there(on: &Vec<Arc<Expr>>, schema: &Schema) -> (r: bool)
    ensures
        r == key_columns_exist(on@, *schema),
{
    let mut i: usize = 0;
    while i < on.len()
        invariant
            i <= on.len(),
            forall|k: int|
                0 <= k < i ==> (*(#[trigger] on@[k]) matches Expr::Column(Column::Bound(bc))
                    ==> bc.index < schema.width()),
        decreases on.len() - i,
    {
        match &*on[i] {
            Expr::Column(Column::Bound(bc)) => {
                if bc.index >= schema.fields.len() {
                    assert(!key_columns_exist(on@, *schema)) by {
                        assert(*on@[i as int] is Column);
                    }
                    return false;
                }
            },
            _ => {},
        }
        i = i + 1;
    }
    true
}

fn join_columns_exist(j: &HashJoin) -> (r: bool)
    ensures
        r == join_keys_in_schema(*j),
{
    let left_schema = j.left.schema();
    let right_schema = j.right.schema();
    if !key_columns_are_there(&j.left_on, left_schema) || !key_columns_are_there(
        &j.right_on,
        right_schema,
    ) {
        return false;
    }
    let ghost all = on_items(*j);
    let mut i: usize = 0;
    assert(all.take(0) =~= Seq::empty());
    while i < j.left_on.len() && i < j.right_on.len()
        invariant
            i <= all.len(),
            all == on_items(*j),
            *left_schema == j.left.output(),
            *right_schema == j.right.output(),
            key_columns_exist(j.left_on@, j.left.output()),
            key_columns_exist(j.right_on@, j.right.output()),
            reached(all, i as int),
            forall|k: int| 0 <= k < i && #[trigger] reached(all, k) ==> on_in_schema(*j, k),
        decreases j.left_on.len() - i,
    {
        proof {
            collect_step(all, i as int);
        }
        if !expr_columns_exist(&j.left_on[i], left_schema) {
            assert(!on_in_schema(*j, i as int));
            return false;
        }
        let failed = match expr_to_sql(&j.left_on[i], left_schema) {
            Err(_) => true,
            Ok(_) => {
                if !expr_columns_exist(&j.right_on[i], right_schema) {
                    assert(!on_in_schema(*j, i as int));
                    return false;
                }
                expr_to_sql(&j.right_on[i], right_schema).is_err()
            },
        };
        assert(on_in_schema(*j, i as int));
        if failed {
            proof {
                assert forall|k: int| 0 <= k < all.len() && #[trigger] reached(
                    all,
                    k,
                ) implies on_in_schema(*j, k) by {
                    if k > i {
                        not_reached_after(all, i + 1, k);
                    }
                }
            }
            return true;
        }
        i = i + 1;
    }
    true
}

fn group_columns_exist(a: &HashAggregate) -> (r: bool)
    ensures
        r == forall|i: int|
            0 <= i < a.group_by@.len() && reached(group_items(*a), i) ==> expr_in_schema(
                *(#[trigger] a.group_by@[i]),
                a.input.output(),
            ),
{
    let ghost all = group_items(*a);
    let input_schema = a.input.schema();
    let mut i: usize = 0;
    assert(all.take(0) =~= Seq::empty());
    while i < a.group_by.len()
        invariant
            i <= all.len(),
            all == group_items(*a),
            *input_schema == a.input.output(),
            reached(all, i as int),
            forall|k: int|
                0 <= k < i ==> expr_in_schema(*(#[trigger] a.group_by@[k]), a.input.output()),
        decreases a.group_by.len() - i,
    {
        if !expr_columns_exist(&a.group_by[i], input_schema) {
            assert(!expr_in_schema(*a.group_by@[i as int], a.input.output()));
            return false;
        }
        proof {
            collect_step(all, i as int);
        }
        if expr_to_sql(&a.group_by[i], input_schema).is_err() {
            proof {
                assert forall|k: int|
                    0 <= k < a.group_by@.len() && reached(all, k) implies expr_in_schema(
                    *(#[trigger] a.group_by@[k]),
                    a.input.output(),
                ) by {
                    if k > i {
                        not_reached_after(all, i + 1, k);
                    }
                }
            }
            return true;
        }
        i = i + 1;
    }
    true
}

fn aggregation_columns_exist(
    out: &Schema,
    base: usize,
    aggs: &Vec<AggExpr>,
    input: &Schema,
) -> (r: bool)
    ensures
        r == aggs_in_schema(*out, base as nat, aggs@, *input),
{
    let width: usize = out.fields.len();
    if width < base || width - base != aggs.len() {
        return true;
    }
    let ghost all = agg_items(*out, base as nat, aggs@, *input);
    let mut k: usize = 0;
    assert(all.take(0) =~= Seq::empty());
    while k < aggs.len()
        invariant
            k <= aggs.len(),
            out.width() == base + aggs@.len(),
            all == agg_items(*out, base as nat, aggs@, *input),
            reached(all, k as int),
            forall|m: int|
                0 <= m < k && #[trigger] reached(all, m) ==> agg_in_schema(aggs@[m], *input),
        decreases aggs.len() - k,
    {
        if !agg_columns_exist(&aggs[k], input) {
            assert(!agg_in_schema(aggs@[k as int], *input));
            return false;
        }
        proof {
            collect_step(all, k as int);
        }
        if agg_to_sql(&aggs[k], input).is_err() {
            proof {
                assert forall|m: int| 0 <= m < aggs@.len() && #[trigger] reached(
                    all,
                    m,
                ) implies agg_in_schema(aggs@[m], *input) by {
                    if m > k {
                        not_reached_after(all, k + 1, m);
                    }
                }
            }
            return true;
        }
        k = k + 1;
    }
    true
}

fn groups_translate(a: &HashAggregate) -> (r: bool)
    requires
        forall|i: int|
            0 <= i < a.group_by@.len() && reached(group_items(*a), i) ==> expr_in_schema(
                *(#[trigger] a.group_by@[i]),
                a.input.output(),
            ),
    ensures
        r == (collect(group_items(*a)) is Ok),
{
    let ghost all = group_items(*a);
    let input_schema = a.input.schema();
    let mut i: usize = 0;
    assert(all.take(0) =~= Seq::empty());
    while i < a.group_by.len()
        invariant
            i <= all.len(),
            all == group_items(*a),
            *input_schema == a.input.output(),
            reached(all, i as int),
            forall|i: int|
                0 <= i < a.group_by@.len() && reached(all, i) ==> expr_in_schema(
                    *(#[trigger] a.group_by@[i]),
                    a.input.output(),
                ),
        decreases a.group_by.len() - i,
    {
        proof {
            collect_step(all, i as int);
        }
        if expr_to_sql(&a.group_by[i], input_schema).is_err() {
            proof {
                collect_stops(all, i + 1);
            }
            return false;
        }
        i = i + 1;
    }
    assert(all.take(i as int) =~= all);
    true
}

/// Whether every column that the translation of the plan looks up exists: whether the plan can be
/// translated, be it to a query or to an error.
pub fn plan_columns_exist(plan: &Arc<LocalPhysicalPlan>) -> (r: bool)
    ensures
        r == plan_in_schema(**plan),
    decreases **plan,
{
    match &**plan {
        LocalPhysicalPlan::InMemoryScan(_) => true,
        LocalPhysicalPlan::Filter(f) => {
            plan_columns_exist(&f.input) && (plan_to_sql(&f.input).is_err() || expr_columns_exist(
                &f.predicate,
                f.input.schema(),
            ))
        },
        LocalPhysicalPlan::Project(p) => {
            plan_columns_exist(&p.input) && (plan_to_sql(&p.input).is_err()
                || projection_columns_exist(p))
        },
        LocalPhysicalPlan::HashJoin(j) => {
            j.join_type != JoinType::Inner || (plan_columns_exist(&j.left) && (plan_to_sql(
                &j.left,
            ).is_err() || (plan_columns_exist(&j.right) && (plan_to_sql(&j.right).is_err()
                || join_columns_exist(j)))))
        },
        LocalPhysicalPlan::HashAggregate(a) => {
            plan_columns_exist(&a.input) && (plan_to_sql(&a.input).is_err() || (group_columns_exist(
                a,
            ) && (!groups_translate(a) || aggregation_columns_exist(
                &a.schema,
                a.group_by.len(),
                &a.aggregations,
                a.input.schema(),
            ))))
        },
        LocalPhysicalPlan::UnGroupedAggregate(a) => {
            plan_columns_exist(&a.input) && (plan_to_sql(&a.input).is_err()
                || aggregation_columns_exist(&a.schema, 0, &a.aggregations, a.input.schema()))
        },
        LocalPhysicalPlan::Other(_) => true,
    }
}

} // verus!
