//! Which plans are translated, and what is said of the others.
use std::sync::Arc;
use vstd::prelude::*;

use crate::error::ErrorView;
use crate::expr::{AggExpr, CountMode, Expr, Operator};
use crate::expr_laws::{
    columns_exist, exactly_the_supported_expressions_are_translated, is_translatable,
};
use crate::expr_sql::{agg_in_schema, agg_sql, expr_in_schema, expr_sql, operator_name};
use crate::local_plan::{HashAggregate, HashJoin, JoinType, LocalPhysicalPlan, Project};
use crate::plan_laws::collected_items;
use crate::plan_sql::{
    agg_items, aggregate_select_sql, aggs_in_schema, aliased, all_scans, cast_to, collect,
    every_scan_is_bound, group_columns, group_items, join_keys_in_schema, join_type_name, on_items,
    plan_in_schema, plan_sql, project_items, sql_plan,
};
use crate::schema::Schema;
use crate::text::join;

verus! {

/// The aggregation has a SQL form: it counts all rows, or takes the count, sum, mean, least or greatest of
/// the values of an expression that has one.
pub open spec fn is_translatable_agg(agg: AggExpr) -> bool {
    match agg {
        AggExpr::Count(c, CountMode::Valid) => is_translatable(*c),
        AggExpr::Count(_, CountMode::All) => true,
        AggExpr::Count(_, CountMode::Null) => false,
        AggExpr::Sum(c) => is_translatable(*c),
        AggExpr::Mean(c) => is_translatable(*c),
        AggExpr::Min(c) => is_translatable(*c),
        AggExpr::Max(c) => is_translatable(*c),
        AggExpr::Other(_) => false,
    }
}

/// Every node of the plan is supported: its joins are inner joins, its aggregates have an output column
/// for each group column and aggregation, and all its expressions and aggregations have a SQL form.
pub open spec fn is_supported(plan: LocalPhysicalPlan) -> bool
    decreases plan,
{
    match plan {
        LocalPhysicalPlan::InMemoryScan(_) => true,
        LocalPhysicalPlan::Filter(f) => is_supported(*f.input) && is_translatable(*f.predicate),
        LocalPhysicalPlan::Project(p) => is_supported(*p.input) && forall|i: int|
            0 <= i < p.projection@.len() && i < p.schema.width() ==> is_translatable(
                *(#[trigger] p.projection@[i]),
            ),
        LocalPhysicalPlan::HashJoin(j) => {
            &&& j.join_type == JoinType::Inner
            &&& is_supported(*j.left)
            &&& is_supported(*j.right)
            &&& forall|i: int|
                0 <= i < j.left_on@.len() && i < j.right_on@.len() ==> is_translatable(
                    *(#[trigger] j.left_on@[i]),
                ) && is_translatable(*j.right_on@[i])
        },
        LocalPhysicalPlan::HashAggregate(a) => {
            &&& is_supported(*a.input)
            &&& a.schema.width() == a.group_by@.len() + a.aggregations@.len()
            &&& forall|i: int|
                0 <= i < a.group_by@.len() ==> is_translatable(*(#[trigger] a.group_by@[i]))
            &&& forall|i: int|
                0 <= i < a.aggregations@.len() ==> is_translatable_agg(
                    #[trigger] a.aggregations@[i],
                )
        },
        LocalPhysicalPlan::UnGroupedAggregate(a) => {
            &&& is_supported(*a.input)
            &&& a.schema.width() == a.aggregations@.len()
            &&& forall|i: int|
                0 <= i < a.aggregations@.len() ==> is_translatable_agg(
                    #[trigger] a.aggregations@[i],
                )
        },
        LocalPhysicalPlan::Other(_) => false,
    }
}

/// Items are collected exactly where none is an error.
proof fn items_without_errors_are_collected(items: Seq<Result<Seq<char>, ErrorView>>)
    ensures
        collect(items) is Ok <==> forall|i: int| 0 <= i < items.len() ==> (#[trigger] items[i]) is Ok,
    decreases items.len(),
{
    if items.len() > 0 {
        let init = items.drop_last();
        items_without_errors_are_collected(init);
        assert(items[items.len() - 1] == items.last());
        if collect(items) is Ok {
            assert forall|i: int| 0 <= i < items.len() implies (#[trigger] items[i]) is Ok by {
                if i < init.len() {
                    assert(init[i] == items[i]);
                }
            }
        } else if collect(init) is Err {
            let i = choose|i: int| 0 <= i < init.len() && !((#[trigger] init[i]) is Ok);
            assert(items[i] == init[i]);
        }
    }
}

proof fn aggs_are_translated_where_supported(agg: AggExpr, schema: Schema)
    ensures
        agg_sql(agg, schema) is Ok <==> is_translatable_agg(agg),
{
    match agg {
        AggExpr::Count(c, CountMode::Valid) => exactly_the_supported_expressions_are_translated(
            c,
            schema,
        ),
        AggExpr::Sum(c) => exactly_the_supported_expressions_are_translated(c, schema),
        AggExpr::Mean(c) => exactly_the_supported_expressions_are_translated(c, schema),
        AggExpr::Min(c) => exactly_the_supported_expressions_are_translated(c, schema),
        AggExpr::Max(c) => exactly_the_supported_expressions_are_translated(c, schema),
        _ => {},
    }
}

proof fn projection_is_translated_where_supported(p: Project)
    ensures
        collect(project_items(p)) is Ok <==> forall|i: int|
            0 <= i < p.projection@.len() && i < p.schema.width() ==> is_translatable(
                *(#[trigger] p.projection@[i]),
            ),
{
    let items = project_items(p);
    items_without_errors_are_collected(items);
    assert forall|i: int| 0 <= i < items.len() implies ((#[trigger] items[i]) is Ok
        <==> is_translatable(*p.projection@[i])) by {
        exactly_the_supported_expressions_are_translated(p.projection@[i], p.input.output());
    }
    if collect(items) is Ok {
        assert forall|i: int|
            0 <= i < p.projection@.len() && i < p.schema.width() implies is_translatable(
            *(#[trigger] p.projection@[i]),
        ) by {
            assert(items[i] is Ok);
        }
    }
}

proof fn keys_are_translated_where_supported(j: HashJoin)
    ensures
        collect(on_items(j)) is Ok <==> forall|i: int|
            0 <= i < j.left_on@.len() && i < j.right_on@.len() ==> is_translatable(
                *(#[trigger] j.left_on@[i]),
            ) && is_translatable(*j.right_on@[i]),
{
    let items = on_items(j);
    items_without_errors_are_collected(items);
    assert forall|i: int| 0 <= i < items.len() implies ((#[trigger] items[i]) is Ok
        <==> is_translatable(*j.left_on@[i]) && is_translatable(*j.right_on@[i])) by {
        exactly_the_supported_expressions_are_translated(j.left_on@[i], j.left.output());
        exactly_the_supported_expressions_are_translated(j.right_on@[i], j.right.output());
    }
    if collect(items) is Ok {
        assert forall|i: int|
            0 <= i < j.left_on@.len() && i < j.right_on@.len() implies is_translatable(
            *(#[trigger] j.left_on@[i]),
        ) && is_translatable(*j.right_on@[i]) by {
            assert(items[i] is Ok);
        }
    }
}

proof fn groups_are_translated_where_supported(a: HashAggregate)
    ensures
        collect(group_items(a)) is Ok <==> forall|i: int|
            0 <= i < a.group_by@.len() ==> is_translatable(*(#[trigger] a.group_by@[i])),
        collect(group_items(a)) matches Ok(v) ==> v.len() == a.group_by@.len(),
{
    let items = group_items(a);
    items_without_errors_are_collected(items);
    collected_items_keep_their_number(items);
    assert forall|i: int| 0 <= i < items.len() implies ((#[trigger] items[i]) is Ok
        <==> is_translatable(*a.group_by@[i])) by {
        exactly_the_supported_expressions_are_translated(a.group_by@[i], a.input.output());
    }
    if collect(items) is Ok {
        assert forall|i: int| 0 <= i < a.group_by@.len() implies is_translatable(
            *(#[trigger] a.group_by@[i]),
        ) by {
            assert(items[i] is Ok);
        }
    }
}

proof fn collected_items_keep_their_number(items: Seq<Result<Seq<char>, ErrorView>>)
    ensures
        collect(items) matches Ok(v) ==> v.len() == items.len(),
    decreases items.len(),
{
    if items.len() > 0 {
        collected_items_keep_their_number(items.drop_last());
    }
}

proof fn agg_list_is_translated_where_supported(
    out: Schema,
    base: nat,
    aggs: Seq<AggExpr>,
    input: Schema,
)
    ensures
        collect(agg_items(out, base, aggs, input)) is Ok <==> forall|i: int|
            0 <= i < aggs.len() ==> is_translatable_agg(#[trigger] aggs[i]),
{
    let items = agg_items(out, base, aggs, input);
    items_without_errors_are_collected(items);
    assert forall|i: int| 0 <= i < items.len() implies ((#[trigger] items[i]) is Ok
        <==> is_translatable_agg(aggs[i])) by {
        aggs_are_translated_where_supported(aggs[i], input);
    }
    if collect(items) is Ok {
        assert forall|i: int| 0 <= i < aggs.len() implies is_translatable_agg(
            #[trigger] aggs[i],
        ) by {
            assert(items[i] is Ok);
        }
    }
}

proof fn select_is_translated_where_supported(
    out: Schema,
    groups: Seq<Seq<char>>,
    aggs: Seq<AggExpr>,
    input: Schema,
)
    ensures
        aggregate_select_sql(out, groups, aggs, input) is Ok <==> out.width() == groups.len()
            + aggs.len() && forall|i: int|
            0 <= i < aggs.len() ==> is_translatable_agg(#[trigger] aggs[i]),
{
    agg_list_is_translated_where_supported(out, groups.len(), aggs, input);
}

/// The plan is translated exactly where it is supported.
spec fn is_decided(plan: Arc<LocalPhysicalPlan>) -> bool {
    plan_sql(*plan) is Ok <==> is_supported(*plan)
}

proof fn join_is_decided(plan: Arc<LocalPhysicalPlan>)
    requires
        *plan matches LocalPhysicalPlan::HashJoin(j) && is_decided(j.left) && is_decided(j.right),
    ensures
        is_decided(plan),
{
    match *plan {
        LocalPhysicalPlan::HashJoin(j) => {
            keys_are_translated_where_supported(j);
        },
        _ => {},
    }
}

proof fn projection_is_decided(plan: Arc<LocalPhysicalPlan>)
    requires
        *plan matches LocalPhysicalPlan::Project(p) && is_decided(p.input),
    ensures
        is_decided(plan),
{
    match *plan {
        LocalPhysicalPlan::Project(p) => {
            projection_is_translated_where_supported(p);
        },
        _ => {},
    }
}

proof fn aggregate_is_decided(plan: Arc<LocalPhysicalPlan>)
    requires
        *plan matches LocalPhysicalPlan::HashAggregate(a) && is_decided(a.input),
    ensures
        is_decided(plan),
{
    match *plan {
        LocalPhysicalPlan::HashAggregate(a) => {
            groups_are_translated_where_supported(a);
            match collect(group_items(a)) {
                Ok(groups) => select_is_translated_where_supported(
                    plan.output(),
                    groups,
                    a.aggregations@,
                    a.input.output(),
                ),
                Err(_) => {},
            }
        },
        _ => {},
    }
}

proof fn ungrouped_aggregate_is_decided(plan: Arc<LocalPhysicalPlan>)
    requires
        *plan matches LocalPhysicalPlan::UnGroupedAggregate(a) && is_decided(a.input),
    ensures
        is_decided(plan),
{
    match *plan {
        LocalPhysicalPlan::UnGroupedAggregate(a) => {
            select_is_translated_where_supported(
                plan.output(),
                Seq::empty(),
                a.aggregations@,
                a.input.output(),
            );
        },
        _ => {},
    }
}

/// A plan is translated exactly where every node of it is supported: there is neither a fallback nor a
/// supported plan that is refused.
pub proof fn exactly_the_supported_plans_are_translated(plan: Arc<LocalPhysicalPlan>)
    ensures
        plan_sql(*plan) is Ok <==> is_supported(*plan),
    decreases *plan,
{
    match *plan {
        LocalPhysicalPlan::InMemoryScan(_) => {},
        LocalPhysicalPlan::Filter(f) => {
            exactly_the_supported_plans_are_translated(f.input);
            exactly_the_supported_expressions_are_translated(f.predicate, f.input.output());
        },
        LocalPhysicalPlan::Project(p) => {
            exactly_the_supported_plans_are_translated(p.input);
            projection_is_decided(plan);
        },
        LocalPhysicalPlan::HashJoin(j) => {
            exactly_the_supported_plans_are_translated(j.left);
            exactly_the_supported_plans_are_translated(j.right);
            join_is_decided(plan);
        },
        LocalPhysicalPlan::HashAggregate(a) => {
            exactly_the_supported_plans_are_translated(a.input);
            aggregate_is_decided(plan);
        },
        LocalPhysicalPlan::UnGroupedAggregate(a) => {
            exactly_the_supported_plans_are_translated(a.input);
            ungrouped_aggregate_is_decided(plan);
        },
        LocalPhysicalPlan::Other(_) => {},
    }
}

/// A plan that is translated comes with the sources of all its scans, from left to right; one that is not
/// comes with its error alone.
pub proof fn translations_list_the_scans(plan: Arc<LocalPhysicalPlan>)
    ensures
        match (sql_plan(*plan), plan_sql(*plan)) {
            (Ok((text, sources)), Ok(sql)) => text == sql && sources == all_scans(*plan),
            (Err(e), Err(f)) => e == f,
            _ => false,
        },
{
    if plan_text(plan) is Ok {
        every_scan_is_bound(plan);
    }
}

spec fn plan_text(plan: Arc<LocalPhysicalPlan>) -> Result<Seq<char>, ErrorView> {
    plan_sql(*plan)
}

/// What is said of a plan whose input cannot be translated: what is said of the input, the left one first.
pub proof fn errors_of_inputs_are_passed_on(plan: Arc<LocalPhysicalPlan>)
    ensures
        match *plan {
            LocalPhysicalPlan::Filter(f) => plan_sql(*f.input) is Err ==> plan_sql(*plan)
                == plan_sql(*f.input),
            LocalPhysicalPlan::Project(p) => plan_sql(*p.input) is Err ==> plan_sql(*plan)
                == plan_sql(*p.input),
            LocalPhysicalPlan::HashJoin(j) => j.join_type == JoinType::Inner ==> {
                &&& plan_sql(*j.left) is Err ==> plan_sql(*plan) == plan_sql(*j.left)
                &&& plan_sql(*j.left) is Ok && plan_sql(*j.right) is Err ==> plan_sql(*plan)
                    == plan_sql(*j.right)
            },
            LocalPhysicalPlan::HashAggregate(a) => plan_sql(*a.input) is Err ==> plan_sql(*plan)
                == plan_sql(*a.input),
            LocalPhysicalPlan::UnGroupedAggregate(a) => plan_sql(*a.input) is Err ==> plan_sql(
                *plan,
            ) == plan_sql(*a.input),
            _ => true,
        },
{
}

/// The aggregation's columns exist.
pub open spec fn agg_columns_exist(agg: AggExpr, width: nat) -> bool {
    match agg {
        AggExpr::Count(c, CountMode::Valid) => columns_exist(*c, width),
        AggExpr::Count(_, _) => true,
        AggExpr::Sum(c) => columns_exist(*c, width),
        AggExpr::Mean(c) => columns_exist(*c, width),
        AggExpr::Min(c) => columns_exist(*c, width),
        AggExpr::Max(c) => columns_exist(*c, width),
        AggExpr::Other(_) => true,
    }
}

/// Every bound column in an expression of the plan exists in the node's input.
pub open spec fn all_columns_exist(plan: LocalPhysicalPlan) -> bool
    decreases plan,
{
    match plan {
        LocalPhysicalPlan::InMemoryScan(_) => true,
        LocalPhysicalPlan::Filter(f) => all_columns_exist(*f.input) && columns_exist(
            *f.predicate,
            f.input.output().width(),
        ),
        LocalPhysicalPlan::Project(p) => all_columns_exist(*p.input) && forall|i: int|
            0 <= i < p.projection@.len() && i < p.schema.width() ==> columns_exist(
                *(#[trigger] p.projection@[i]),
                p.input.output().width(),
            ),
        LocalPhysicalPlan::HashJoin(j) => {
            &&& all_columns_exist(*j.left)
            &&& all_columns_exist(*j.right)
            &&& forall|i: int|
                0 <= i < j.left_on@.len() ==> columns_exist(
                    *(#[trigger] j.left_on@[i]),
                    j.left.output().width(),
                )
            &&& forall|i: int|
                0 <= i < j.right_on@.len() ==> columns_exist(
                    *(#[trigger] j.right_on@[i]),
                    j.right.output().width(),
                )
        },
        LocalPhysicalPlan::HashAggregate(a) => {
            &&& all_columns_exist(*a.input)
            &&& forall|i: int|
                0 <= i < a.group_by@.len() ==> columns_exist(
                    *(#[trigger] a.group_by@[i]),
                    a.input.output().width(),
                )
            &&& forall|i: int|
                0 <= i < a.aggregations@.len() ==> agg_columns_exist(
                    #[trigger] a.aggregations@[i],
                    a.input.output().width(),
                )
        },
        LocalPhysicalPlan::UnGroupedAggregate(a) => all_columns_exist(*a.input) && forall|i: int|
            0 <= i < a.aggregations@.len() ==> agg_columns_exist(
                #[trigger] a.aggregations@[i],
                a.input.output().width(),
            ),
        LocalPhysicalPlan::Other(_) => true,
    }
}

/// An expression whose columns exist is accepted for translation; and of an expression that has a SQL
/// form, one that is accepted has only columns that exist.
pub proof fn expressions_with_existing_columns_are_accepted(e: Arc<Expr>, schema: Schema)
    ensures
        columns_exist(*e, schema.width()) ==> expr_in_schema(*e, schema),
        is_translatable(*e) && expr_in_schema(*e, schema) ==> columns_exist(*e, schema.width()),
    decreases e,
{
    match *e {
        Expr::BinaryOp { op: _, left, right } => {
            expressions_with_existing_columns_are_accepted(left, schema);
            expressions_with_existing_columns_are_accepted(right, schema);
            exactly_the_supported_expressions_are_translated(left, schema);
        },
        Expr::Alias(inner, _) => expressions_with_existing_columns_are_accepted(inner, schema),
        Expr::Not(inner) => expressions_with_existing_columns_are_accepted(inner, schema),
        Expr::IsNull(inner) => expressions_with_existing_columns_are_accepted(inner, schema),
        Expr::NotNull(inner) => expressions_with_existing_columns_are_accepted(inner, schema),
        _ => {},
    }
}

proof fn aggs_with_existing_columns_are_accepted(agg: AggExpr, schema: Schema)
    ensures
        agg_columns_exist(agg, schema.width()) ==> agg_in_schema(agg, schema),
{
    match agg {
        AggExpr::Count(c, CountMode::Valid) => expressions_with_existing_columns_are_accepted(
            c,
            schema,
        ),
        AggExpr::Sum(c) => expressions_with_existing_columns_are_accepted(c, schema),
        AggExpr::Mean(c) => expressions_with_existing_columns_are_accepted(c, schema),
        AggExpr::Min(c) => expressions_with_existing_columns_are_accepted(c, schema),
        AggExpr::Max(c) => expressions_with_existing_columns_are_accepted(c, schema),
        _ => {},
    }
}

proof fn agg_lists_with_existing_columns_are_accepted(
    out: Schema,
    base: nat,
    aggs: Seq<AggExpr>,
    input: Schema,
)
    requires
        forall|i: int|
            0 <= i < aggs.len() ==> agg_columns_exist(#[trigger] aggs[i], input.width()),
    ensures
        aggs_in_schema(out, base, aggs, input),
{
    assert forall|i: int| 0 <= i < aggs.len() implies agg_in_schema(#[trigger] aggs[i], input) by {
        aggs_with_existing_columns_are_accepted(aggs[i], input);
    }
}

proof fn keys_with_existing_columns_are_accepted(j: HashJoin)
    ensures
        (forall|i: int|
            0 <= i < j.left_on@.len() ==> columns_exist(
                *(#[trigger] j.left_on@[i]),
                j.left.output().width(),
            )) && (forall|i: int|
            0 <= i < j.right_on@.len() ==> columns_exist(
                *(#[trigger] j.right_on@[i]),
                j.right.output().width(),
            )) ==> join_keys_in_schema(j),
{
    assert forall|i: int| 0 <= i < j.left_on@.len() && columns_exist(
        *(#[trigger] j.left_on@[i]),
        j.left.output().width(),
    ) implies expr_in_schema(*j.left_on@[i], j.left.output()) by {
        expressions_with_existing_columns_are_accepted(j.left_on@[i], j.left.output());
    }
    assert forall|i: int| 0 <= i < j.right_on@.len() && columns_exist(
        *(#[trigger] j.right_on@[i]),
        j.right.output().width(),
    ) implies expr_in_schema(*j.right_on@[i], j.right.output()) by {
        expressions_with_existing_columns_are_accepted(j.right_on@[i], j.right.output());
    }
}

/// A plan whose columns all exist is accepted for translation.
pub proof fn plans_with_existing_columns_are_accepted(plan: Arc<LocalPhysicalPlan>)
    requires
        all_columns_exist(*plan),
    ensures
        plan_in_schema(*plan),
    decreases *plan,
{
    match *plan {
        LocalPhysicalPlan::InMemoryScan(_) => {},
        LocalPhysicalPlan::Filter(f) => {
            plans_with_existing_columns_are_accepted(f.input);
            expressions_with_existing_columns_are_accepted(f.predicate, f.input.output());
        },
        LocalPhysicalPlan::Project(p) => {
            plans_with_existing_columns_are_accepted(p.input);
            assert forall|i: int| 0 <= i < project_items(p).len() implies expr_in_schema(
                *(#[trigger] p.projection@[i]),
                p.input.output(),
            ) by {
                expressions_with_existing_columns_are_accepted(p.projection@[i], p.input.output());
            }
        },
        LocalPhysicalPlan::HashJoin(j) => {
            plans_with_existing_columns_are_accepted(j.left);
            plans_with_existing_columns_are_accepted(j.right);
            keys_with_existing_columns_are_accepted(j);
        },
        LocalPhysicalPlan::HashAggregate(a) => {
            plans_with_existing_columns_are_accepted(a.input);
            assert forall|i: int| 0 <= i < a.group_by@.len() implies expr_in_schema(
                *(#[trigger] a.group_by@[i]),
                a.input.output(),
            ) by {
                expressions_with_existing_columns_are_accepted(a.group_by@[i], a.input.output());
            }
            agg_lists_with_existing_columns_are_accepted(
                plan.output(),
                a.group_by@.len(),
                a.aggregations@,
                a.input.output(),
            );
        },
        LocalPhysicalPlan::UnGroupedAggregate(a) => {
            plans_with_existing_columns_are_accepted(a.input);
            agg_lists_with_existing_columns_are_accepted(
                plan.output(),
                0,
                a.aggregations@,
                a.input.output(),
            );
        },
        LocalPhysicalPlan::Other(_) => {},
    }
}

/// The value under the name, as a select list writes it: `value AS "name"`.
pub open spec fn named_item(value: Seq<char>, name: Seq<char>) -> Seq<char> {
    value + seq![' ', 'A', 'S', ' ', '"'] + name + seq!['"']
}

/// The select list gives the values in order, each under the name of the field at its position.
pub open spec fn selects_under_the_fields(
    list: Seq<char>,
    values: Seq<Seq<char>>,
    out: Schema,
) -> bool {
    &&& values.len() == out.width()
    &&& list == join(
        Seq::new(values.len(), |i: int| named_item(values[i], out.fields@[i].name@)),
        seq![',', ' '],
    )
}

proof fn items_are_named(value: Seq<char>, name: Seq<char>)
    ensures
        aliased(value, name) == named_item(value, name),
        ", "@ == seq![',', ' '],
{
    reveal_strlit(" AS ");
    reveal_strlit("\"");
    reveal_strlit(", ");
    assert(aliased(value, name) =~= named_item(value, name));
    assert(", "@ =~= seq![',', ' ']);
}

/// The select list of an aggregate has an item for every field of the output, under its name: first the
/// group columns, then the aggregations, each as it is or cast.
pub proof fn aggregates_select_under_the_fields(
    out: Schema,
    groups: Seq<Seq<char>>,
    aggs: Seq<AggExpr>,
    input: Schema,
) -> (values: Seq<Seq<char>>)
    requires
        aggregate_select_sql(out, groups, aggs, input) is Ok,
    ensures
        selects_under_the_fields(
            aggregate_select_sql(out, groups, aggs, input)->Ok_0,
            values,
            out,
        ),
        values.len() == groups.len() + aggs.len(),
        forall|i: int| 0 <= i < groups.len() ==> #[trigger] values[i] == groups[i],
        forall|k: int|
            0 <= k < aggs.len() ==> (agg_sql(#[trigger] aggs[k], input) matches Ok(sql) && values[groups.len()
                + k] == cast_to(sql, out.fields@[groups.len() + k].dtype)),
{
    let base = groups.len();
    let all = agg_items(out, base, aggs, input);
    let items = collect(all)->Ok_0;
    let casts = Seq::new(
        aggs.len(),
        |k: int| cast_to(agg_sql(aggs[k], input)->Ok_0, out.fields@[base + k].dtype),
    );
    let values = groups + casts;
    collected_items(all);
    assert forall|k: int| 0 <= k < aggs.len() implies (agg_sql(
        #[trigger] aggs[k],
        input,
    ) matches Ok(sql) && values[base + k] == cast_to(sql, out.fields@[base + k].dtype)) by {
        assert(all[k] == Ok::<Seq<char>, ErrorView>(items[k]));
    }
    let named = Seq::new(values.len(), |i: int| named_item(values[i], out.fields@[i].name@));
    assert forall|i: int| 0 <= i < values.len() implies named[i] == (group_columns(out, groups)
        + items)[i] by {
        items_are_named(values[i], out.fields@[i].name@);
        if i >= base {
            assert(all[i - base] == Ok::<Seq<char>, ErrorView>(items[i - base]));
        }
    }
    assert(named =~= group_columns(out, groups) + items);
    items_are_named(Seq::empty(), Seq::empty());
    values
}

/// The select list of a projection has an item for every field of the output, under its name: the
/// expression at the field's position.
pub proof fn projections_select_under_the_fields(p: Project) -> (values: Seq<Seq<char>>)
    requires
        p.projection@.len() == p.schema.width(),
        collect(project_items(p)) is Ok,
    ensures
        selects_under_the_fields(join(collect(project_items(p))->Ok_0, ", "@), values, *p.schema),
        forall|i: int|
            0 <= i < p.projection@.len() ==> expr_sql(*(#[trigger] p.projection@[i]), p.input.output())
                == Ok::<Seq<char>, ErrorView>(values[i]),
{
    let all = project_items(p);
    let items = collect(all)->Ok_0;
    collected_items(all);
    let values = Seq::new(p.projection@.len(), |i: int| projected_text(p, i));
    assert forall|i: int| 0 <= i < p.projection@.len() implies expr_sql(
        *(#[trigger] p.projection@[i]),
        p.input.output(),
    ) == Ok::<Seq<char>, ErrorView>(values[i]) by {
        assert(all[i] == Ok::<Seq<char>, ErrorView>(items[i]));
    }
    let named = Seq::new(values.len(), |i: int| named_item(values[i], p.schema.fields@[i].name@));
    assert forall|i: int| 0 <= i < values.len() implies named[i] == items[i] by {
        items_are_named(values[i], p.schema.fields@[i].name@);
        assert(all[i] == Ok::<Seq<char>, ErrorView>(items[i]));
        assert(p.projection@[i] == p.projection@[i]);
    }
    assert(named =~= items);
    items_are_named(Seq::empty(), Seq::empty());
    values
}

spec fn projected_text(p: Project, i: int) -> Seq<char> {
    expr_sql(*p.projection@[i], p.input.output())->Ok_0
}

/// The names under which unsupported operators are refused tell them apart.
pub proof fn operator_names_tell_operators_apart(a: Operator, b: Operator)
    ensures
        operator_name(a) == operator_name(b) ==> a == b,
{
    reveal_strlit("Eq");
    reveal_strlit("EqNullSafe");
    reveal_strlit("NotEq");
    reveal_strlit("Lt");
    reveal_strlit("LtEq");
    reveal_strlit("Gt");
    reveal_strlit("GtEq");
    reveal_strlit("Plus");
    reveal_strlit("Minus");
    reveal_strlit("Multiply");
    reveal_strlit("TrueDivide");
    reveal_strlit("FloorDivide");
    reveal_strlit("Modulus");
    reveal_strlit("And");
    reveal_strlit("Or");
    reveal_strlit("Xor");
    reveal_strlit("ShiftLeft");
    reveal_strlit("ShiftRight");
    let (x, y) = (operator_name(a), operator_name(b));
    if x == y {
        assert(x.len() == y.len() && x[0] == y[0] && x[1] == y[1]);
    }
}

/// The names under which unsupported joins are refused tell them apart.
pub proof fn join_names_tell_joins_apart(a: JoinType, b: JoinType)
    ensures
        join_type_name(a) == join_type_name(b) ==> a == b,
{
    reveal_strlit("Inner");
    reveal_strlit("Left");
    reveal_strlit("Right");
    reveal_strlit("Outer");
    reveal_strlit("Anti");
    reveal_strlit("Semi");
    let (x, y) = (join_type_name(a), join_type_name(b));
    if x == y {
        assert(x.len() == y.len() && x[0] == y[0]);
    }
}

} // verus!
