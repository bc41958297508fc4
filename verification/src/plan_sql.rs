//! Translating a physical plan to one DuckDB SQL query.
//!
//! Every node becomes a `SELECT` with an explicit list of its output columns over the query of its
//! input, so that the column names follow the plan's schemas through every level. A node, join type
//! or expression outside the supported subset is refused; there is no fallback.
use std::sync::Arc;
use vstd::prelude::*;

use crate::error::{text_result, DaftError, ErrorView};
use crate::expr::{AggExpr, Column, Expr};
use crate::expr_sql::{
    agg_in_schema, agg_sql, agg_to_sql, expr_in_schema, expr_sql, expr_to_sql, quote, quoted,
};
use crate::local_plan::{
    Filter, HashAggregate, HashJoin, InMemoryScan, JoinType, LocalPhysicalPlan, Project, SourceId,
    UnGroupedAggregate,
};
use crate::schema::{DataType, Field, Schema};
use crate::text::{decimal, join, join_strings, push_decimal, same_str, texts};

verus! {

/// The SQL type that an aggregate of this output type is cast to, or nothing where the type is left
/// to DuckDB.
pub open spec fn cast_type(dtype: DataType) -> Option<Seq<char>> {
    match dtype {
        DataType::Int8 => Some("TINYINT"@),
        DataType::Int16 => Some("SMALLINT"@),
        DataType::Int32 => Some("INTEGER"@),
        DataType::Int64 => Some("BIGINT"@),
        DataType::UInt8 => Some("UTINYINT"@),
        DataType::UInt16 => Some("USMALLINT"@),
        DataType::UInt32 => Some("UINTEGER"@),
        DataType::UInt64 => Some("UBIGINT"@),
        DataType::Float32 => Some("FLOAT"@),
        DataType::Float64 => Some("DOUBLE"@),
        DataType::Utf8 => Some("VARCHAR"@),
        _ => None,
    }
}

/// The SQL type name for a cast, so that an aggregate has the expected type rather than DuckDB's
/// default. Types without an exact counterpart are left uncast.
pub fn dtype_to_duckdb_cast(dtype: &DataType) -> (r: Option<&'static str>)
    ensures
        match r {
            Some(s) => cast_type(*dtype) == Some(s@),
            None => cast_type(*dtype) is None,
        },
{
    match dtype {
        DataType::Int8 => Some("TINYINT"),
        DataType::Int16 => Some("SMALLINT"),
        DataType::Int32 => Some("INTEGER"),
        DataType::Int64 => Some("BIGINT"),
        DataType::UInt8 => Some("UTINYINT"),
        DataType::UInt16 => Some("USMALLINT"),
        DataType::UInt32 => Some("UINTEGER"),
        DataType::UInt64 => Some("UBIGINT"),
        DataType::Float32 => Some("FLOAT"),
        DataType::Float64 => Some("DOUBLE"),
        DataType::Utf8 => Some("VARCHAR"),
        _ => None,
    }
}

/// A query and the sources whose views it reads, in the order in which the plan names them.
#[derive(Debug)]
pub struct SqlPlan {
    pub sql: String,
    pub bindings: Vec<SourceId>,
}

impl SqlPlan {
    /// The text and the sources of the query.
    pub open spec fn parts(&self) -> (Seq<char>, Seq<SourceId>) {
        (self.sql@, self.bindings@)
    }
}

impl Clone for SqlPlan {
    fn clone(&self) -> (r: Self)
        ensures
            r.parts() == self.parts(),
    {
        let mut bindings: Vec<SourceId> = Vec::new();
        let mut i: usize = 0;
        while i < self.bindings.len()
            invariant
                i <= self.bindings.len(),
                bindings@ == self.bindings@.take(i as int),
            decreases self.bindings.len() - i,
        {
            bindings.push(self.bindings[i]);
            i = i + 1;
            assert(bindings@ =~= self.bindings@.take(i as int));
        }
        assert(bindings@ =~= self.bindings@);
        SqlPlan { sql: self.sql.clone(), bindings }
    }
}

/// The error for a node outside the supported subset.
pub open spec fn unsupported_node_view(node: Seq<char>) -> ErrorView {
    ErrorView::NotImplemented("duckdb POC: unsupported plan node: "@ + node)
}

fn unsupported_node(node: &str) -> (r: DaftError)
    ensures
        r@ == unsupported_node_view(node@),
{
    let mut m = "duckdb POC: unsupported plan node: ".to_owned();
    m.append(node);
    DaftError::NotImplemented(m)
}

/// The equality of one join key in the `ON` clause.
pub open spec fn key_predicate(l: Seq<char>, r: Seq<char>, null_equals_null: bool) -> Seq<char> {
    if null_equals_null {
        "l."@ + l + " IS NOT DISTINCT FROM r."@ + r
    } else {
        "l."@ + l + " = r."@ + r
    }
}

/// Builds the equality of one join key for the `ON` clause. `IS NOT DISTINCT FROM` matches two nulls,
/// a plain `=` never matches a null. Both fragments are column SQL, e.g. `"k"`.
pub fn join_key_predicate(l_sql: &str, r_sql: &str, null_equals_null: bool) -> (r: String)
    ensures
        r@ == key_predicate(l_sql@, r_sql@, null_equals_null),
{
    let mut out = "l.".to_owned();
    out.append(l_sql);
    if null_equals_null {
        out.append(" IS NOT DISTINCT FROM r.");
    } else {
        out.append(" = r.");
    }
    out.append(r_sql);
    out
}

/// The quoted column names of a schema.
pub open spec fn quoted_names(schema: Schema) -> Seq<Seq<char>> {
    schema.fields@.map_values(|f: Field| quoted(f.name@))
}

/// The comma-separated quoted column names of a schema.
pub open spec fn column_list(schema: Schema) -> Seq<char> {
    join(quoted_names(schema), ", "@)
}

/// The comma-separated quoted column names of a node's schema.
pub fn projection_list(schema: &Schema) -> (r: String)
    ensures
        r@ == column_list(*schema),
{
    let mut items: Vec<String> = Vec::new();
    let mut i: usize = 0;
    while i < schema.fields.len()
        invariant
            i <= schema.fields.len(),
            texts(items@) == quoted_names(*schema).take(i as int),
        decreases schema.fields.len() - i,
    {
        let ghost before = items@;
        items.push(quote(&schema.fields[i].name));
        i = i + 1;
        proof {
            assert(texts(items@) =~= texts(before).push(items@.last()@));
            assert(texts(items@) =~= quoted_names(*schema).take(i as int));
        }
    }
    assert(quoted_names(*schema).take(i as int) =~= quoted_names(*schema));
    join_strings(&items, ", ")
}

/// The values in order, or the first error.
pub open spec fn collect(items: Seq<Result<Seq<char>, ErrorView>>) -> Result<
    Seq<Seq<char>>,
    ErrorView,
>
    decreases items.len(),
{
    if items.len() == 0 {
        Ok(Seq::empty())
    } else {
        match collect(items.drop_last()) {
            Err(e) => Err(e),
            Ok(done) => match items.last() {
                Err(e) => Err(e),
                Ok(s) => Ok(done.push(s)),
            },
        }
    }
}

/// The items up to `i` were collected without an error.
pub open spec fn reached(items: Seq<Result<Seq<char>, ErrorView>>, i: int) -> bool {
    collect(items.take(i)) is Ok
}

/// What one more item adds.
pub(crate) proof fn collect_step(items: Seq<Result<Seq<char>, ErrorView>>, i: int)
    requires
        0 <= i < items.len(),
    ensures
        collect(items.take(i + 1)) == match collect(items.take(i)) {
            Err(e) => Err(e),
            Ok(done) => match items[i] {
                Err(e) => Err(e),
                Ok(s) => Ok(done.push(s)),
            },
        },
{
    assert(items.take(i + 1).drop_last() =~= items.take(i));
    assert(items.take(i + 1).last() == items[i]);
}

/// An error among the first items is the error of all.
pub(crate) proof fn collect_stops(items: Seq<Result<Seq<char>, ErrorView>>, i: int)
    requires
        0 <= i <= items.len(),
        collect(items.take(i)) is Err,
    ensures
        collect(items) == collect(items.take(i)),
    decreases items.len() - i,
{
    if i < items.len() {
        collect_step(items, i);
        collect_stops(items, i + 1);
    } else {
        assert(items.take(i) =~= items);
    }
}

/// A value with an output name.
pub open spec fn aliased(value: Seq<char>, name: Seq<char>) -> Seq<char> {
    value + " AS "@ + quoted(name)
}

fn alias(value: &str, name: &str) -> (r: String)
    ensures
        r@ == aliased(value@, name@),
{
    let mut out = value.to_owned();
    out.append(" AS ");
    out.append(quote(name).as_str());
    out
}

/// The smaller of two lengths.
pub open spec fn shorter(a: nat, b: nat) -> nat {
    if a < b {
        a
    } else {
        b
    }
}

/// The select items of a projection: each expression under the name of its output column.
pub open spec fn project_items(p: Project) -> Seq<Result<Seq<char>, ErrorView>> {
    Seq::new(
        shorter(p.projection@.len(), p.schema.width()),
        |i: int|
            match expr_sql(*p.projection@[i], p.input.output()) {
                Err(e) => Err(e),
                Ok(s) => Ok(aliased(s, p.schema.name_at(i))),
            },
    )
}

fn project_select(p: &Project) -> (r: Result<String, DaftError>)
    requires
        forall|i: int|
            0 <= i < project_items(*p).len() && reached(project_items(*p), i) ==> expr_in_schema(
                *(#[trigger] p.projection@[i]),
                p.input.output(),
            ),
    ensures
        text_result(r) == match collect(project_items(*p)) {
            Err(e) => Err(e),
            Ok(items) => Ok(join(items, ", "@)),
        },
{
    let ghost all = project_items(*p);
    let input_schema = p.input.schema();
    let mut items: Vec<String> = Vec::new();
    let mut i: usize = 0;
    assert(texts(items@) =~= Seq::empty());
    while i < p.projection.len() && i < p.schema.fields.len()
        invariant
            i <= all.len(),
            all == project_items(*p),
            *input_schema == p.input.output(),
            collect(all.take(i as int)) == Ok::<Seq<Seq<char>>, ErrorView>(texts(items@)),
            forall|i: int|
                0 <= i < all.len() && reached(all, i) ==> expr_in_schema(
                    *(#[trigger] p.projection@[i]),
                    p.input.output(),
                ),
        decreases p.projection.len() - i,
    {
        proof {
            collect_step(all, i as int);
            assert(reached(all, i as int));
        }
        let sql = match expr_to_sql(&p.projection[i], input_schema) {
            Ok(s) => s,
            Err(e) => {
                proof {
                    collect_stops(all, i + 1);
                }
                return Err(e);
            },
        };
        let ghost before = items@;
        items.push(alias(sql.as_str(), &p.schema.fields[i].name));
        i = i + 1;
        assert(texts(items@) =~= texts(before).push(items@.last()@));
    }
    assert(all.take(i as int) =~= all);
    Ok(join_strings(&items, ", "))
}

/// A join column taken from one side, under its own name.
pub open spec fn side_column(side: Seq<char>, name: Seq<char>) -> Seq<char> {
    side + quoted(name) + " AS "@ + quoted(name)
}

/// The select item for an output column of a join: taken from the left input where it has the column
/// (a join key is in both and comes from the left), else from the right one.
pub open spec fn join_column(left: Schema, right: Schema, name: Seq<char>) -> Seq<char> {
    if left.has_name(name) {
        side_column("l."@, name)
    } else if right.has_name(name) {
        side_column("r."@, name)
    } else {
        quoted(name)
    }
}

/// The select items of a join.
pub open spec fn join_columns(j: HashJoin) -> Seq<Seq<char>> {
    j.schema.fields@.map_values(
        |f: Field| join_column(j.left.output(), j.right.output(), f.name@),
    )
}

/// The key expressions that are bound columns exist in the schema.
pub open spec fn key_columns_exist(on: Seq<Arc<Expr>>, schema: Schema) -> bool {
    forall|i: int|
        0 <= i < on.len() ==> (*(#[trigger] on[i]) matches Expr::Column(Column::Bound(bc))
            ==> bc.index < schema.width())
}

/// The names of the key expressions that are plain columns.
fn key_names(on: &Vec<Arc<Expr>>, schema: &Schema) -> (r: Vec<Arc<str>>)
    requires
        key_columns_exist(on@, *schema),
    ensures
        name_texts(r@) == bound_key_names(on@, *schema),
        forall|k: int| 0 <= k < r@.len() ==> schema.has_name((#[trigger] r@[k])@),
{
    let mut names: Vec<Arc<str>> = Vec::new();
    let mut i: usize = 0;
    assert(on@.take(0) =~= Seq::empty());
    assert(name_texts(names@) =~= Seq::empty());
    while i < on.len()
        invariant
            i <= on.len(),
            key_columns_exist(on@, *schema),
            name_texts(names@) == bound_key_names(on@.take(i as int), *schema),
            forall|k: int| 0 <= k < names@.len() ==> schema.has_name((#[trigger] names@[k])@),
        decreases on.len() - i,
    {
        proof {
            assert(on@.take(i + 1).drop_last() =~= on@.take(i as int));
            assert(on@.take(i + 1).last() == on@[i as int]);
        }
        match &*on[i] {
            Expr::Column(Column::Bound(bc)) => {
                assert(on@[i as int] == on[i as int]);
                let name = schema.fields[bc.index].name.clone();
                assert(schema.name_at(bc.index as int) == name@);
                let ghost before = names@;
                names.push(name);
                assert(name_texts(names@) =~= name_texts(before).push(name@));
            },
            _ => {},
        }
        i = i + 1;
    }
    assert(on@.take(i as int) =~= on@);
    names
}

/// The names of the key expressions that are bound columns, in order; any other key has no name.
pub open spec fn bound_key_names(on: Seq<Arc<Expr>>, schema: Schema) -> Seq<Seq<char>>
    decreases on.len(),
{
    if on.len() == 0 {
        Seq::empty()
    } else {
        let before = bound_key_names(on.drop_last(), schema);
        match *on.last() {
            Expr::Column(Column::Bound(bc)) => before.push(schema.name_at(bc.index as int)),
            _ => before,
        }
    }
}

/// The texts of shared names.
pub open spec fn name_texts(names: Seq<Arc<str>>) -> Seq<Seq<char>> {
    names.map_values(|n: Arc<str>| n@)
}

fn listed(names: &Vec<Arc<str>>, name: &str) -> (r: bool)
    ensures
        r == exists|k: int| 0 <= k < names@.len() && (#[trigger] names@[k])@ == name@,
{
    let mut i: usize = 0;
    while i < names.len()
        invariant
            i <= names.len(),
            forall|k: int| 0 <= k < i ==> (#[trigger] names@[k])@ != name@,
        decreases names.len() - i,
    {
        if same_str(&names[i], name) {
            assert(names@[i as int]@ == name@);
            return true;
        }
        i = i + 1;
    }
    false
}

fn side_alias(side: &str, name: &str) -> (r: String)
    ensures
        r@ == side_column(side@, name@),
{
    let q = quote(name);
    let mut out = side.to_owned();
    out.append(q.as_str());
    out.append(" AS ");
    out.append(q.as_str());
    out
}

/// The select list of a join. Apart from the join keys, which an inner join merges into one column,
/// the two inputs share no column name, so qualifying each column with its side is unambiguous.
fn join_select(j: &HashJoin) -> (r: String)
    requires
        key_columns_exist(j.left_on@, j.left.output()),
        key_columns_exist(j.right_on@, j.right.output()),
    ensures
        r@ == join(join_columns(*j), ", "@),
{
    let left_schema = j.left.schema();
    let right_schema = j.right.schema();
    let left_key_names = key_names(&j.left_on, left_schema);
    let right_key_names = key_names(&j.right_on, right_schema);
    let mut items: Vec<String> = Vec::new();
    let mut i: usize = 0;
    while i < j.schema.fields.len()
        invariant
            i <= j.schema.fields.len(),
            *left_schema == j.left.output(),
            *right_schema == j.right.output(),
            forall|k: int|
                0 <= k < left_key_names@.len() ==> left_schema.has_name(
                    (#[trigger] left_key_names@[k])@,
                ),
            texts(items@) == join_columns(*j).take(i as int),
        decreases j.schema.fields.len() - i,
    {
        let name = &j.schema.fields[i].name;
        let ghost before = items@;
        if listed(&left_key_names, name) && listed(&right_key_names, name) {
            items.push(side_alias("l.", name));
        } else if left_schema.contains(name) {
            items.push(side_alias("l.", name));
        } else if right_schema.contains(name) {
            items.push(side_alias("r.", name));
        } else {
            items.push(quote(name));
        }
        i = i + 1;
        proof {
            assert(texts(items@) =~= texts(before).push(items@.last()@));
            assert(texts(items@) =~= join_columns(*j).take(i as int));
        }
    }
    assert(join_columns(*j).take(i as int) =~= join_columns(*j));
    join_strings(&items, ", ")
}

/// Whether two nulls match for the key at `i`.
pub open spec fn null_matches(flags: Option<Vec<bool>>, i: int) -> bool {
    match flags {
        Some(v) => i < v@.len() && v@[i],
        None => false,
    }
}

/// The conditions of the `ON` clause.
pub open spec fn on_items(j: HashJoin) -> Seq<Result<Seq<char>, ErrorView>> {
    Seq::new(
        shorter(j.left_on@.len(), j.right_on@.len()),
        |i: int|
            match expr_sql(*j.left_on@[i], j.left.output()) {
                Err(e) => Err(e),
                Ok(l) => match expr_sql(*j.right_on@[i], j.right.output()) {
                    Err(e) => Err(e),
                    Ok(r) => Ok(key_predicate(l, r, null_matches(j.null_equals_null, i))),
                },
            },
    )
}

/// The columns that the keys at `i` look up exist.
pub open spec fn on_in_schema(j: HashJoin, i: int) -> bool {
    &&& expr_in_schema(*j.left_on@[i], j.left.output())
    &&& expr_sql(*j.left_on@[i], j.left.output()) is Ok ==> expr_in_schema(
        *j.right_on@[i],
        j.right.output(),
    )
}

/// The conditions that the join keys put on a plan: every column that is looked up exists.
pub open spec fn join_keys_in_schema(j: HashJoin) -> bool {
    &&& key_columns_exist(j.left_on@, j.left.output())
    &&& key_columns_exist(j.right_on@, j.right.output())
    &&& forall|i: int|
        0 <= i < on_items(j).len() && #[trigger] reached(on_items(j), i) ==> on_in_schema(j, i)
}

fn join_condition(j: &HashJoin) -> (r: Result<String, DaftError>)
    requires
        join_keys_in_schema(*j),
    ensures
        text_result(r) == match collect(on_items(*j)) {
            Err(e) => Err(e),
            Ok(items) => Ok(join(items, " AND "@)),
        },
{
    let ghost all = on_items(*j);
    let left_schema = j.left.schema();
    let right_schema = j.right.schema();
    let mut items: Vec<String> = Vec::new();
    let mut i: usize = 0;
    assert(texts(items@) =~= Seq::empty());
    while i < j.left_on.len() && i < j.right_on.len()
        invariant
            i <= all.len(),
            all == on_items(*j),
            *left_schema == j.left.output(),
            *right_schema == j.right.output(),
            collect(all.take(i as int)) == Ok::<Seq<Seq<char>>, ErrorView>(texts(items@)),
            join_keys_in_schema(*j),
        decreases j.left_on.len() - i,
    {
        proof {
            collect_step(all, i as int);
            assert(reached(all, i as int));
            assert(on_in_schema(*j, i as int));
        }
        let l_sql = match expr_to_sql(&j.left_on[i], left_schema) {
            Ok(s) => s,
            Err(e) => {
                proof {
                    collect_stops(all, i + 1);
                }
                return Err(e);
            },
        };
        let r_sql = match expr_to_sql(&j.right_on[i], right_schema) {
            Ok(s) => s,
            Err(e) => {
                proof {
                    collect_stops(all, i + 1);
                }
                return Err(e);
            },
        };
        let null_eq = match &j.null_equals_null {
            Some(v) => if i < v.len() {
                v[i]
            } else {
                false
            },
            None => false,
        };
        let ghost before = items@;
        items.push(join_key_predicate(l_sql.as_str(), r_sql.as_str(), null_eq));
        i = i + 1;
        assert(texts(items@) =~= texts(before).push(items@.last()@));
    }
    assert(all.take(i as int) =~= all);
    Ok(join_strings(&items, " AND "))
}

/// The group-by expressions of an aggregate.
pub open spec fn group_items(a: HashAggregate) -> Seq<Result<Seq<char>, ErrorView>> {
    Seq::new(a.group_by@.len(), |i: int| expr_sql(*a.group_by@[i], a.input.output()))
}

fn group_list(a: &HashAggregate) -> (r: Result<Vec<String>, DaftError>)
    requires
        forall|i: int|
            0 <= i < a.group_by@.len() && reached(group_items(*a), i) ==> expr_in_schema(
                *(#[trigger] a.group_by@[i]),
                a.input.output(),
            ),
    ensures
        match r {
            Ok(v) => collect(group_items(*a)) == Ok::<Seq<Seq<char>>, ErrorView>(texts(v@)),
            Err(e) => collect(group_items(*a)) == Err::<Seq<Seq<char>>, ErrorView>(e@),
        },
{
    let ghost all = group_items(*a);
    let input_schema = a.input.schema();
    let mut items: Vec<String> = Vec::new();
    let mut i: usize = 0;
    assert(texts(items@) =~= Seq::empty());
    while i < a.group_by.len()
        invariant
            i <= all.len(),
            all == group_items(*a),
            *input_schema == a.input.output(),
            collect(all.take(i as int)) == Ok::<Seq<Seq<char>>, ErrorView>(texts(items@)),
            forall|i: int|
                0 <= i < a.group_by@.len() && reached(all, i) ==> expr_in_schema(
                    *(#[trigger] a.group_by@[i]),
                    a.input.output(),
                ),
        decreases a.group_by.len() - i,
    {
        proof {
            collect_step(all, i as int);
            assert(reached(all, i as int));
        }
        let sql = match expr_to_sql(&a.group_by[i], input_schema) {
            Ok(s) => s,
            Err(e) => {
                proof {
                    collect_stops(all, i + 1);
                }
                return Err(e);
            },
        };
        let ghost before = items@;
        items.push(sql);
        i = i + 1;
        assert(texts(items@) =~= texts(before).push(items@.last()@));
    }
    assert(all.take(i as int) =~= all);
    Ok(items)
}

/// An aggregate cast to the type of its output column.
pub open spec fn cast_to(value: Seq<char>, dtype: DataType) -> Seq<char> {
    match cast_type(dtype) {
        Some(t) => "CAST("@ + value + " AS "@ + t + ")"@,
        None => value,
    }
}

/// The select items of the group columns: each under the name of the output column at its position.
pub open spec fn group_columns(out: Schema, groups: Seq<Seq<char>>) -> Seq<Seq<char>> {
    Seq::new(groups.len(), |i: int| aliased(groups[i], out.name_at(i)))
}

/// The select items of the aggregations, whose output columns start at `base`.
pub open spec fn agg_items(
    out: Schema,
    base: nat,
    aggs: Seq<AggExpr>,
    input: Schema,
) -> Seq<Result<Seq<char>, ErrorView>> {
    Seq::new(
        aggs.len(),
        |k: int|
            match agg_sql(aggs[k], input) {
                Err(e) => Err(e),
                Ok(s) => Ok(
                    aliased(cast_to(s, out.fields@[base + k].dtype), out.name_at(base + k)),
                ),
            },
    )
}

/// The error for an output schema that does not fit the group columns and aggregations.
pub open spec fn wrong_width_view(width: nat, groups: nat, aggs: nat) -> ErrorView {
    ErrorView::ValueError(
        "duckdb POC: aggregate output schema has "@ + decimal(width) + " fields but expected "@
            + decimal(groups + aggs) + " (group-by "@ + decimal(groups) + " + aggregations "@
            + decimal(aggs) + ")"@,
    )
}

/// The select list of an aggregate: the group columns first, then the aggregations.
pub open spec fn aggregate_select_sql(
    out: Schema,
    groups: Seq<Seq<char>>,
    aggs: Seq<AggExpr>,
    input: Schema,
) -> Result<Seq<char>, ErrorView> {
    if out.width() != groups.len() + aggs.len() {
        Err(wrong_width_view(out.width(), groups.len(), aggs.len()))
    } else {
        match collect(agg_items(out, groups.len(), aggs, input)) {
            Err(e) => Err(e),
            Ok(items) => Ok(join(group_columns(out, groups) + items, ", "@)),
        }
    }
}

/// The columns that the aggregations look up exist, as far as they are looked at.
pub open spec fn aggs_in_schema(
    out: Schema,
    base: nat,
    aggs: Seq<AggExpr>,
    input: Schema,
) -> bool {
    forall|k: int|
        0 <= k < aggs.len() && out.width() == base + aggs.len() && #[trigger] reached(
            agg_items(out, base, aggs, input),
            k,
        ) ==> agg_in_schema(aggs[k], input)
}

fn cast_sql(value: String, dtype: &DataType) -> (r: String)
    ensures
        r@ == cast_to(value@, *dtype),
{
    match dtype_to_duckdb_cast(dtype) {
        Some(t) => {
            let mut out = "CAST(".to_owned();
            out.append(value.as_str());
            out.append(" AS ");
            out.append(t);
            out.append(")");
            out
        },
        None => value,
    }
}

fn wrong_width(width: usize, groups: usize, aggs: usize) -> (r: DaftError)
    ensures
        r@ == wrong_width_view(width as nat, groups as nat, aggs as nat),
{
    let mut m = "duckdb POC: aggregate output schema has ".to_owned();
    push_decimal(&mut m, width as u128);
    m.append(" fields but expected ");
    push_decimal(&mut m, groups as u128 + aggs as u128);
    m.append(" (group-by ");
    push_decimal(&mut m, groups as u128);
    m.append(" + aggregations ");
    push_decimal(&mut m, aggs as u128);
    m.append(")");
    DaftError::ValueError(m)
}

/// Builds the select list of an aggregate: the group columns first, then the aggregations, each under
/// the name of the output column at its position and each aggregation cast to that column's type.
pub fn aggregate_select(
    out_schema: &Schema,
    groups: &Vec<String>,
    aggs: &Vec<AggExpr>,
    input_schema: &Schema,
) -> (r: Result<String, DaftError>)
    requires
        aggs_in_schema(*out_schema, groups@.len(), aggs@, *input_schema),
    ensures
        text_result(r) == aggregate_select_sql(
            *out_schema,
            texts(groups@),
            aggs@,
            *input_schema,
        ),
{
    let width = out_schema.fields.len();
    if width < groups.len() || width - groups.len() != aggs.len() {
        return Err(wrong_width(width, groups.len(), aggs.len()));
    }
    let ghost out = *out_schema;
    let ghost columns = group_columns(out, texts(groups@));
    let ghost all = agg_items(out, groups@.len(), aggs@, *input_schema);
    let mut items: Vec<String> = Vec::new();
    let mut i: usize = 0;
    while i < groups.len()
        invariant
            i <= groups.len(),
            groups.len() <= out_schema.fields.len(),
            out == *out_schema,
            columns == group_columns(out, texts(groups@)),
            texts(items@) == columns.take(i as int),
        decreases groups.len() - i,
    {
        let ghost before = items@;
        items.push(alias(groups[i].as_str(), &out_schema.fields[i].name));
        i = i + 1;
        proof {
            assert(texts(items@) =~= texts(before).push(items@.last()@));
            assert(texts(items@) =~= columns.take(i as int));
        }
    }
    assert(columns.take(i as int) =~= columns);
    let mut k: usize = 0;
    assert(all.take(0) =~= Seq::empty());
    assert(texts(items@) =~= columns + Seq::<Seq<char>>::empty());
    while k < aggs.len()
        invariant
            k <= aggs.len(),
            groups.len() + aggs.len() == out_schema.fields.len(),
            out == *out_schema,
            all == agg_items(out, groups@.len(), aggs@, *input_schema),
            collect(all.take(k as int)) is Ok,
            texts(items@) == columns + collect(all.take(k as int))->Ok_0,
            aggs_in_schema(*out_schema, groups@.len(), aggs@, *input_schema),
        decreases aggs.len() - k,
    {
        proof {
            collect_step(all, k as int);
            assert(reached(all, k as int));
        }
        let out_idx: usize = groups.len() + k;
        let sql = match agg_to_sql(&aggs[k], input_schema) {
            Ok(s) => s,
            Err(e) => {
                proof {
                    collect_stops(all, k + 1);
                }
                return Err(e);
            },
        };
        let cast = cast_sql(sql, &out_schema.fields[out_idx].dtype);
        let ghost before = items@;
        items.push(alias(cast.as_str(), &out_schema.fields[out_idx].name));
        k = k + 1;
        proof {
            assert(texts(items@) =~= texts(before).push(items@.last()@));
            assert(texts(items@) =~= columns + collect(all.take(k as int))->Ok_0);
        }
    }
    assert(all.take(k as int) =~= all);
    Ok(join_strings(&items, ", "))
}

/// The name of the view over the partitions of a source.
pub open spec fn view_name(source: SourceId) -> Seq<char> {
    "daft_src_"@ + decimal(source as nat)
}

/// Two sources never share a view name.
pub proof fn view_names_are_distinct(a: SourceId, b: SourceId)
    requires
        view_name(a) == view_name(b),
    ensures
        a == b,
{
    let prefix = "daft_src_"@;
    assert(decimal(a as nat) =~= view_name(a).skip(prefix.len() as int));
    assert(decimal(b as nat) =~= view_name(b).skip(prefix.len() as int));
    crate::text::decimal_is_injective(a as nat, b as nat);
}

/// The name of the view over the partitions of a source.
pub fn source_view_name(source: SourceId) -> (r: String)
    ensures
        r@ == view_name(source),
{
    let mut out = "daft_src_".to_owned();
    push_decimal(&mut out, source as u128);
    out
}

/// The name of a join type.
pub open spec fn join_type_name(t: JoinType) -> Seq<char> {
    match t {
        JoinType::Inner => "Inner"@,
        JoinType::Left => "Left"@,
        JoinType::Right => "Right"@,
        JoinType::Outer => "Outer"@,
        JoinType::Anti => "Anti"@,
        JoinType::Semi => "Semi"@,
    }
}

fn join_type_text(t: JoinType) -> (r: &'static str)
    ensures
        r@ == join_type_name(t),
{
    match t {
        JoinType::Inner => "Inner",
        JoinType::Left => "Left",
        JoinType::Right => "Right",
        JoinType::Outer => "Outer",
        JoinType::Anti => "Anti",
        JoinType::Semi => "Semi",
    }
}

/// The translation of a plan.
pub open spec fn plan_sql(plan: LocalPhysicalPlan) -> Result<Seq<char>, ErrorView>
    decreases plan,
{
    match plan {
        LocalPhysicalPlan::InMemoryScan(scan) => Ok(
            "SELECT "@ + column_list(*scan.schema) + " FROM "@ + view_name(scan.source_id),
        ),
        LocalPhysicalPlan::Filter(f) => match plan_sql(*f.input) {
            Err(e) => Err(e),
            Ok(child) => match expr_sql(*f.predicate, f.input.output()) {
                Err(e) => Err(e),
                Ok(pred) => Ok(
                    "SELECT "@ + column_list(*f.schema) + " FROM ("@ + child + ") WHERE "@ + pred,
                ),
            },
        },
        LocalPhysicalPlan::Project(p) => match plan_sql(*p.input) {
            Err(e) => Err(e),
            Ok(child) => match collect(project_items(p)) {
                Err(e) => Err(e),
                Ok(items) => Ok("SELECT "@ + join(items, ", "@) + " FROM ("@ + child + ")"@),
            },
        },
        LocalPhysicalPlan::HashJoin(j) => if j.join_type != JoinType::Inner {
            Err(unsupported_node_view(join_type_name(j.join_type) + " join (inner only)"@))
        } else {
            match plan_sql(*j.left) {
                Err(e) => Err(e),
                Ok(left) => match plan_sql(*j.right) {
                    Err(e) => Err(e),
                    Ok(right) => match collect(on_items(j)) {
                        Err(e) => Err(e),
                        Ok(on) => Ok(
                            "SELECT "@ + join(join_columns(j), ", "@) + " FROM ("@ + left
                                + ") AS l INNER JOIN ("@ + right + ") AS r ON "@ + join(
                                on,
                                " AND "@,
                            ),
                        ),
                    },
                },
            }
        },
        LocalPhysicalPlan::HashAggregate(a) => match plan_sql(*a.input) {
            Err(e) => Err(e),
            Ok(child) => match collect(group_items(a)) {
                Err(e) => Err(e),
                Ok(groups) => match aggregate_select_sql(
                    *a.schema,
                    groups,
                    a.aggregations@,
                    a.input.output(),
                ) {
                    Err(e) => Err(e),
                    Ok(select) => Ok(
                        "SELECT "@ + select + " FROM ("@ + child + ") GROUP BY "@ + join(
                            groups,
                            ", "@,
                        ),
                    ),
                },
            },
        },
        LocalPhysicalPlan::UnGroupedAggregate(a) => match plan_sql(*a.input) {
            Err(e) => Err(e),
            Ok(child) => match aggregate_select_sql(
                *a.schema,
                Seq::empty(),
                a.aggregations@,
                a.input.output(),
            ) {
                Err(e) => Err(e),
                Ok(select) => Ok("SELECT "@ + select + " FROM ("@ + child + ")"@),
            },
        },
        LocalPhysicalPlan::Other(n) => Err(unsupported_node_view(n.name@)),
    }
}

/// The sources that the translation meets, left to right, up to the point where it stops.
pub open spec fn plan_sources(plan: LocalPhysicalPlan) -> Seq<SourceId>
    decreases plan,
{
    match plan {
        LocalPhysicalPlan::InMemoryScan(scan) => seq![scan.source_id],
        LocalPhysicalPlan::Filter(f) => plan_sources(*f.input),
        LocalPhysicalPlan::Project(p) => plan_sources(*p.input),
        LocalPhysicalPlan::HashJoin(j) => if j.join_type != JoinType::Inner {
            Seq::empty()
        } else if plan_sql(*j.left) is Err {
            plan_sources(*j.left)
        } else {
            plan_sources(*j.left) + plan_sources(*j.right)
        },
        LocalPhysicalPlan::HashAggregate(a) => plan_sources(*a.input),
        LocalPhysicalPlan::UnGroupedAggregate(a) => plan_sources(*a.input),
        LocalPhysicalPlan::Other(_) => Seq::empty(),
    }
}

/// Every column that the translation of the plan looks up exists in the schema it is looked up in.
pub open spec fn plan_in_schema(plan: LocalPhysicalPlan) -> bool
    decreases plan,
{
    match plan {
        LocalPhysicalPlan::InMemoryScan(_) => true,
        LocalPhysicalPlan::Filter(f) => {
            &&& plan_in_schema(*f.input)
            &&& plan_sql(*f.input) is Ok ==> expr_in_schema(*f.predicate, f.input.output())
        },
        LocalPhysicalPlan::Project(p) => {
            &&& plan_in_schema(*p.input)
            &&& plan_sql(*p.input) is Ok ==> forall|i: int|
                0 <= i < project_items(p).len() && reached(project_items(p), i) ==> expr_in_schema(
                    *(#[trigger] p.projection@[i]),
                    p.input.output(),
                )
        },
        LocalPhysicalPlan::HashJoin(j) => j.join_type == JoinType::Inner ==> {
            &&& plan_in_schema(*j.left)
            &&& plan_sql(*j.left) is Ok ==> {
                &&& plan_in_schema(*j.right)
                &&& plan_sql(*j.right) is Ok ==> join_keys_in_schema(j)
            }
        },
        LocalPhysicalPlan::HashAggregate(a) => {
            &&& plan_in_schema(*a.input)
            &&& plan_sql(*a.input) is Ok ==> {
                &&& forall|i: int|
                    0 <= i < a.group_by@.len() && reached(group_items(a), i) ==> expr_in_schema(
                        *(#[trigger] a.group_by@[i]),
                        a.input.output(),
                    )
                &&& collect(group_items(a)) is Ok ==> aggs_in_schema(
                    *a.schema,
                    a.group_by@.len(),
                    a.aggregations@,
                    a.input.output(),
                )
            }
        },
        LocalPhysicalPlan::UnGroupedAggregate(a) => {
            &&& plan_in_schema(*a.input)
            &&& plan_sql(*a.input) is Ok ==> aggs_in_schema(
                *a.schema,
                0,
                a.aggregations@,
                a.input.output(),
            )
        },
        LocalPhysicalPlan::Other(_) => true,
    }
}

proof fn collect_length(items: Seq<Result<Seq<char>, ErrorView>>)
    ensures
        collect(items) matches Ok(v) ==> v.len() == items.len(),
    decreases items.len(),
{
    if items.len() > 0 {
        collect_length(items.drop_last());
    }
}

fn scan_query(list: &str, view: &str) -> (r: String)
    ensures
        r@ == "SELECT "@ + list@ + " FROM "@ + view@,
{
    let mut out = "SELECT ".to_owned();
    out.append(list);
    out.append(" FROM ");
    out.append(view);
    out
}

fn filter_query(list: &str, child: &str, pred: &str) -> (r: String)
    ensures
        r@ == "SELECT "@ + list@ + " FROM ("@ + child@ + ") WHERE "@ + pred@,
{
    let mut out = "SELECT ".to_owned();
    out.append(list);
    out.append(" FROM (");
    out.append(child);
    out.append(") WHERE ");
    out.append(pred);
    out
}

fn nested_query(list: &str, child: &str) -> (r: String)
    ensures
        r@ == "SELECT "@ + list@ + " FROM ("@ + child@ + ")"@,
{
    let mut out = "SELECT ".to_owned();
    out.append(list);
    out.append(" FROM (");
    out.append(child);
    out.append(")");
    out
}

fn grouped_query(list: &str, child: &str, groups: &str) -> (r: String)
    ensures
        r@ == "SELECT "@ + list@ + " FROM ("@ + child@ + ") GROUP BY "@ + groups@,
{
    let mut out = "SELECT ".to_owned();
    out.append(list);
    out.append(" FROM (");
    out.append(child);
    out.append(") GROUP BY ");
    out.append(groups);
    out
}

fn join_query(list: &str, left: &str, right: &str, on: &str) -> (r: String)
    ensures
        r@ == "SELECT "@ + list@ + " FROM ("@ + left@ + ") AS l INNER JOIN ("@ + right@
            + ") AS r ON "@ + on@,
{
    let mut out = "SELECT ".to_owned();
    out.append(list);
    out.append(" FROM (");
    out.append(left);
    out.append(") AS l INNER JOIN (");
    out.append(right);
    out.append(") AS r ON ");
    out.append(on);
    out
}

/// The query of a scan.
fn scanned_query(scan: &InMemoryScan) -> (r: String)
    ensures
        r@ == "SELECT "@ + column_list(*scan.schema) + " FROM "@ + view_name(scan.source_id),
{
    let list = projection_list(&scan.schema);
    let view = source_view_name(scan.source_id);
    scan_query(list.as_str(), view.as_str())
}

/// The query of a filter, from that of its input.
fn filtered_query(f: &Filter, child: &str) -> (r: Result<String, DaftError>)
    requires
        expr_in_schema(*f.predicate, f.input.output()),
    ensures
        text_result(r) == match expr_sql(*f.predicate, f.input.output()) {
            Err(e) => Err(e),
            Ok(pred) => Ok(
                "SELECT "@ + column_list(*f.schema) + " FROM ("@ + child@ + ") WHERE "@ + pred,
            ),
        },
{
    let pred = expr_to_sql(&f.predicate, f.input.schema())?;
    let list = projection_list(&f.schema);
    Ok(filter_query(list.as_str(), child, pred.as_str()))
}

/// The query of a projection, from that of its input.
fn projected_query(p: &Project, child: &str) -> (r: Result<String, DaftError>)
    requires
        forall|i: int|
            0 <= i < project_items(*p).len() && reached(project_items(*p), i) ==> expr_in_schema(
                *(#[trigger] p.projection@[i]),
                p.input.output(),
            ),
    ensures
        text_result(r) == match collect(project_items(*p)) {
            Err(e) => Err(e),
            Ok(items) => Ok("SELECT "@ + join(items, ", "@) + " FROM ("@ + child@ + ")"@),
        },
{
    let select = project_select(p)?;
    Ok(nested_query(select.as_str(), child))
}

/// The query of an aggregate over all rows, from that of its input.
fn ungrouped_query(a: &UnGroupedAggregate, child: &str) -> (r: Result<String, DaftError>)
    requires
        aggs_in_schema(*a.schema, 0, a.aggregations@, a.input.output()),
    ensures
        text_result(r) == match aggregate_select_sql(
            *a.schema,
            Seq::empty(),
            a.aggregations@,
            a.input.output(),
        ) {
            Err(e) => Err(e),
            Ok(select) => Ok("SELECT "@ + select + " FROM ("@ + child@ + ")"@),
        },
{
    let groups: Vec<String> = Vec::new();
    assert(texts(groups@) =~= Seq::empty());
    let select = aggregate_select(&a.schema, &groups, &a.aggregations, a.input.schema())?;
    Ok(nested_query(select.as_str(), child))
}

/// The error for a join that is not an inner join.
fn unsupported_join(t: JoinType) -> (r: DaftError)
    ensures
        r@ == unsupported_node_view(join_type_name(t) + " join (inner only)"@),
{
    let mut node = join_type_text(t).to_owned();
    node.append(" join (inner only)");
    unsupported_node(node.as_str())
}

/// The query of a join, from those of its inputs.
fn joined_query(j: &HashJoin, left: &str, right: &str) -> (r: Result<String, DaftError>)
    requires
        join_keys_in_schema(*j),
    ensures
        text_result(r) == match collect(on_items(*j)) {
            Err(e) => Err(e),
            Ok(on) => Ok(
                "SELECT "@ + join(join_columns(*j), ", "@) + " FROM ("@ + left@
                    + ") AS l INNER JOIN ("@ + right@ + ") AS r ON "@ + join(on, " AND "@),
            ),
        },
{
    let select = join_select(j);
    let on = join_condition(j)?;
    Ok(join_query(select.as_str(), left, right, on.as_str()))
}

/// The query of a grouped aggregate, from that of its input.
fn aggregated_query(a: &HashAggregate, child: &str) -> (r: Result<String, DaftError>)
    requires
        forall|i: int|
            0 <= i < a.group_by@.len() && reached(group_items(*a), i) ==> expr_in_schema(
                *(#[trigger] a.group_by@[i]),
                a.input.output(),
            ),
        collect(group_items(*a)) is Ok ==> aggs_in_schema(
            *a.schema,
            a.group_by@.len(),
            a.aggregations@,
            a.input.output(),
        ),
    ensures
        text_result(r) == match collect(group_items(*a)) {
            Err(e) => Err(e),
            Ok(groups) => match aggregate_select_sql(
                *a.schema,
                groups,
                a.aggregations@,
                a.input.output(),
            ) {
                Err(e) => Err(e),
                Ok(select) => Ok(
                    "SELECT "@ + select + " FROM ("@ + child@ + ") GROUP BY "@ + join(
                        groups,
                        ", "@,
                    ),
                ),
            },
        },
{
    let groups = group_list(a)?;
    proof {
        collect_length(group_items(*a));
    }
    let select = aggregate_select(&a.schema, &groups, &a.aggregations, a.input.schema())?;
    let group_list = join_strings(&groups, ", ");
    Ok(grouped_query(select.as_str(), child, group_list.as_str()))
}

/// Translates a plan to SQL, and appends the sources it meets to `bindings`.
#[verifier::spinoff_prover]
fn walk(plan: &Arc<LocalPhysicalPlan>, bindings: &mut Vec<SourceId>) -> (r: Result<
    String,
    DaftError,
>)
    requires
        plan_in_schema(**plan),
    ensures
        text_result(r) == plan_sql(**plan),
        final(bindings)@ == old(bindings)@ + plan_sources(**plan),
    decreases **plan,
{
    match &**plan {
        LocalPhysicalPlan::InMemoryScan(scan) => {
            bindings.push(scan.source_id);
            assert(bindings@ =~= old(bindings)@ + plan_sources(**plan));
            Ok(scanned_query(scan))
        },
        LocalPhysicalPlan::Filter(f) => {
            let child = walk(&f.input, bindings)?;
            filtered_query(f, child.as_str())
        },
        LocalPhysicalPlan::Project(p) => {
            let child = walk(&p.input, bindings)?;
            projected_query(p, child.as_str())
        },
        LocalPhysicalPlan::HashJoin(j) => {
            if j.join_type != JoinType::Inner {
                assert(bindings@ =~= old(bindings)@ + plan_sources(**plan));
                return Err(unsupported_join(j.join_type));
            }
            let left = walk(&j.left, bindings)?;
            let right = match walk(&j.right, bindings) {
                Ok(s) => s,
                Err(e) => {
                    assert(bindings@ =~= old(bindings)@ + plan_sources(**plan));
                    return Err(e);
                },
            };
            assert(bindings@ =~= old(bindings)@ + plan_sources(**plan));
            joined_query(j, left.as_str(), right.as_str())
        },
        LocalPhysicalPlan::HashAggregate(a) => {
            let child = walk(&a.input, bindings)?;
            aggregated_query(a, child.as_str())
        },
        LocalPhysicalPlan::UnGroupedAggregate(a) => {
            let child = walk(&a.input, bindings)?;
            ungrouped_query(a, child.as_str())
        },
        LocalPhysicalPlan::Other(n) => {
            assert(bindings@ =~= old(bindings)@ + plan_sources(**plan));
            Err(unsupported_node(n.name.as_str()))
        },
    }
}

/// The translation of a plan together with its sources.
pub open spec fn sql_plan(plan: LocalPhysicalPlan) -> Result<(Seq<char>, Seq<SourceId>), ErrorView> {
    match plan_sql(plan) {
        Ok(sql) => Ok((sql, plan_sources(plan))),
        Err(e) => Err(e),
    }
}

/// The outcome of a translation, seen as text and sources.
pub open spec fn sql_plan_result(r: Result<SqlPlan, DaftError>) -> Result<
    (Seq<char>, Seq<SourceId>),
    ErrorView,
> {
    match r {
        Ok(p) => Ok(p.parts()),
        Err(e) => Err(e@),
    }
}

/// Translates a plan to one SQL query and lists the sources whose views the query reads.
pub fn plan_to_sql(plan: &Arc<LocalPhysicalPlan>) -> (r: Result<SqlPlan, DaftError>)
    requires
        plan_in_schema(**plan),
    ensures
        sql_plan_result(r) == sql_plan(**plan),
{
    let mut bindings: Vec<SourceId> = Vec::new();
    let sql = walk(plan, &mut bindings)?;
    assert(bindings@ =~= plan_sources(**plan));
    Ok(SqlPlan { sql, bindings })
}

/// The sources of all scans of a plan, left to right.
pub open spec fn all_scans(plan: LocalPhysicalPlan) -> Seq<SourceId>
    decreases plan,
{
    match plan {
        LocalPhysicalPlan::InMemoryScan(scan) => seq![scan.source_id],
        LocalPhysicalPlan::Filter(f) => all_scans(*f.input),
        LocalPhysicalPlan::Project(p) => all_scans(*p.input),
        LocalPhysicalPlan::HashJoin(j) => all_scans(*j.left) + all_scans(*j.right),
        LocalPhysicalPlan::HashAggregate(a) => all_scans(*a.input),
        LocalPhysicalPlan::UnGroupedAggregate(a) => all_scans(*a.input),
        LocalPhysicalPlan::Other(_) => Seq::empty(),
    }
}

/// The plan consists of supported nodes only.
pub open spec fn all_nodes_supported(plan: LocalPhysicalPlan) -> bool
    decreases plan,
{
    match plan {
        LocalPhysicalPlan::InMemoryScan(_) => true,
        LocalPhysicalPlan::Filter(f) => all_nodes_supported(*f.input),
        LocalPhysicalPlan::Project(p) => all_nodes_supported(*p.input),
        LocalPhysicalPlan::HashJoin(j) => j.join_type == JoinType::Inner && all_nodes_supported(
            *j.left,
        ) && all_nodes_supported(*j.right),
        LocalPhysicalPlan::HashAggregate(a) => all_nodes_supported(*a.input),
        LocalPhysicalPlan::UnGroupedAggregate(a) => all_nodes_supported(*a.input),
        LocalPhysicalPlan::Other(_) => false,
    }
}

/// The query of a plan reads the views of all its scans, and they are listed in the plan's order.
pub proof fn every_scan_is_bound(plan: Arc<LocalPhysicalPlan>)
    requires
        plan_sql(*plan) is Ok,
    ensures
        plan_sources(*plan) == all_scans(*plan),
    decreases *plan,
{
    match *plan {
        LocalPhysicalPlan::InMemoryScan(_) => {},
        LocalPhysicalPlan::Filter(f) => every_scan_is_bound(f.input),
        LocalPhysicalPlan::Project(p) => every_scan_is_bound(p.input),
        LocalPhysicalPlan::HashJoin(j) => {
            every_scan_is_bound(j.left);
            every_scan_is_bound(j.right);
        },
        LocalPhysicalPlan::HashAggregate(a) => every_scan_is_bound(a.input),
        LocalPhysicalPlan::UnGroupedAggregate(a) => every_scan_is_bound(a.input),
        LocalPhysicalPlan::Other(_) => {},
    }
}

/// A plan with an unsupported node anywhere is refused: there is no fallback.
pub proof fn unsupported_nodes_are_refused(plan: Arc<LocalPhysicalPlan>)
    ensures
        !all_nodes_supported(*plan) ==> plan_sql(*plan) is Err,
    decreases *plan,
{
    match *plan {
        LocalPhysicalPlan::InMemoryScan(_) => {},
        LocalPhysicalPlan::Filter(f) => unsupported_nodes_are_refused(f.input),
        LocalPhysicalPlan::Project(p) => unsupported_nodes_are_refused(p.input),
        LocalPhysicalPlan::HashJoin(j) => {
            unsupported_nodes_are_refused(j.left);
            unsupported_nodes_are_refused(j.right);
        },
        LocalPhysicalPlan::HashAggregate(a) => unsupported_nodes_are_refused(a.input),
        LocalPhysicalPlan::UnGroupedAggregate(a) => unsupported_nodes_are_refused(a.input),
        LocalPhysicalPlan::Other(_) => {},
    }
}

/// The query of a plan is a `SELECT`.
pub proof fn every_query_is_a_select(plan: LocalPhysicalPlan)
    requires
        plan_sql(plan) is Ok,
    ensures
        "SELECT "@.is_prefix_of(plan_sql(plan)->Ok_0),
{
    let prefix = "SELECT "@;
    let sql = plan_sql(plan)->Ok_0;
    assert(sql.take(prefix.len() as int) =~= prefix);
}

} // verus!
