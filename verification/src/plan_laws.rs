//! What the translation of a plan is for: read as SQL, it gives the table of the plan.
use std::sync::Arc;
use vstd::prelude::*;

use crate::error::ErrorView;
use crate::expr::{AggExpr, Column, CountMode, Expr};
use crate::expr_laws::{
    beginning_is_read, columns_exist, decimal_has_digits, ends_token, expr_begins, expr_is_read,
    has_plain_floats, is_plain_name, name_is_read, plain_names, read_of, span_stops, text_of,
    trees_agree,
};
use crate::expr_sql::{agg_sql, quoted};
use crate::local_plan::{
    HashAggregate, HashJoin, LocalPhysicalPlan, Project, SourceId, UnGroupedAggregate,
};
use crate::plan_meaning::{
    agg_row, aggregated, all_join_pairs, expr_row, expr_rows, join_keys_match, join_row,
    nulls_match, passing, plan_output, plan_table,
};
use crate::plan_sql::{
    agg_items, aliased, cast_to, cast_type, collect, group_columns, group_items, join_columns,
    key_predicate, on_items, plan_sql, project_items, quoted_names, side_column, view_name,
};
use crate::schema::{DataType, Schema};
use crate::sql_read::{
    all_pairs, all_somes, begins, behind, call_value, distinct, filtered, group_row, group_rows,
    has_call, in_word, item_names, item_row, item_rows, keyed_rows, keys_match, named_kind,
    named_value, pair_row, query_table, read_call, read_expr, read_exprs, read_item, read_items,
    read_key, read_keys, read_query, read_selected, read_tail, rows_match, rows_with, somes,
    sql_key, sql_keys, sql_value, sql_values, Selected, SqlCall, SqlExpr, SqlItem, SqlKey, SqlQuery,
    Table,
};
use crate::sql_value::{agg_value, converted, expr_value, expr_values, kind_of, Value};
use crate::text::{decimal, join};

verus! {

pub(crate) proof fn collected_items(items: Seq<Result<Seq<char>, ErrorView>>)
    requires
        collect(items) is Ok,
    ensures
        collect(items)->Ok_0.len() == items.len(),
        forall|i: int|
            0 <= i < items.len() ==> #[trigger] items[i] == Ok::<Seq<char>, ErrorView>(
                collect(items)->Ok_0[i],
            ),
    decreases items.len(),
{
    if items.len() > 0 {
        collected_items(items.drop_last());
        assert forall|i: int| 0 <= i < items.len() implies #[trigger] items[i] == Ok::<
            Seq<char>,
            ErrorView,
        >(collect(items)->Ok_0[i]) by {
            if i < items.len() - 1 {
                assert(items.drop_last()[i] == items[i]);
            }
        }
    }
}

/// A joined list begins with its first item.
proof fn join_front(items: Seq<Seq<char>>, sep: Seq<char>)
    requires
        items.len() >= 2,
    ensures
        join(items, sep) == items[0] + (sep + join(items.drop_first(), sep)),
    decreases items.len(),
{
    let tail = items.drop_first();
    if items.len() == 2 {
        assert(items.drop_last() =~= seq![items[0]]);
        assert(join(items.drop_last(), sep) == items[0]);
        assert(items.last() == items[1]);
        assert(join(items, sep) =~= items[0] + (sep + items[1]));
        assert(tail =~= seq![items[1]]);
    } else {
        join_front(items.drop_last(), sep);
        assert(items.drop_last().drop_first() =~= tail.drop_last());
        assert(tail.last() == items.last());
        assert(join(items, sep) =~= items[0] + (sep + join(tail, sep)));
    }
}

/// What follows an item of a select list.
spec fn item_ends(rest: Seq<char>) -> bool {
    rest.len() > 0 && (rest[0] == ',' || begins(rest, " FROM "@))
}

/// The text is read as the item.
#[verifier::opaque]
spec fn reads_item(text: Seq<char>, item: SqlItem) -> bool {
    &&& text.len() > 0
    &&& forall|rest: Seq<char>|
        item_ends(rest) ==> #[trigger] read_item(text + rest) == Some((item, rest))
}

proof fn from_ends_item(rest: Seq<char>)
    requires
        begins(rest, " FROM "@),
    ensures
        item_ends(rest),
        rest.len() >= 6,
        rest[0] == ' ',
        rest[1] == 'F',
{
    reveal_strlit(" FROM ");
    assert(rest.take(6)[0] == ' ');
    assert(rest.take(6)[1] == 'F');
}

proof fn use_item(text: Seq<char>, item: SqlItem, rest: Seq<char>)
    requires
        reads_item(text, item),
        item_ends(rest),
    ensures
        text.len() > 0,
        read_item(text + rest) == Some((item, rest)),
{
    reveal(reads_item);
}

proof fn last_item_is_read(text: Seq<char>, item: SqlItem, rest: Seq<char>)
    requires
        read_item(text + rest) == Some((item, rest)),
        rest.len() == 0 || rest[0] != ',',
    ensures
        read_items(text + rest) == Some((seq![item], rest)),
{
    reveal_strlit(", ");
    if begins(rest, ", "@) {
        assert(rest.take(2)[0] == ',');
    }
}

proof fn first_item_is_read(
    text: Seq<char>,
    item: SqlItem,
    more: Seq<char>,
    others: Seq<SqlItem>,
    rest: Seq<char>,
)
    requires
        text.len() > 0,
        read_item(text + (", "@ + more)) == Some((item, ", "@ + more)),
        read_items(more) == Some((others, rest)),
    ensures
        read_items(text + (", "@ + more)) == Some((seq![item] + others, rest)),
{
    beginning_is_read(", "@, more);
}

/// A select list is read item by item.
proof fn items_are_read(texts: Seq<Seq<char>>, items: Seq<SqlItem>, rest: Seq<char>)
    requires
        texts.len() == items.len() > 0,
        forall|i: int| 0 <= i < texts.len() ==> reads_item(#[trigger] texts[i], items[i]),
        begins(rest, " FROM "@),
    ensures
        read_items(join(texts, ", "@) + rest) == Some((items, rest)),
    decreases texts.len(),
{
    from_ends_item(rest);
    if texts.len() == 1 {
        use_item(texts[0], items[0], rest);
        last_item_is_read(texts[0], items[0], rest);
        assert(seq![items[0]] =~= items);
    } else {
        let tail = texts.drop_first();
        let others = items.drop_first();
        let more = join(tail, ", "@) + rest;
        join_front(texts, ", "@);
        assert forall|i: int| 0 <= i < tail.len() implies reads_item(
            #[trigger] tail[i],
            others[i],
        ) by {
            assert(reads_item(texts[i + 1], items[i + 1]));
        }
        items_are_read(tail, others, rest);
        assert(join(texts, ", "@) + rest =~= texts[0] + (", "@ + more));
        assert(item_ends(", "@ + more)) by {
            reveal_strlit(", ");
        }
        use_item(texts[0], items[0], ", "@ + more);
        first_item_is_read(texts[0], items[0], more, others, rest);
        assert(seq![items[0]] + others =~= items);
    }
}

/// The text is read as the expression.
#[verifier::opaque]
spec fn reads_expr(text: Seq<char>, e: SqlExpr) -> bool {
    &&& text.len() > 0
    &&& forall|rest: Seq<char>|
        ends_token(rest) ==> #[trigger] read_expr(text + rest) == Some((e, rest))
}

/// What follows a query.
pub open spec fn query_ends(rest: Seq<char>) -> bool {
    rest.len() == 0 || rest[0] == ')'
}

proof fn use_expr(text: Seq<char>, e: SqlExpr, rest: Seq<char>)
    requires
        reads_expr(text, e),
        ends_token(rest),
    ensures
        text.len() > 0,
        read_expr(text + rest) == Some((e, rest)),
{
    reveal(reads_expr);
}

proof fn last_expr_is_read(text: Seq<char>, e: SqlExpr, rest: Seq<char>)
    requires
        read_expr(text + rest) == Some((e, rest)),
        rest.len() == 0 || rest[0] != ',',
    ensures
        read_exprs(text + rest) == Some((seq![e], rest)),
{
    reveal_strlit(", ");
    if begins(rest, ", "@) {
        assert(rest.take(2)[0] == ',');
    }
}

proof fn first_expr_is_read(
    text: Seq<char>,
    e: SqlExpr,
    more: Seq<char>,
    others: Seq<SqlExpr>,
    rest: Seq<char>,
)
    requires
        text.len() > 0,
        read_expr(text + (", "@ + more)) == Some((e, ", "@ + more)),
        read_exprs(more) == Some((others, rest)),
    ensures
        read_exprs(text + (", "@ + more)) == Some((seq![e] + others, rest)),
{
    beginning_is_read(", "@, more);
}

/// A list of expressions is read one by one.
proof fn exprs_are_read(texts: Seq<Seq<char>>, exprs: Seq<SqlExpr>, rest: Seq<char>)
    requires
        texts.len() == exprs.len() > 0,
        forall|i: int| 0 <= i < texts.len() ==> reads_expr(#[trigger] texts[i], exprs[i]),
        query_ends(rest),
    ensures
        read_exprs(join(texts, ", "@) + rest) == Some((exprs, rest)),
    decreases texts.len(),
{
    if texts.len() == 1 {
        use_expr(texts[0], exprs[0], rest);
        last_expr_is_read(texts[0], exprs[0], rest);
        assert(seq![exprs[0]] =~= exprs);
    } else {
        let tail = texts.drop_first();
        let others = exprs.drop_first();
        let more = join(tail, ", "@) + rest;
        join_front(texts, ", "@);
        assert forall|i: int| 0 <= i < tail.len() implies reads_expr(
            #[trigger] tail[i],
            others[i],
        ) by {
            assert(reads_expr(texts[i + 1], exprs[i + 1]));
        }
        exprs_are_read(tail, others, rest);
        assert(join(texts, ", "@) + rest =~= texts[0] + (", "@ + more));
        assert(ends_token(", "@ + more)) by {
            reveal_strlit(", ");
        }
        use_expr(texts[0], exprs[0], ", "@ + more);
        first_expr_is_read(texts[0], exprs[0], more, others, rest);
        assert(seq![exprs[0]] + others =~= exprs);
    }
}

/// The text is read as the key.
#[verifier::opaque]
spec fn reads_key(text: Seq<char>, key: SqlKey) -> bool {
    &&& text.len() > 0
    &&& forall|rest: Seq<char>| #[trigger] read_key(text + rest) == Some((key, rest))
}

proof fn use_key(text: Seq<char>, key: SqlKey, rest: Seq<char>)
    requires
        reads_key(text, key),
    ensures
        text.len() > 0,
        read_key(text + rest) == Some((key, rest)),
{
    reveal(reads_key);
}

proof fn last_key_is_read(text: Seq<char>, key: SqlKey, rest: Seq<char>)
    requires
        read_key(text + rest) == Some((key, rest)),
        rest.len() == 0 || rest[0] != ' ',
    ensures
        read_keys(text + rest) == Some((seq![key], rest)),
{
    reveal_strlit(" AND ");
    if begins(rest, " AND "@) {
        assert(rest.take(5)[0] == ' ');
    }
}

proof fn first_key_is_read(
    text: Seq<char>,
    key: SqlKey,
    more: Seq<char>,
    others: Seq<SqlKey>,
    rest: Seq<char>,
)
    requires
        text.len() > 0,
        read_key(text + (" AND "@ + more)) == Some((key, " AND "@ + more)),
        read_keys(more) == Some((others, rest)),
    ensures
        read_keys(text + (" AND "@ + more)) == Some((seq![key] + others, rest)),
{
    beginning_is_read(" AND "@, more);
}

/// A conjunction of keys is read one by one.
proof fn keys_are_read(texts: Seq<Seq<char>>, keys: Seq<SqlKey>, rest: Seq<char>)
    requires
        texts.len() == keys.len() > 0,
        forall|i: int| 0 <= i < texts.len() ==> reads_key(#[trigger] texts[i], keys[i]),
        query_ends(rest),
    ensures
        read_keys(join(texts, " AND "@) + rest) == Some((keys, rest)),
    decreases texts.len(),
{
    if texts.len() == 1 {
        use_key(texts[0], keys[0], rest);
        last_key_is_read(texts[0], keys[0], rest);
        assert(seq![keys[0]] =~= keys);
    } else {
        let tail = texts.drop_first();
        let others = keys.drop_first();
        let more = join(tail, " AND "@) + rest;
        join_front(texts, " AND "@);
        assert forall|i: int| 0 <= i < tail.len() implies reads_key(
            #[trigger] tail[i],
            others[i],
        ) by {
            assert(reads_key(texts[i + 1], keys[i + 1]));
        }
        keys_are_read(tail, others, rest);
        assert(join(texts, " AND "@) + rest =~= texts[0] + (" AND "@ + more));
        use_key(texts[0], keys[0], " AND "@ + more);
        first_key_is_read(texts[0], keys[0], more, others, rest);
        assert(seq![keys[0]] + others =~= keys);
    }
}

/// A text that begins like an expression is selected as one.
proof fn plain_is_selected(s: Seq<char>, e: SqlExpr, rest: Seq<char>)
    requires
        s.len() > 0,
        s[0] != 'l' && s[0] != 'r' && s[0] != 'C' && s[0] != 'S' && s[0] != 'M' && s[0] != 'A',
        read_expr(s) == Some((e, rest)),
    ensures
        read_selected(s) == Some((Selected::Plain(e), rest)),
{
    reveal_strlit("l.");
    reveal_strlit("r.");
    reveal_strlit("CAST(");
    if begins(s, "l."@) {
        assert(s.take(2)[0] == 'l');
    }
    if begins(s, "r."@) {
        assert(s.take(2)[0] == 'r');
    }
    if begins(s, "CAST("@) {
        assert(s.take(5)[0] == 'C');
    }
}

proof fn item_end_is_no_alias(rest: Seq<char>)
    requires
        item_ends(rest),
    ensures
        !begins(rest, " AS "@),
        ends_token(rest),
{
    reveal_strlit(" AS ");
    if begins(rest, " AS "@) {
        assert(rest.take(4)[0] == ' ');
        assert(rest.take(4)[1] == 'A');
    }
    if begins(rest, " FROM "@) {
        from_ends_item(rest);
    }
}

/// A quoted name is an item under its own name.
proof fn column_is_an_item(name: Seq<char>)
    requires
        is_plain_name(name),
    ensures
        reads_item(
            quoted(name),
            SqlItem { value: Selected::Plain(SqlExpr::Column(name)), name },
        ),
{
    let item = SqlItem { value: Selected::Plain(SqlExpr::Column(name)), name };
    reveal(reads_item);
    assert forall|rest: Seq<char>| item_ends(rest) implies #[trigger] read_item(
        quoted(name) + rest,
    ) == Some((item, rest)) by {
        name_is_read(name, rest);
        plain_is_selected(quoted(name) + rest, SqlExpr::Column(name), rest);
        item_end_is_no_alias(rest);
    }
    name_is_read(name, Seq::empty());
}

/// A value with a name is an item under that name.
proof fn alias_is_read(value: Seq<char>, name: Seq<char>, selected: Selected, rest: Seq<char>)
    requires
        is_plain_name(name),
        ({
            let end = " AS "@ + (quoted(name) + rest);
            read_selected(value + end) == Some((selected, end))
        }),
    ensures
        read_item(aliased(value, name) + rest) == Some((SqlItem { value: selected, name }, rest)),
{
    let end = " AS "@ + (quoted(name) + rest);
    assert(aliased(value, name) + rest =~= value + end);
    beginning_is_read(" AS "@, quoted(name) + rest);
    name_is_read(name, rest);
}

proof fn alias_ends_token(name: Seq<char>, rest: Seq<char>)
    ensures
        ends_token(" AS "@ + (quoted(name) + rest)),
{
    reveal_strlit(" AS ");
}

/// An expression with a name is an item under that name.
proof fn aliased_expr_is_an_item(e: Arc<Expr>, schema: Schema, name: Seq<char>)
    requires
        text_of(e, schema) is Ok,
        columns_exist(*e, schema.width()),
        has_plain_floats(*e),
        plain_names(schema.names()),
        is_plain_name(name),
    ensures
        reads_item(
            aliased(text_of(e, schema)->Ok_0, name),
            SqlItem { value: Selected::Plain(read_of(e, schema)), name },
        ),
{
    let t = text_of(e, schema)->Ok_0;
    let item = SqlItem { value: Selected::Plain(read_of(e, schema)), name };
    reveal(reads_item);
    assert forall|rest: Seq<char>| item_ends(rest) implies #[trigger] read_item(
        aliased(t, name) + rest,
    ) == Some((item, rest)) by {
        let end = " AS "@ + (quoted(name) + rest);
        alias_ends_token(name, rest);
        expr_is_read(e, schema, end);
        expr_begins(e, schema, end);
        plain_is_selected(t + end, read_of(e, schema), end);
        alias_is_read(t, name, item.value, rest);
    }
    expr_begins(e, schema, Seq::empty());
}

proof fn expr_is_in_list(e: Arc<Expr>, schema: Schema)
    requires
        text_of(e, schema) is Ok,
        columns_exist(*e, schema.width()),
        has_plain_floats(*e),
        plain_names(schema.names()),
    ensures
        reads_expr(text_of(e, schema)->Ok_0, read_of(e, schema)),
{
    let t = text_of(e, schema)->Ok_0;
    reveal(reads_expr);
    assert forall|rest: Seq<char>| ends_token(rest) implies #[trigger] read_expr(t + rest) == Some(
        (read_of(e, schema), rest),
    ) by {
        expr_is_read(e, schema, rest);
    }
    expr_begins(e, schema, Seq::empty());
}

/// A column of one side is an item under its own name.
proof fn side_is_an_item(left: bool, name: Seq<char>)
    requires
        is_plain_name(name),
    ensures
        reads_item(
            side_column(
                if left {
                    "l."@
                } else {
                    "r."@
                },
                name,
            ),
            SqlItem { value: Selected::Side(left, name), name },
        ),
{
    reveal_strlit("l.");
    reveal_strlit("r.");
    let side = if left {
        "l."@
    } else {
        "r."@
    };
    let text = side_column(side, name);
    let item = SqlItem { value: Selected::Side(left, name), name };
    reveal(reads_item);
    assert forall|rest: Seq<char>| item_ends(rest) implies #[trigger] read_item(text + rest)
        == Some((item, rest)) by {
        let end = " AS "@ + (quoted(name) + rest);
        let value = side + quoted(name);
        assert(text =~= aliased(value, name));
        assert(value + end =~= side + (quoted(name) + end));
        beginning_is_read(side, quoted(name) + end);
        name_is_read(name, end);
        if !left {
            if begins(value + end, "l."@) {
                assert((value + end).take(2)[0] == 'l');
                assert((value + end)[0] == 'r');
            }
        }
        alias_is_read(value, name, item.value, rest);
    }
}

/// A join key is read back.
proof fn predicate_is_a_key(left: Seq<char>, right: Seq<char>, null_safe: bool)
    requires
        is_plain_name(left),
        is_plain_name(right),
    ensures
        reads_key(
            key_predicate(quoted(left), quoted(right), null_safe),
            SqlKey { left, right, null_safe },
        ),
{
    reveal_strlit("l.");
    reveal_strlit(" = r.");
    reveal_strlit(" IS NOT DISTINCT FROM r.");
    let text = key_predicate(quoted(left), quoted(right), null_safe);
    let key = SqlKey { left, right, null_safe };
    let middle = if null_safe {
        " IS NOT DISTINCT FROM r."@
    } else {
        " = r."@
    };
    reveal(reads_key);
    assert forall|rest: Seq<char>| #[trigger] read_key(text + rest) == Some((key, rest)) by {
        let end = quoted(right) + rest;
        assert(text + rest =~= "l."@ + (quoted(left) + (middle + end)));
        beginning_is_read("l."@, quoted(left) + (middle + end));
        name_is_read(left, middle + end);
        beginning_is_read(middle, end);
        name_is_read(right, rest);
        if null_safe {
            let all = middle + end;
            if begins(all, " = r."@) {
                assert(all.take(5)[1] == '=');
                assert(all[1] == 'I');
            }
        }
    }
}

/// The expression that an aggregation is on, where it is on one.
pub open spec fn agg_arg(agg: AggExpr) -> Option<Arc<Expr>> {
    match agg {
        AggExpr::Count(_, CountMode::All) => None,
        AggExpr::Count(e, _) => Some(e),
        AggExpr::Sum(e) => Some(e),
        AggExpr::Min(e) => Some(e),
        AggExpr::Max(e) => Some(e),
        AggExpr::Mean(e) => Some(e),
        AggExpr::Other(_) => None,
    }
}

/// The columns of the aggregation exist, and its floats are numerals.
pub open spec fn is_sound_agg(agg: AggExpr, width: nat) -> bool {
    agg_arg(agg) matches Some(e) ==> columns_exist(*e, width) && has_plain_floats(*e)
}

/// The function that an aggregation is translated to.
spec fn func_of(agg: AggExpr) -> Seq<char> {
    match agg {
        AggExpr::Count(_, _) => "COUNT"@,
        AggExpr::Sum(_) => "SUM"@,
        AggExpr::Min(_) => "MIN"@,
        AggExpr::Max(_) => "MAX"@,
        AggExpr::Mean(_) => "AVG"@,
        AggExpr::Other(_) => Seq::empty(),
    }
}

/// What the translation of an aggregation is read as.
spec fn call_of(agg: AggExpr, schema: Schema) -> SqlCall {
    SqlCall {
        func: func_of(agg),
        arg: match agg_arg(agg) {
            Some(e) => Some(read_of(e, schema)),
            None => None,
        },
    }
}

proof fn reveal_functions()
    ensures
        "COUNT"@.len() == 5 && "COUNT"@[0] == 'C' && "COUNT"@[1] == 'O',
        "SUM"@.len() == 3 && "SUM"@[0] == 'S',
        "MIN"@.len() == 3 && "MIN"@[0] == 'M' && "MIN"@[1] == 'I',
        "MAX"@.len() == 3 && "MAX"@[0] == 'M' && "MAX"@[1] == 'A',
        "AVG"@.len() == 3 && "AVG"@[0] == 'A',
        forall|k: int| 0 <= k < 5 ==> in_word()(#[trigger] "COUNT"@[k]),
        forall|k: int| 0 <= k < 3 ==> in_word()(#[trigger] "SUM"@[k]),
        forall|k: int| 0 <= k < 3 ==> in_word()(#[trigger] "MIN"@[k]),
        forall|k: int| 0 <= k < 3 ==> in_word()(#[trigger] "MAX"@[k]),
        forall|k: int| 0 <= k < 3 ==> in_word()(#[trigger] "AVG"@[k]),
{
    reveal_strlit("COUNT");
    reveal_strlit("SUM");
    reveal_strlit("MIN");
    reveal_strlit("MAX");
    reveal_strlit("AVG");
}

/// The call of a function on an expression is read back.
proof fn call_on_expr_is_read(func: Seq<char>, e: Arc<Expr>, schema: Schema, rest: Seq<char>)
    requires
        text_of(e, schema) is Ok,
        columns_exist(*e, schema.width()),
        has_plain_floats(*e),
        plain_names(schema.names()),
        forall|k: int| 0 <= k < func.len() ==> in_word()(#[trigger] func[k]),
    ensures
        read_call(func + "("@ + text_of(e, schema)->Ok_0 + ")"@ + rest) == Some(
            (SqlCall { func, arg: Some(read_of(e, schema)) }, rest),
        ),
{
    let t = text_of(e, schema)->Ok_0;
    let end = ")"@ + rest;
    let more = "("@ + (t + end);
    let all = func + "("@ + t + ")"@ + rest;
    reveal_strlit("(");
    reveal_strlit("(*)");
    assert(all =~= func + more);
    span_stops(func, more, in_word());
    assert(all.take(func.len() as int) =~= func);
    assert(all.skip(func.len() as int) =~= more);
    assert(ends_token(end)) by {
        reveal_strlit(")");
    }
    expr_is_read(e, schema, end);
    expr_begins(e, schema, end);
    beginning_is_read("("@, t + end);
    beginning_is_read(")"@, rest);
    if begins(more, "(*)"@) {
        assert(more.take(3)[1] == '*');
        assert(more[1] == (t + end)[0]);
    }
}

proof fn count_of_rows_is_read(rest: Seq<char>)
    ensures
        read_call("COUNT(*)"@ + rest) == Some((SqlCall { func: "COUNT"@, arg: None }, rest)),
{
    reveal_functions();
    reveal_strlit("COUNT");
    reveal_strlit("(*)");
    reveal_strlit("COUNT(*)");
    let more = "(*)"@ + rest;
    let all = "COUNT(*)"@ + rest;
    assert(all =~= "COUNT"@ + more);
    span_stops("COUNT"@, more, in_word());
    assert(all.take(5) =~= "COUNT"@);
    assert(all.skip(5) =~= more);
    beginning_is_read("(*)"@, rest);
}

/// The translation of an aggregation is read back.
proof fn call_is_read(agg: AggExpr, schema: Schema, rest: Seq<char>)
    requires
        agg_sql(agg, schema) is Ok,
        is_sound_agg(agg, schema.width()),
        plain_names(schema.names()),
    ensures
        read_call(agg_sql(agg, schema)->Ok_0 + rest) == Some((call_of(agg, schema), rest)),
        ({
            let all = agg_sql(agg, schema)->Ok_0 + rest;
            &&& agg_sql(agg, schema)->Ok_0.len() > 1
            &&& all[0] == 'C' && all[1] == 'O' || all[0] == 'S' || all[0] == 'M' || all[0] == 'A'
        }),
{
    reveal_functions();
    match agg {
        AggExpr::Count(_, CountMode::All) => {
            reveal_strlit("COUNT(*)");
            count_of_rows_is_read(rest);
        },
        _ => {
            match agg_arg(agg) {
                Some(e) => {
                    let t = text_of(e, schema)->Ok_0;
                    assert(agg_sql(agg, schema)->Ok_0 == func_of(agg) + "("@ + t + ")"@);
                    call_on_expr_is_read(func_of(agg), e, schema, rest);
                },
                None => {},
            }
        },
    }
}

/// What is read of an aggregation gives what the aggregation gives, for all rows.
proof fn call_keeps_value(agg: AggExpr, schema: Schema, rows: Seq<Seq<Value>>)
    requires
        agg_sql(agg, schema) is Ok,
        is_sound_agg(agg, schema.width()),
        plain_names(schema.names()),
        forall|i: int| 0 <= i < rows.len() ==> (#[trigger] rows[i]).len() == schema.width(),
    ensures
        call_value(call_of(agg, schema), schema.names(), rows) == agg_value(agg, rows),
{
    reveal_functions();
    match agg_arg(agg) {
        Some(e) => {
            trees_agree(e, schema);
            assert(sql_values(read_of(e, schema), schema.names(), rows) =~= expr_values(e, rows))
                by {
                assert forall|i: int| 0 <= i < rows.len() implies sql_value(
                    read_of(e, schema),
                    schema.names(),
                    rows[i],
                ) == expr_values(e, rows)[i] by {
                    assert(rows[i].len() == schema.names().len());
                }
            }
        },
        None => {},
    }
}

/// Read as SQL, the translation of an aggregation gives for all rows what the aggregation gives.
pub proof fn translated_aggregations_keep_their_value(
    agg: AggExpr,
    schema: Schema,
    rest: Seq<char>,
    rows: Seq<Seq<Value>>,
) -> (read: SqlCall)
    requires
        agg_sql(agg, schema) is Ok,
        is_sound_agg(agg, schema.width()),
        plain_names(schema.names()),
        forall|i: int| 0 <= i < rows.len() ==> (#[trigger] rows[i]).len() == schema.width(),
    ensures
        read_call(agg_sql(agg, schema)->Ok_0 + rest) == Some((read, rest)),
        call_value(read, schema.names(), rows) == agg_value(agg, rows),
{
    call_is_read(agg, schema, rest);
    call_keeps_value(agg, schema, rows);
    call_of(agg, schema)
}

/// The type that an aggregation is cast to is that of its column, where the column's type has a name in
/// SQL; else it is not cast.
pub proof fn casts_name_the_type(dtype: DataType)
    ensures
        match cast_type(dtype) {
            Some(word) => kind_of(dtype) is Some && named_kind(word) == kind_of(dtype),
            None => kind_of(dtype) is None,
        },
{
    reveal_types();
}

proof fn reveal_types()
    ensures
        "TINYINT"@.len() == 7 && "TINYINT"@[0] == 'T',
        "SMALLINT"@.len() == 8 && "SMALLINT"@[0] == 'S',
        "INTEGER"@.len() == 7 && "INTEGER"@[0] == 'I',
        "BIGINT"@.len() == 6 && "BIGINT"@[0] == 'B',
        "UTINYINT"@.len() == 8 && "UTINYINT"@[0] == 'U',
        "USMALLINT"@.len() == 9,
        "UINTEGER"@.len() == 8 && "UINTEGER"@[0] == 'U' && "UINTEGER"@[1] == 'I',
        "UTINYINT"@[1] == 'T',
        "UBIGINT"@.len() == 7 && "UBIGINT"@[0] == 'U',
        "FLOAT"@.len() == 5,
        "DOUBLE"@.len() == 6 && "DOUBLE"@[0] == 'D',
        "VARCHAR"@.len() == 7 && "VARCHAR"@[0] == 'V',
{
    reveal_strlit("TINYINT");
    reveal_strlit("SMALLINT");
    reveal_strlit("INTEGER");
    reveal_strlit("BIGINT");
    reveal_strlit("UTINYINT");
    reveal_strlit("USMALLINT");
    reveal_strlit("UINTEGER");
    reveal_strlit("UBIGINT");
    reveal_strlit("FLOAT");
    reveal_strlit("DOUBLE");
    reveal_strlit("VARCHAR");
}

proof fn types_are_words(dtype: DataType)
    requires
        cast_type(dtype) is Some,
    ensures
        forall|k: int| 0 <= k < cast_type(dtype)->0.len() ==> in_word()(
            #[trigger] cast_type(dtype)->0[k],
        ),
{
    reveal_strlit("TINYINT");
    reveal_strlit("SMALLINT");
    reveal_strlit("INTEGER");
    reveal_strlit("BIGINT");
    reveal_strlit("UTINYINT");
    reveal_strlit("USMALLINT");
    reveal_strlit("UINTEGER");
    reveal_strlit("UBIGINT");
    reveal_strlit("FLOAT");
    reveal_strlit("DOUBLE");
    reveal_strlit("VARCHAR");
}

/// An aggregation with a cast and a name is an item under that name.
proof fn aliased_agg_is_an_item(agg: AggExpr, schema: Schema, dtype: DataType, name: Seq<char>)
    requires
        agg_sql(agg, schema) is Ok,
        is_sound_agg(agg, schema.width()),
        plain_names(schema.names()),
        is_plain_name(name),
    ensures
        reads_item(
            aliased(cast_to(agg_sql(agg, schema)->Ok_0, dtype), name),
            SqlItem { value: Selected::Call(call_of(agg, schema), kind_of(dtype)), name },
        ),
{
    let t = agg_sql(agg, schema)->Ok_0;
    let value = cast_to(t, dtype);
    let selected = Selected::Call(call_of(agg, schema), kind_of(dtype));
    let item = SqlItem { value: selected, name };
    reveal(reads_item);
    casts_name_the_type(dtype);
    assert forall|rest: Seq<char>| item_ends(rest) implies #[trigger] read_item(
        aliased(value, name) + rest,
    ) == Some((item, rest)) by {
        let end = " AS "@ + (quoted(name) + rest);
        cast_is_selected(agg, schema, dtype, end);
        alias_is_read(value, name, selected, rest);
    }
    call_is_read(agg, schema, Seq::empty());
}

#[verifier::rlimit(60)]
proof fn cast_is_selected(agg: AggExpr, schema: Schema, dtype: DataType, end: Seq<char>)
    requires
        agg_sql(agg, schema) is Ok,
        is_sound_agg(agg, schema.width()),
        plain_names(schema.names()),
    ensures
        read_selected(cast_to(agg_sql(agg, schema)->Ok_0, dtype) + end) == Some(
            (Selected::Call(call_of(agg, schema), kind_of(dtype)), end),
        ),
{
    let t = agg_sql(agg, schema)->Ok_0;
    casts_name_the_type(dtype);
    reveal_strlit("l.");
    reveal_strlit("r.");
    reveal_strlit("CAST(");
    match cast_type(dtype) {
        Some(word) => {
            types_are_words(dtype);
            let last = ")"@ + end;
            let after_call = " AS "@ + (word + last);
            let all = cast_to(t, dtype) + end;
            assert(all =~= "CAST("@ + (t + after_call));
            beginning_is_read("CAST("@, t + after_call);
            call_is_read(agg, schema, after_call);
            beginning_is_read(" AS "@, word + last);
            assert(last.len() > 0 && last[0] == ')') by {
                reveal_strlit(")");
            }
            span_stops(word, last, in_word());
            assert((word + last).take(word.len() as int) =~= word);
            assert((word + last).skip(word.len() as int) =~= last);
            beginning_is_read(")"@, end);
            assert(all[0] == 'C');
            if begins(all, "l."@) {
                assert(all.take(2)[0] == 'l');
            }
            if begins(all, "r."@) {
                assert(all.take(2)[0] == 'r');
            }
        },
        None => {
            let all = t + end;
            call_is_read(agg, schema, end);
            if begins(all, "l."@) {
                assert(all.take(2)[0] == 'l');
            }
            if begins(all, "r."@) {
                assert(all.take(2)[0] == 'r');
            }
            if begins(all, "CAST("@) {
                assert(all.take(5)[0] == 'C');
                assert(all.take(5)[1] == 'A');
            }
        },
    }
}

/// A schema whose columns can be told apart and read back; there is at least one.
pub open spec fn is_plain_schema(schema: Schema) -> bool {
    schema.width() > 0 && plain_names(schema.names())
}

/// The expression is a bound column that exists.
pub open spec fn is_bound_column(e: Expr, width: nat) -> bool {
    e matches Expr::Column(Column::Bound(c)) && c.index < width
}

/// The expression reads columns that exist, and its floats are numerals.
pub open spec fn is_sound_expr(e: Expr, width: nat) -> bool {
    columns_exist(e, width) && has_plain_floats(e)
}

/// The plan fits together: its schemas are plain, the columns that it reads exist, there is a column for
/// every expression, a filter keeps the columns of its input, the keys of a join are columns, of which
/// there is one, and so is every group.
pub open spec fn is_sound(plan: LocalPhysicalPlan) -> bool
    decreases plan,
{
    match plan {
        LocalPhysicalPlan::InMemoryScan(scan) => is_plain_schema(*scan.schema),
        LocalPhysicalPlan::Filter(f) => {
            &&& is_sound(*f.input)
            &&& is_plain_schema(*f.schema)
            &&& f.schema.names() == f.input.output().names()
            &&& is_sound_expr(*f.predicate, f.input.output().width())
        },
        LocalPhysicalPlan::Project(p) => {
            &&& is_sound(*p.input)
            &&& is_plain_schema(*p.schema)
            &&& p.projection@.len() == p.schema.width()
            &&& forall|i: int|
                0 <= i < p.projection@.len() ==> is_sound_expr(
                    *(#[trigger] p.projection@[i]),
                    p.input.output().width(),
                )
        },
        LocalPhysicalPlan::HashJoin(j) => {
            &&& is_sound(*j.left)
            &&& is_sound(*j.right)
            &&& is_plain_schema(*j.schema)
            &&& j.left_on@.len() == j.right_on@.len()
            &&& j.left_on@.len() > 0
            &&& forall|i: int|
                0 <= i < j.left_on@.len() ==> is_bound_column(
                    *(#[trigger] j.left_on@[i]),
                    j.left.output().width(),
                )
            &&& forall|i: int|
                0 <= i < j.right_on@.len() ==> is_bound_column(
                    *(#[trigger] j.right_on@[i]),
                    j.right.output().width(),
                )
            &&& forall|c: int|
                0 <= c < j.schema.width() ==> {
                    let name = #[trigger] j.schema.names()[c];
                    j.left.output().names().contains(name) || j.right.output().names().contains(
                        name,
                    )
                }
        },
        LocalPhysicalPlan::HashAggregate(a) => {
            &&& is_sound(*a.input)
            &&& is_plain_schema(*a.schema)
            &&& a.group_by@.len() > 0
            &&& forall|i: int|
                0 <= i < a.group_by@.len() ==> is_sound_expr(
                    *(#[trigger] a.group_by@[i]),
                    a.input.output().width(),
                )
            &&& forall|k: int|
                0 <= k < a.aggregations@.len() ==> is_sound_agg(
                    #[trigger] a.aggregations@[k],
                    a.input.output().width(),
                )
        },
        LocalPhysicalPlan::UnGroupedAggregate(a) => {
            &&& is_sound(*a.input)
            &&& is_plain_schema(*a.schema)
            &&& forall|k: int|
                0 <= k < a.aggregations@.len() ==> is_sound_agg(
                    #[trigger] a.aggregations@[k],
                    a.input.output().width(),
                )
        },
        LocalPhysicalPlan::Other(_) => false,
    }
}

/// The columns of a schema as items.
spec fn name_items(schema: Schema) -> Seq<SqlItem> {
    Seq::new(
        schema.width(),
        |c: int|
            SqlItem {
                value: Selected::Plain(SqlExpr::Column(schema.name_at(c))),
                name: schema.name_at(c),
            },
    )
}

/// Expressions as items, under the names of the columns.
spec fn expr_items(exprs: Seq<Arc<Expr>>, input: Schema, out: Schema) -> Seq<SqlItem> {
    Seq::new(
        exprs.len(),
        |i: int|
            SqlItem { value: Selected::Plain(read_of(exprs[i], input)), name: out.name_at(i) },
    )
}

/// Aggregations as items, under the names of the columns from `base` on.
spec fn call_items(aggs: Seq<AggExpr>, input: Schema, out: Schema, base: nat) -> Seq<SqlItem> {
    Seq::new(
        aggs.len(),
        |k: int|
            SqlItem {
                value: Selected::Call(
                    call_of(aggs[k], input),
                    kind_of(out.fields@[base + k].dtype),
                ),
                name: out.name_at(base + k),
            },
    )
}

/// The columns of a join as items.
spec fn side_items(j: HashJoin) -> Seq<SqlItem> {
    Seq::new(
        j.schema.width(),
        |c: int|
            SqlItem {
                value: Selected::Side(
                    j.left.output().has_name(j.schema.name_at(c)),
                    j.schema.name_at(c),
                ),
                name: j.schema.name_at(c),
            },
    )
}

/// The name of a bound column.
spec fn bound_name(e: Arc<Expr>, schema: Schema) -> Seq<char> {
    match *e {
        Expr::Column(Column::Bound(c)) => schema.name_at(c.index as int),
        _ => Seq::empty(),
    }
}

/// The keys of a join.
spec fn key_list(j: HashJoin) -> Seq<SqlKey> {
    Seq::new(
        j.left_on@.len(),
        |k: int|
            SqlKey {
                left: bound_name(j.left_on@[k], j.left.output()),
                right: bound_name(j.right_on@[k], j.right.output()),
                null_safe: nulls_match(j, k),
            },
    )
}

/// The expressions as they are read.
spec fn trees(exprs: Seq<Arc<Expr>>, input: Schema) -> Seq<SqlExpr> {
    Seq::new(exprs.len(), |i: int| read_of(exprs[i], input))
}

/// What the translation of a plan is read as.
spec fn query_of(plan: LocalPhysicalPlan) -> SqlQuery
    decreases plan,
{
    match plan {
        LocalPhysicalPlan::InMemoryScan(scan) => SqlQuery::View(
            name_items(*scan.schema),
            view_name(scan.source_id),
        ),
        LocalPhysicalPlan::Filter(f) => SqlQuery::Select(
            name_items(*f.schema),
            Box::new(query_of(*f.input)),
            Some(read_of(f.predicate, f.input.output())),
            None,
        ),
        LocalPhysicalPlan::Project(p) => SqlQuery::Select(
            expr_items(p.projection@, p.input.output(), *p.schema),
            Box::new(query_of(*p.input)),
            None,
            None,
        ),
        LocalPhysicalPlan::HashJoin(j) => SqlQuery::Join(
            side_items(j),
            Box::new(query_of(*j.left)),
            Box::new(query_of(*j.right)),
            key_list(j),
        ),
        LocalPhysicalPlan::HashAggregate(a) => SqlQuery::Select(
            expr_items(a.group_by@, a.input.output(), *a.schema) + call_items(
                a.aggregations@,
                a.input.output(),
                *a.schema,
                a.group_by@.len(),
            ),
            Box::new(query_of(*a.input)),
            None,
            Some(trees(a.group_by@, a.input.output())),
        ),
        LocalPhysicalPlan::UnGroupedAggregate(a) => SqlQuery::Select(
            call_items(a.aggregations@, a.input.output(), *a.schema, 0),
            Box::new(query_of(*a.input)),
            None,
            None,
        ),
        LocalPhysicalPlan::Other(_) => SqlQuery::View(Seq::empty(), Seq::empty()),
    }
}

spec fn query_in(plan: Arc<LocalPhysicalPlan>) -> SqlQuery {
    query_of(*plan)
}

spec fn text_in(plan: Arc<LocalPhysicalPlan>) -> Result<Seq<char>, ErrorView> {
    plan_sql(*plan)
}

/// The text is read as the query.
#[verifier::opaque]
spec fn reads_query(text: Seq<char>, q: SqlQuery) -> bool {
    forall|rest: Seq<char>|
        query_ends(rest) ==> #[trigger] read_query(text + rest) == Some((q, rest))
}

proof fn use_query(text: Seq<char>, q: SqlQuery, rest: Seq<char>)
    requires
        reads_query(text, q),
        query_ends(rest),
    ensures
        read_query(text + rest) == Some((q, rest)),
{
    reveal(reads_query);
}

/// The head of a query is read.
#[verifier::rlimit(60)]
proof fn head_is_read(texts: Seq<Seq<char>>, items: Seq<SqlItem>, from: Seq<char>)
    requires
        texts.len() == items.len() > 0,
        forall|i: int| 0 <= i < texts.len() ==> reads_item(#[trigger] texts[i], items[i]),
    ensures
        ({
            let all = "SELECT "@ + join(texts, ", "@) + " FROM "@ + from;
            &&& begins(all, "SELECT "@)
            &&& read_items(behind(all, "SELECT "@)) == Some((items, " FROM "@ + from))
            &&& begins(" FROM "@ + from, " FROM "@)
            &&& behind(" FROM "@ + from, " FROM "@) == from
            &&& from.len() < all.len()
        }),
{
    let list = join(texts, ", "@);
    let rest = " FROM "@ + from;
    let all = "SELECT "@ + list + " FROM "@ + from;
    assert(all =~= "SELECT "@ + (list + rest));
    beginning_is_read("SELECT "@, list + rest);
    beginning_is_read(" FROM "@, from);
    items_are_read(texts, items, rest);
    reveal_strlit(" FROM ");
}

/// A query on a view is read.
proof fn view_query_is_read(
    texts: Seq<Seq<char>>,
    items: Seq<SqlItem>,
    view: Seq<char>,
)
    requires
        texts.len() == items.len() > 0,
        forall|i: int| 0 <= i < texts.len() ==> reads_item(#[trigger] texts[i], items[i]),
        view.len() > 0,
        forall|k: int| 0 <= k < view.len() ==> in_word()(#[trigger] view[k]),
    ensures
        reads_query(
            "SELECT "@ + join(texts, ", "@) + " FROM "@ + view,
            SqlQuery::View(items, view),
        ),
{
    let text = "SELECT "@ + join(texts, ", "@) + " FROM "@ + view;
    assert forall|rest: Seq<char>| query_ends(rest) implies #[trigger] read_query(text + rest)
        == Some((SqlQuery::View(items, view), rest)) by {
        let from = view + rest;
        assert(text + rest =~= "SELECT "@ + join(texts, ", "@) + " FROM "@ + from);
        head_is_read(texts, items, from);
        reveal_strlit("(");
        if begins(from, "("@) {
            assert(from.take(1)[0] == '(');
            assert(from[0] == view[0]);
            assert(in_word()(view[0]));
        }
        span_stops(view, rest, in_word());
        assert(from.take(view.len() as int) =~= view);
        assert(from.skip(view.len() as int) =~= rest);
    }
    reveal(reads_query);
}

/// A query on a query, with what follows it.
#[verifier::rlimit(60)]
proof fn nested_is_read(
    texts: Seq<Seq<char>>,
    items: Seq<SqlItem>,
    child: Seq<char>,
    inner: SqlQuery,
    tail: Seq<char>,
    q: SqlQuery,
    rest: Seq<char>,
)
    requires
        texts.len() == items.len() > 0,
        forall|i: int| 0 <= i < texts.len() ==> reads_item(#[trigger] texts[i], items[i]),
        reads_query(child, inner),
        !begins(tail, " AS l INNER JOIN ("@),
        read_tail(items, inner, tail) == Some((q, rest)),
    ensures
        read_query("SELECT "@ + join(texts, ", "@) + " FROM "@ + ("("@ + (child + (")"@ + tail))))
            == Some((q, rest)),
{
    let end = ")"@ + tail;
    let from = "("@ + (child + end);
    head_is_read(texts, items, from);
    beginning_is_read("("@, child + end);
    beginning_is_read(")"@, tail);
    assert(query_ends(end)) by {
        reveal_strlit(")");
    }
    use_query(child, inner, end);
}

proof fn tail_is_no_join(word: Seq<char>, rest: Seq<char>)
    requires
        word == " WHERE "@ || word == " GROUP BY "@,
    ensures
        !begins(word + rest, " AS l INNER JOIN ("@),
        word == " GROUP BY "@ ==> !begins(word + rest, " WHERE "@),
{
    reveal_strlit(" WHERE ");
    reveal_strlit(" GROUP BY ");
    reveal_strlit(" AS l INNER JOIN (");
    let all = word + rest;
    assert(all[1] == word[1]);
    if begins(all, " AS l INNER JOIN ("@) {
        assert(all.take(18)[1] == 'A');
    }
    if begins(all, " WHERE "@) {
        assert(all.take(7)[1] == 'W');
    }
}

proof fn end_is_no_tail(rest: Seq<char>)
    requires
        query_ends(rest),
    ensures
        !begins(rest, " AS l INNER JOIN ("@),
        !begins(rest, " WHERE "@),
        !begins(rest, " GROUP BY "@),
{
    reveal_strlit(" WHERE ");
    reveal_strlit(" GROUP BY ");
    reveal_strlit(" AS l INNER JOIN (");
    if begins(rest, " AS l INNER JOIN ("@) {
        assert(rest.take(18)[0] == ' ');
    }
    if begins(rest, " WHERE "@) {
        assert(rest.take(7)[0] == ' ');
    }
    if begins(rest, " GROUP BY "@) {
        assert(rest.take(10)[0] == ' ');
    }
}

/// The text of a query on a query, part by part.
proof fn nested_text(
    list: Seq<char>,
    child: Seq<char>,
    closing: Seq<char>,
    word: Seq<char>,
    last: Seq<char>,
    rest: Seq<char>,
)
    requires
        closing == ")"@ + word,
    ensures
        "SELECT "@ + list + " FROM ("@ + child + closing + last + rest == "SELECT "@ + list
            + " FROM "@ + ("("@ + (child + (")"@ + (word + (last + rest))))),
{
    assert(" FROM ("@ =~= " FROM "@ + "("@) by {
        reveal_strlit(" FROM (");
        reveal_strlit(" FROM ");
        reveal_strlit("(");
    }
    assert("SELECT "@ + list + " FROM ("@ + child + closing + last + rest =~= "SELECT "@ + list
        + " FROM "@ + ("("@ + (child + (")"@ + (word + (last + rest))))));
}

/// A query with a filter is read.
#[verifier::rlimit(60)]
proof fn filter_query_is_read(
    texts: Seq<Seq<char>>,
    items: Seq<SqlItem>,
    child: Seq<char>,
    inner: SqlQuery,
    pred: Seq<char>,
    e: SqlExpr,
)
    requires
        texts.len() == items.len() > 0,
        forall|i: int| 0 <= i < texts.len() ==> reads_item(#[trigger] texts[i], items[i]),
        reads_query(child, inner),
        reads_expr(pred, e),
    ensures
        reads_query(
            "SELECT "@ + join(texts, ", "@) + " FROM ("@ + child + ") WHERE "@ + pred,
            SqlQuery::Select(items, Box::new(inner), Some(e), None),
        ),
{
    let list = join(texts, ", "@);
    let text = "SELECT "@ + list + " FROM ("@ + child + ") WHERE "@ + pred;
    let q = SqlQuery::Select(items, Box::new(inner), Some(e), None);
    assert forall|rest: Seq<char>| query_ends(rest) implies #[trigger] read_query(text + rest)
        == Some((q, rest)) by {
        let tail = " WHERE "@ + (pred + rest);
        assert(") WHERE "@ =~= ")"@ + " WHERE "@) by {
            reveal_strlit(") WHERE ");
            reveal_strlit(")");
            reveal_strlit(" WHERE ");
        }
        nested_text(list, child, ") WHERE "@, " WHERE "@, pred, rest);
        beginning_is_read(" WHERE "@, pred + rest);
        use_expr(pred, e, rest);
        tail_is_no_join(" WHERE "@, pred + rest);
        nested_is_read(texts, items, child, inner, tail, q, rest);
    }
    reveal(reads_query);
}

/// A query with nothing behind its input is read.
proof fn plain_query_is_read(
    texts: Seq<Seq<char>>,
    items: Seq<SqlItem>,
    child: Seq<char>,
    inner: SqlQuery,
)
    requires
        texts.len() == items.len() > 0,
        forall|i: int| 0 <= i < texts.len() ==> reads_item(#[trigger] texts[i], items[i]),
        reads_query(child, inner),
    ensures
        reads_query(
            "SELECT "@ + join(texts, ", "@) + " FROM ("@ + child + ")"@,
            SqlQuery::Select(items, Box::new(inner), None, None),
        ),
{
    let list = join(texts, ", "@);
    let text = "SELECT "@ + list + " FROM ("@ + child + ")"@;
    let q = SqlQuery::Select(items, Box::new(inner), None, None);
    assert forall|rest: Seq<char>| query_ends(rest) implies #[trigger] read_query(text + rest)
        == Some((q, rest)) by {
        assert(" FROM ("@ =~= " FROM "@ + "("@) by {
            reveal_strlit(" FROM (");
            reveal_strlit(" FROM ");
            reveal_strlit("(");
        }
        assert(text + rest =~= "SELECT "@ + list + " FROM "@ + ("("@ + (child + (")"@ + rest))));
        end_is_no_tail(rest);
        nested_is_read(texts, items, child, inner, rest, q, rest);
    }
    reveal(reads_query);
}

/// A query with groups is read.
#[verifier::rlimit(60)]
proof fn group_query_is_read(
    texts: Seq<Seq<char>>,
    items: Seq<SqlItem>,
    child: Seq<char>,
    inner: SqlQuery,
    groups: Seq<Seq<char>>,
    exprs: Seq<SqlExpr>,
)
    requires
        texts.len() == items.len() > 0,
        forall|i: int| 0 <= i < texts.len() ==> reads_item(#[trigger] texts[i], items[i]),
        reads_query(child, inner),
        groups.len() == exprs.len() > 0,
        forall|i: int| 0 <= i < groups.len() ==> reads_expr(#[trigger] groups[i], exprs[i]),
    ensures
        reads_query(
            "SELECT "@ + join(texts, ", "@) + " FROM ("@ + child + ") GROUP BY "@ + join(
                groups,
                ", "@,
            ),
            SqlQuery::Select(items, Box::new(inner), None, Some(exprs)),
        ),
{
    let list = join(texts, ", "@);
    let by = join(groups, ", "@);
    let text = "SELECT "@ + list + " FROM ("@ + child + ") GROUP BY "@ + by;
    let q = SqlQuery::Select(items, Box::new(inner), None, Some(exprs));
    assert forall|rest: Seq<char>| query_ends(rest) implies #[trigger] read_query(text + rest)
        == Some((q, rest)) by {
        let tail = " GROUP BY "@ + (by + rest);
        assert(") GROUP BY "@ =~= ")"@ + " GROUP BY "@) by {
            reveal_strlit(") GROUP BY ");
            reveal_strlit(")");
            reveal_strlit(" GROUP BY ");
        }
        nested_text(list, child, ") GROUP BY "@, " GROUP BY "@, by, rest);
        beginning_is_read(" GROUP BY "@, by + rest);
        exprs_are_read(groups, exprs, rest);
        tail_is_no_join(" GROUP BY "@, by + rest);
        nested_is_read(texts, items, child, inner, tail, q, rest);
    }
    reveal(reads_query);
}

/// The text of a query on a join, part by part.
spec fn join_parts(
    list: Seq<char>,
    left: Seq<char>,
    right: Seq<char>,
    last: Seq<char>,
) -> Seq<char> {
    "SELECT "@ + list + " FROM "@ + ("("@ + (left + (")"@ + (" AS l INNER JOIN ("@ + (right + (
    ") AS r ON "@ + last))))))
}

proof fn join_text(
    list: Seq<char>,
    left: Seq<char>,
    right: Seq<char>,
    cond: Seq<char>,
    rest: Seq<char>,
)
    ensures
        "SELECT "@ + list + " FROM ("@ + left + ") AS l INNER JOIN ("@ + right + ") AS r ON "@
            + cond + rest == join_parts(list, left, right, cond + rest),
{
    assert(" FROM ("@ =~= " FROM "@ + "("@ && ") AS l INNER JOIN ("@ =~= ")"@
        + " AS l INNER JOIN ("@) by {
        reveal_strlit(" FROM (");
        reveal_strlit(" FROM ");
        reveal_strlit("(");
        reveal_strlit(") AS l INNER JOIN (");
        reveal_strlit(")");
        reveal_strlit(" AS l INNER JOIN (");
    }
    assert("SELECT "@ + list + " FROM ("@ + left + ") AS l INNER JOIN ("@ + right + ") AS r ON "@
        + cond + rest =~= join_parts(list, left, right, cond + rest));
}

#[verifier::rlimit(60)]
proof fn join_parts_are_read(
    texts: Seq<Seq<char>>,
    items: Seq<SqlItem>,
    left: Seq<char>,
    lq: SqlQuery,
    right: Seq<char>,
    rq: SqlQuery,
    last: Seq<char>,
    keys: Seq<SqlKey>,
    rest: Seq<char>,
)
    requires
        texts.len() == items.len() > 0,
        forall|i: int| 0 <= i < texts.len() ==> reads_item(#[trigger] texts[i], items[i]),
        reads_query(left, lq),
        reads_query(right, rq),
        read_keys(last) == Some((keys, rest)),
    ensures
        read_query(join_parts(join(texts, ", "@), left, right, last)) == Some(
            (SqlQuery::Join(items, Box::new(lq), Box::new(rq), keys), rest),
        ),
{
    let end = ") AS r ON "@ + last;
    let tail = " AS l INNER JOIN ("@ + (right + end);
    let after_left = ")"@ + tail;
    let from = "("@ + (left + after_left);
    head_is_read(texts, items, from);
    beginning_is_read("("@, left + after_left);
    beginning_is_read(")"@, tail);
    beginning_is_read(" AS l INNER JOIN ("@, right + end);
    beginning_is_read(") AS r ON "@, last);
    assert(query_ends(after_left) && query_ends(end)) by {
        reveal_strlit(")");
        reveal_strlit(") AS r ON ");
    }
    use_query(left, lq, after_left);
    use_query(right, rq, end);
}

/// A query on a join is read.
#[verifier::rlimit(60)]
proof fn join_query_is_read(
    texts: Seq<Seq<char>>,
    items: Seq<SqlItem>,
    left: Seq<char>,
    lq: SqlQuery,
    right: Seq<char>,
    rq: SqlQuery,
    on: Seq<Seq<char>>,
    keys: Seq<SqlKey>,
)
    requires
        texts.len() == items.len() > 0,
        forall|i: int| 0 <= i < texts.len() ==> reads_item(#[trigger] texts[i], items[i]),
        reads_query(left, lq),
        reads_query(right, rq),
        on.len() == keys.len() > 0,
        forall|i: int| 0 <= i < on.len() ==> reads_key(#[trigger] on[i], keys[i]),
    ensures
        reads_query(
            "SELECT "@ + join(texts, ", "@) + " FROM ("@ + left + ") AS l INNER JOIN ("@ + right
                + ") AS r ON "@ + join(on, " AND "@),
            SqlQuery::Join(items, Box::new(lq), Box::new(rq), keys),
        ),
{
    let list = join(texts, ", "@);
    let cond = join(on, " AND "@);
    let text = "SELECT "@ + list + " FROM ("@ + left + ") AS l INNER JOIN ("@ + right
        + ") AS r ON "@ + cond;
    let q = SqlQuery::Join(items, Box::new(lq), Box::new(rq), keys);
    assert forall|rest: Seq<char>| query_ends(rest) implies #[trigger] read_query(text + rest)
        == Some((q, rest)) by {
        join_text(list, left, right, cond, rest);
        keys_are_read(on, keys, rest);
        join_parts_are_read(texts, items, left, lq, right, rq, cond + rest, keys, rest);
    }
    reveal(reads_query);
}

proof fn name_items_are_read(schema: Schema)
    requires
        is_plain_schema(schema),
    ensures
        quoted_names(schema).len() == name_items(schema).len() > 0,
        forall|i: int|
            0 <= i < quoted_names(schema).len() ==> reads_item(
                #[trigger] quoted_names(schema)[i],
                name_items(schema)[i],
            ),
{
    assert forall|i: int| 0 <= i < quoted_names(schema).len() implies reads_item(
        #[trigger] quoted_names(schema)[i],
        name_items(schema)[i],
    ) by {
        assert(schema.names()[i] == schema.name_at(i));
        column_is_an_item(schema.name_at(i));
    }
}

proof fn view_names_are_words(source: SourceId)
    ensures
        view_name(source).len() > 0,
        forall|k: int| 0 <= k < view_name(source).len() ==> in_word()(
            #[trigger] view_name(source)[k],
        ),
{
    reveal_strlit("daft_src_");
    decimal_has_digits(source as nat);
    let name = view_name(source);
    assert forall|k: int| 0 <= k < name.len() implies in_word()(#[trigger] name[k]) by {
        if k >= 9 {
            assert(name[k] == decimal(source as nat)[k - 9]);
        }
    }
}

/// Expressions with their names are read as items.
proof fn expr_items_are_read(
    texts: Seq<Seq<char>>,
    exprs: Seq<Arc<Expr>>,
    input: Schema,
    out: Schema,
)
    requires
        plain_names(input.names()),
        plain_names(out.names()),
        texts.len() == exprs.len() <= out.width(),
        forall|i: int|
            0 <= i < exprs.len() ==> is_sound_expr(*(#[trigger] exprs[i]), input.width()),
        forall|i: int|
            0 <= i < exprs.len() ==> text_of(#[trigger] exprs[i], input) is Ok && texts[i]
                == aliased(text_of(exprs[i], input)->Ok_0, out.name_at(i)),
    ensures
        forall|i: int|
            0 <= i < texts.len() ==> reads_item(
                #[trigger] texts[i],
                expr_items(exprs, input, out)[i],
            ),
{
    assert forall|i: int| 0 <= i < texts.len() implies reads_item(
        #[trigger] texts[i],
        expr_items(exprs, input, out)[i],
    ) by {
        let e = exprs[i];
        assert(is_sound_expr(*exprs[i], input.width()));
        assert(out.names()[i] == out.name_at(i));
        aliased_expr_is_an_item(e, input, out.name_at(i));
    }
}

/// Aggregations with their casts and names are read as items.
proof fn call_items_are_read(
    texts: Seq<Seq<char>>,
    aggs: Seq<AggExpr>,
    input: Schema,
    out: Schema,
    base: nat,
)
    requires
        plain_names(input.names()),
        plain_names(out.names()),
        base + aggs.len() <= out.width(),
        collect(agg_items(out, base, aggs, input)) == Ok::<Seq<Seq<char>>, ErrorView>(texts),
        forall|k: int| 0 <= k < aggs.len() ==> is_sound_agg(#[trigger] aggs[k], input.width()),
    ensures
        texts.len() == aggs.len(),
        forall|i: int|
            0 <= i < texts.len() ==> reads_item(
                #[trigger] texts[i],
                call_items(aggs, input, out, base)[i],
            ),
{
    let all = agg_items(out, base, aggs, input);
    collected_items(all);
    assert forall|i: int| 0 <= i < texts.len() implies reads_item(
        #[trigger] texts[i],
        call_items(aggs, input, out, base)[i],
    ) by {
        assert(all[i] == Ok::<Seq<char>, ErrorView>(texts[i]));
        assert(is_sound_agg(aggs[i], input.width()));
        assert(out.names()[base + i] == out.name_at(base + i));
        aliased_agg_is_an_item(
            aggs[i],
            input,
            out.fields@[base + i].dtype,
            out.name_at(base + i),
        );
    }
}

proof fn names_are_listed(schema: Schema, name: Seq<char>)
    ensures
        schema.has_name(name) <==> schema.names().contains(name),
{
    if schema.has_name(name) {
        let i = choose|i: int|
            0 <= i < schema.fields@.len() && #[trigger] schema.name_at(i) == name;
        assert(schema.names()[i] == name);
    }
    if schema.names().contains(name) {
        let i = choose|i: int| 0 <= i < schema.names().len() && schema.names()[i] == name;
        assert(schema.name_at(i) == name);
    }
}

proof fn side_items_are_read(j: HashJoin)
    requires
        is_sound(LocalPhysicalPlan::HashJoin(j)),
    ensures
        join_columns(j).len() == side_items(j).len() > 0,
        forall|i: int|
            0 <= i < join_columns(j).len() ==> reads_item(
                #[trigger] join_columns(j)[i],
                side_items(j)[i],
            ),
{
    assert forall|i: int| 0 <= i < join_columns(j).len() implies reads_item(
        #[trigger] join_columns(j)[i],
        side_items(j)[i],
    ) by {
        let name = j.schema.name_at(i);
        assert(j.schema.names()[i] == name);
        names_are_listed(j.left.output(), name);
        names_are_listed(j.right.output(), name);
        side_is_an_item(j.left.output().has_name(name), name);
    }
}

proof fn bound_column_text(e: Arc<Expr>, schema: Schema)
    requires
        is_bound_column(*e, schema.width()),
        plain_names(schema.names()),
    ensures
        text_of(e, schema) == Ok::<Seq<char>, ErrorView>(quoted(bound_name(e, schema))),
        is_plain_name(bound_name(e, schema)),
        schema.names().contains(bound_name(e, schema)),
{
    match *e {
        Expr::Column(Column::Bound(c)) => {
            assert(schema.names()[c.index as int] == schema.name_at(c.index as int));
        },
        _ => {},
    }
}

proof fn key_list_is_read(j: HashJoin)
    requires
        is_sound(LocalPhysicalPlan::HashJoin(j)),
        plain_names(j.left.output().names()),
        plain_names(j.right.output().names()),
        collect(on_items(j)) is Ok,
    ensures
        collect(on_items(j))->Ok_0.len() == key_list(j).len(),
        forall|i: int|
            0 <= i < key_list(j).len() ==> reads_key(
                #[trigger] collect(on_items(j))->Ok_0[i],
                key_list(j)[i],
            ),
{
    let on = collect(on_items(j))->Ok_0;
    collected_items(on_items(j));
    assert forall|i: int| 0 <= i < key_list(j).len() implies reads_key(
        #[trigger] on[i],
        key_list(j)[i],
    ) by {
        assert(on_items(j)[i] == Ok::<Seq<char>, ErrorView>(on[i]));
        assert(is_bound_column(*j.left_on@[i], j.left.output().width()));
        assert(is_bound_column(*j.right_on@[i], j.right.output().width()));
        bound_column_text(j.left_on@[i], j.left.output());
        bound_column_text(j.right_on@[i], j.right.output());
        predicate_is_a_key(
            bound_name(j.left_on@[i], j.left.output()),
            bound_name(j.right_on@[i], j.right.output()),
            nulls_match(j, i),
        );
    }
}

spec fn is_sound_plan(plan: Arc<LocalPhysicalPlan>) -> bool {
    is_sound(*plan)
}

proof fn sound_plans_are_plain(plan: Arc<LocalPhysicalPlan>)
    requires
        is_sound_plan(plan),
    ensures
        is_plain_schema(plan.output()),
{
}

/// The translation of a plan is read back.
#[verifier::rlimit(60)]
proof fn plan_is_read(plan: Arc<LocalPhysicalPlan>)
    requires
        text_in(plan) is Ok,
        is_sound_plan(plan),
    ensures
        reads_query(text_in(plan)->Ok_0, query_in(plan)),
    decreases plan,
{
    let out = plan.output();
    match *plan {
        LocalPhysicalPlan::InMemoryScan(scan) => {
            name_items_are_read(out);
            view_names_are_words(scan.source_id);
            view_query_is_read(
                quoted_names(out),
                name_items(out),
                view_name(scan.source_id),
            );
        },
        LocalPhysicalPlan::Filter(f) => {
            plan_is_read(f.input);
            sound_plans_are_plain(f.input);
            name_items_are_read(out);
            expr_is_in_list(f.predicate, f.input.output());
            filter_query_is_read(
                quoted_names(out),
                name_items(out),
                text_in(f.input)->Ok_0,
                query_in(f.input),
                text_of(f.predicate, f.input.output())->Ok_0,
                read_of(f.predicate, f.input.output()),
            );
        },
        LocalPhysicalPlan::Project(p) => {
            plan_is_read(p.input);
            project_is_read(p);
        },
        LocalPhysicalPlan::HashJoin(j) => {
            plan_is_read(j.left);
            plan_is_read(j.right);
            sound_plans_are_plain(j.left);
            sound_plans_are_plain(j.right);
            side_items_are_read(j);
            key_list_is_read(j);
            join_query_is_read(
                join_columns(j),
                side_items(j),
                text_in(j.left)->Ok_0,
                query_in(j.left),
                text_in(j.right)->Ok_0,
                query_in(j.right),
                collect(on_items(j))->Ok_0,
                key_list(j),
            );
        },
        LocalPhysicalPlan::HashAggregate(a) => {
            plan_is_read(a.input);
            aggregate_is_read(a);
        },
        LocalPhysicalPlan::UnGroupedAggregate(a) => {
            plan_is_read(a.input);
            sound_plans_are_plain(a.input);
            let input = a.input.output();
            let texts = collect(agg_items(out, 0, a.aggregations@, input))->Ok_0;
            call_items_are_read(texts, a.aggregations@, input, out, 0);
            assert(group_columns(out, Seq::empty()) + texts =~= texts);
            plain_query_is_read(
                texts,
                call_items(a.aggregations@, input, out, 0),
                text_in(a.input)->Ok_0,
                query_in(a.input),
            );
        },
        LocalPhysicalPlan::Other(_) => {},
    }
}

proof fn project_is_read(p: Project)
    requires
        is_sound(LocalPhysicalPlan::Project(p)),
        plan_sql(LocalPhysicalPlan::Project(p)) is Ok,
        reads_query(text_in(p.input)->Ok_0, query_in(p.input)),
    ensures
        reads_query(
            plan_sql(LocalPhysicalPlan::Project(p))->Ok_0,
            query_of(LocalPhysicalPlan::Project(p)),
        ),
{
    let input = p.input.output();
    let out = LocalPhysicalPlan::Project(p).output();
    sound_plans_are_plain(p.input);
    let texts = collect(project_items(p))->Ok_0;
    collected_items(project_items(p));
    assert forall|i: int| 0 <= i < p.projection@.len() implies text_of(
        #[trigger] p.projection@[i],
        input,
    ) is Ok && texts[i] == aliased(
        text_of(p.projection@[i], input)->Ok_0,
        p.schema.name_at(i),
    ) by {
        assert(project_items(p)[i] == Ok::<Seq<char>, ErrorView>(texts[i]));
    }
    expr_items_are_read(texts, p.projection@, input, out);
    plain_query_is_read(
        texts,
        expr_items(p.projection@, input, out),
        text_in(p.input)->Ok_0,
        query_in(p.input),
    );
}

#[verifier::rlimit(60)]
proof fn aggregate_is_read(a: HashAggregate)
    requires
        is_sound(LocalPhysicalPlan::HashAggregate(a)),
        plan_sql(LocalPhysicalPlan::HashAggregate(a)) is Ok,
        reads_query(text_in(a.input)->Ok_0, query_in(a.input)),
    ensures
        reads_query(
            plan_sql(LocalPhysicalPlan::HashAggregate(a))->Ok_0,
            query_of(LocalPhysicalPlan::HashAggregate(a)),
        ),
{
    let input = a.input.output();
    let out = LocalPhysicalPlan::HashAggregate(a).output();
    sound_plans_are_plain(a.input);
    let groups = collect(group_items(a))->Ok_0;
    collected_items(group_items(a));
    let n = a.group_by@.len();
    let columns = group_columns(out, groups);
    let calls = collect(agg_items(out, n, a.aggregations@, input))->Ok_0;
    assert forall|i: int| 0 <= i < n implies text_of(#[trigger] a.group_by@[i], input) is Ok
        && groups[i] == text_of(a.group_by@[i], input)->Ok_0 by {
        assert(group_items(a)[i] == Ok::<Seq<char>, ErrorView>(groups[i]));
    }
    expr_items_are_read(columns, a.group_by@, input, out);
    call_items_are_read(calls, a.aggregations@, input, out, n);
    let texts = columns + calls;
    let named = expr_items(a.group_by@, input, out);
    let called = call_items(a.aggregations@, input, out, n);
    let items = named + called;
    assert forall|i: int| 0 <= i < texts.len() implies reads_item(#[trigger] texts[i], items[i]) by {
        if i < columns.len() {
            assert(texts[i] == columns[i]);
        } else {
            assert(texts[i] == calls[i - columns.len()]);
        }
    }
    assert forall|i: int| 0 <= i < groups.len() implies reads_expr(
        #[trigger] groups[i],
        trees(a.group_by@, input)[i],
    ) by {
        assert(is_sound_expr(*a.group_by@[i], input.width()));
        expr_is_in_list(a.group_by@[i], input);
    }
    group_query_is_read(
        texts,
        items,
        text_in(a.input)->Ok_0,
        query_in(a.input),
        groups,
        trees(a.group_by@, input),
    );
}

/// The views hold the rows of the sources that the plan scans, under the names of the scan, and each row
/// has a value for every column.
pub open spec fn views_hold(
    plan: LocalPhysicalPlan,
    views: spec_fn(Seq<char>) -> Table,
    sources: spec_fn(SourceId) -> Seq<Seq<Value>>,
) -> bool
    decreases plan,
{
    match plan {
        LocalPhysicalPlan::InMemoryScan(scan) => {
            let rows = sources(scan.source_id);
            &&& views(view_name(scan.source_id)) == (Table { names: scan.schema.names(), rows })
            &&& forall|i: int| 0 <= i < rows.len() ==> (#[trigger] rows[i]).len()
                == scan.schema.width()
        },
        LocalPhysicalPlan::Filter(f) => views_hold(*f.input, views, sources),
        LocalPhysicalPlan::Project(p) => views_hold(*p.input, views, sources),
        LocalPhysicalPlan::HashJoin(j) => views_hold(*j.left, views, sources) && views_hold(
            *j.right,
            views,
            sources,
        ),
        LocalPhysicalPlan::HashAggregate(a) => views_hold(*a.input, views, sources),
        LocalPhysicalPlan::UnGroupedAggregate(a) => views_hold(*a.input, views, sources),
        LocalPhysicalPlan::Other(_) => true,
    }
}

spec fn are_viewed(
    plan: Arc<LocalPhysicalPlan>,
    views: spec_fn(Seq<char>) -> Table,
    sources: spec_fn(SourceId) -> Seq<Seq<Value>>,
) -> bool {
    views_hold(*plan, views, sources)
}

spec fn output_in(
    plan: Arc<LocalPhysicalPlan>,
    sources: spec_fn(SourceId) -> Seq<Seq<Value>>,
) -> Seq<Seq<Value>> {
    plan_output(*plan, sources)
}

/// Every row has that many values.
spec fn have_width(rows: Seq<Seq<Value>>, width: nat) -> bool {
    forall|i: int| 0 <= i < rows.len() ==> (#[trigger] rows[i]).len() == width
}

proof fn somes_are_of_the_list(list: Seq<Option<Seq<Value>>>)
    ensures
        forall|i: int|
            0 <= i < somes(list).len() ==> exists|k: int|
                0 <= k < list.len() && #[trigger] list[k] == Some(#[trigger] somes(list)[i]),
    decreases list.len(),
{
    if list.len() > 0 {
        let init = list.drop_last();
        somes_are_of_the_list(init);
        assert forall|i: int| 0 <= i < somes(list).len() implies exists|k: int|
            0 <= k < list.len() && #[trigger] list[k] == Some(#[trigger] somes(list)[i]) by {
            if i < somes(init).len() {
                assert(somes(list)[i] == somes(init)[i]);
                let k = choose|k: int|
                    0 <= k < init.len() && #[trigger] init[k] == Some(somes(init)[i]);
                assert(list[k] == Some(somes(list)[i]));
            } else {
                assert(list[list.len() - 1] == Some(somes(list)[i]));
            }
        }
    }
}

proof fn somes_have_width(list: Seq<Option<Seq<Value>>>, width: nat)
    requires
        forall|k: int|
            0 <= k < list.len() ==> (#[trigger] list[k] matches Some(row) ==> row.len() == width),
    ensures
        have_width(somes(list), width),
{
    somes_are_of_the_list(list);
    assert forall|i: int| 0 <= i < somes(list).len() implies (#[trigger] somes(list)[i]).len()
        == width by {
        let k = choose|k: int|
            0 <= k < list.len() && #[trigger] list[k] == Some(somes(list)[i]);
        assert(list[k] is Some);
    }
}

proof fn all_somes_have_width(lists: Seq<Seq<Option<Seq<Value>>>>, width: nat)
    requires
        forall|i: int| 0 <= i < lists.len() ==> have_width(somes(#[trigger] lists[i]), width),
    ensures
        have_width(all_somes(lists), width),
    decreases lists.len(),
{
    if lists.len() > 0 {
        let init = lists.drop_last();
        assert forall|i: int| 0 <= i < init.len() implies have_width(
            somes(#[trigger] init[i]),
            width,
        ) by {
            assert(init[i] == lists[i]);
        }
        all_somes_have_width(init, width);
        assert(lists[lists.len() - 1] == lists.last());
        let before = all_somes(init);
        let more = somes(lists.last());
        assert forall|i: int| 0 <= i < all_somes(lists).len() implies (
        #[trigger] all_somes(lists)[i]).len() == width by {
            if i < before.len() {
                assert(all_somes(lists)[i] == before[i]);
            } else {
                assert(all_somes(lists)[i] == more[i - before.len()]);
            }
        }
    }
}

/// The rows of a plan have a value for every column.
proof fn rows_have_width(
    plan: Arc<LocalPhysicalPlan>,
    views: spec_fn(Seq<char>) -> Table,
    sources: spec_fn(SourceId) -> Seq<Seq<Value>>,
)
    requires
        text_in(plan) is Ok,
        is_sound_plan(plan),
        are_viewed(plan, views, sources),
    ensures
        have_width(output_in(plan, sources), plan.output().width()),
    decreases plan,
{
    let width = plan.output().width();
    match *plan {
        LocalPhysicalPlan::InMemoryScan(_) => {},
        LocalPhysicalPlan::Filter(f) => {
            rows_have_width(f.input, views, sources);
            assert(f.input.output().names().len() == f.schema.names().len());
            let rows = output_in(f.input, sources);
            let list = passing(f.predicate, rows);
            assert forall|k: int| 0 <= k < list.len() implies (#[trigger] list[k] matches Some(row)
                ==> row.len() == width) by {
                assert(rows[k].len() == width);
            }
            somes_have_width(list, width);
        },
        LocalPhysicalPlan::Project(_) => {},
        LocalPhysicalPlan::HashJoin(j) => {
            let l = output_in(j.left, sources);
            let r = output_in(j.right, sources);
            let lists = all_join_pairs(j, l, r);
            assert forall|i: int| 0 <= i < lists.len() implies have_width(
                somes(#[trigger] lists[i]),
                width,
            ) by {
                somes_have_width(lists[i], width);
            }
            all_somes_have_width(lists, width);
        },
        LocalPhysicalPlan::HashAggregate(a) => {
            let rows = output_in(a.input, sources);
            let keys = expr_rows(a.group_by@, rows);
            let out = output_in(plan, sources);
            assert forall|g: int| 0 <= g < out.len() implies (#[trigger] out[g]).len() == width by {
                distinct_are_keys(keys, g);
                let i = choose|i: int| 0 <= i < keys.len() && keys[i] == distinct(keys)[g];
                assert(keys[i].len() == a.group_by@.len());
                collected_items(group_items(a));
            }
        },
        LocalPhysicalPlan::UnGroupedAggregate(_) => {},
        LocalPhysicalPlan::Other(_) => {},
    }
}

proof fn distinct_are_keys(keys: Seq<Seq<Value>>, g: int)
    requires
        0 <= g < distinct(keys).len(),
    ensures
        keys.contains(distinct(keys)[g]),
    decreases keys.len(),
{
    if keys.len() > 0 {
        let init = keys.drop_last();
        if g < distinct(init).len() {
            distinct_are_keys(init, g);
            let i = choose|i: int| 0 <= i < init.len() && init[i] == distinct(init)[g];
            assert(keys[i] == distinct(keys)[g]);
        } else {
            assert(keys[keys.len() - 1] == distinct(keys)[g]);
        }
    }
}

proof fn somes_find(list: Seq<Option<Seq<Value>>>, k: int)
    requires
        0 <= k < list.len(),
        list[k] is Some,
    ensures
        somes(list).len() > 0,
    decreases list.len(),
{
    if k < list.len() - 1 {
        somes_find(list.drop_last(), k);
    }
}

/// Selecting all columns by name gives the row.
proof fn names_give_the_row(schema: Schema, row: Seq<Value>)
    requires
        is_plain_schema(schema),
        row.len() == schema.width(),
    ensures
        item_row(name_items(schema), schema.names(), row) == row,
        item_names(name_items(schema)) == schema.names(),
        !has_call(name_items(schema)),
{
    let names = schema.names();
    let items = name_items(schema);
    assert forall|c: int| 0 <= c < row.len() implies item_row(items, names, row)[c] == row[c] by {
        let name = schema.name_at(c);
        assert(names[c] == name);
        let i = choose|i: int| 0 <= i < names.len() && names[i] == name;
        assert(i == c);
    }
    assert(item_row(items, names, row) =~= row);
    assert(item_names(items) =~= names);
}

proof fn expr_items_give_the_row(
    exprs: Seq<Arc<Expr>>,
    input: Schema,
    out: Schema,
    row: Seq<Value>,
)
    requires
        plain_names(input.names()),
        row.len() == input.width(),
        forall|i: int|
            0 <= i < exprs.len() ==> is_sound_expr(*(#[trigger] exprs[i]), input.width())
                && text_of(exprs[i], input) is Ok,
    ensures
        item_row(expr_items(exprs, input, out), input.names(), row) == expr_row(exprs, row),
        sql_key(trees(exprs, input), input.names(), row) == expr_row(exprs, row),
{
    let items = expr_items(exprs, input, out);
    assert forall|k: int| 0 <= k < exprs.len() implies sql_value(
        read_of(exprs[k], input),
        input.names(),
        row,
    ) == expr_row(exprs, row)[k] by {
        let e = exprs[k];
        assert(is_sound_expr(*exprs[k], input.width()));
        trees_agree(e, input);
        assert(row.len() == input.names().len());
    }
    assert(item_row(items, input.names(), row) =~= expr_row(exprs, row));
    assert(sql_key(trees(exprs, input), input.names(), row) =~= expr_row(exprs, row));
}

/// The rows of a group have its key, and there is one.
proof fn group_has_its_key(rows: Seq<Seq<Value>>, keys: Seq<Seq<Value>>, g: int) -> (i: int)
    requires
        rows.len() == keys.len(),
        0 <= g < distinct(keys).len(),
    ensures
        rows_with(rows, keys, distinct(keys)[g]).len() > 0,
        0 <= i < rows.len(),
        keys[i] == distinct(keys)[g],
        rows_with(rows, keys, distinct(keys)[g])[0] == rows[i],
{
    let key = distinct(keys)[g];
    let list = keyed_rows(rows, keys, key);
    distinct_are_keys(keys, g);
    let k = choose|k: int| 0 <= k < keys.len() && keys[k] == key;
    somes_find(list, k);
    somes_are_of_the_list(list);
    let found = somes(list)[0];
    let i = choose|i: int| 0 <= i < list.len() && #[trigger] list[i] == Some(found);
    assert(list[i] is Some);
    i
}

proof fn group_rows_have_width(
    rows: Seq<Seq<Value>>,
    keys: Seq<Seq<Value>>,
    key: Seq<Value>,
    width: nat,
)
    requires
        have_width(rows, width),
    ensures
        have_width(rows_with(rows, keys, key), width),
{
    let list = keyed_rows(rows, keys, key);
    assert forall|k: int| 0 <= k < list.len() implies (#[trigger] list[k] matches Some(row)
        ==> row.len() == width) by {
        assert(rows[k].len() == width);
    }
    somes_have_width(list, width);
}

/// The aggregations give the values of their items.
proof fn call_items_give_the_values(
    aggs: Seq<AggExpr>,
    input: Schema,
    out: Schema,
    base: nat,
    rows: Seq<Seq<Value>>,
    k: int,
)
    requires
        plain_names(input.names()),
        have_width(rows, input.width()),
        0 <= k < aggs.len(),
        is_sound_agg(aggs[k], input.width()),
        agg_sql(aggs[k], input) is Ok,
    ensures
        ({
            let item = call_items(aggs, input, out, base)[k];
            &&& item.value == Selected::Call(
                call_of(aggs[k], input),
                kind_of(out.fields@[base + k].dtype),
            )
            &&& converted(
                call_value(call_of(aggs[k], input), input.names(), rows),
                kind_of(out.fields@[base + k].dtype),
            ) == agg_row(aggs, out, base, rows)[k]
        }),
{
    call_keeps_value(aggs[k], input, rows);
}

proof fn filter_gives_the_rows(predicate: Arc<Expr>, input: Schema, rows: Seq<Seq<Value>>)
    requires
        plain_names(input.names()),
        have_width(rows, input.width()),
        is_sound_expr(*predicate, input.width()),
        text_of(predicate, input) is Ok,
    ensures
        filtered(read_of(predicate, input), input.names(), rows) == passing(predicate, rows),
{
    let a = filtered(read_of(predicate, input), input.names(), rows);
    let b = passing(predicate, rows);
    trees_agree(predicate, input);
    assert forall|i: int| 0 <= i < rows.len() implies a[i] == b[i] by {
        assert(rows[i].len() == input.names().len());
    }
    assert(a =~= b);
}

#[verifier::rlimit(60)]
proof fn grouped_table(a: HashAggregate, rows: Seq<Seq<Value>>)
    requires
        is_sound(LocalPhysicalPlan::HashAggregate(a)),
        plan_sql(LocalPhysicalPlan::HashAggregate(a)) is Ok,
        have_width(rows, a.input.output().width()),
    ensures
        ({
            let input = a.input.output();
            let out = LocalPhysicalPlan::HashAggregate(a).output();
            let items = expr_items(a.group_by@, input, out) + call_items(
                a.aggregations@,
                input,
                out,
                a.group_by@.len(),
            );
            let keys = sql_keys(trees(a.group_by@, input), input.names(), rows);
            &&& group_rows(items, input.names(), rows, keys) == aggregated(
                a,
                rows,
                expr_rows(a.group_by@, rows),
            )
            &&& item_names(items) == out.names()
        }),
{
    let input = a.input.output();
    let out = LocalPhysicalPlan::HashAggregate(a).output();
    let n = a.group_by@.len();
    let named = expr_items(a.group_by@, input, out);
    let called = call_items(a.aggregations@, input, out, n);
    let items = named + called;
    let keys = expr_rows(a.group_by@, rows);
    sound_plans_are_plain(a.input);
    let all = group_items(a);
    collected_items(all);
    collected_items(agg_items(out, n, a.aggregations@, input));
    assert forall|i: int| 0 <= i < n implies is_sound_expr(
        *(#[trigger] a.group_by@[i]),
        input.width(),
    ) && text_of(a.group_by@[i], input) is Ok by {
        assert(all[i] is Ok);
    }
    assert(sql_keys(trees(a.group_by@, input), input.names(), rows) =~= keys) by {
        assert forall|i: int| 0 <= i < rows.len() implies sql_key(
            trees(a.group_by@, input),
            input.names(),
            rows[i],
        ) == keys[i] by {
            assert(rows[i].len() == input.width());
            expr_items_give_the_row(a.group_by@, input, out, rows[i]);
        }
    }
    let x = group_rows(items, input.names(), rows, keys);
    let y = aggregated(a, rows, keys);
    assert forall|g: int| 0 <= g < x.len() implies x[g] == y[g] by {
        let key = distinct(keys)[g];
        let group = rows_with(rows, keys, key);
        let i = group_has_its_key(rows, keys, g);
        group_rows_have_width(rows, keys, key, input.width());
        let tail = agg_row(a.aggregations@, out, n, group);
        assert(y[g] == key + tail);
        assert(rows[i].len() == input.width());
        expr_items_give_the_row(a.group_by@, input, out, rows[i]);
        assert(key == expr_row(a.group_by@, rows[i]));
        assert forall|k: int| 0 <= k < items.len() implies x[g][k] == (key + tail)[k] by {
            if k < n {
                assert(items[k] == named[k]);
                assert(item_row(named, input.names(), rows[i])[k] == key[k]);
                assert(x[g][k] == sql_value(
                    read_of(a.group_by@[k], input),
                    input.names(),
                    group[0],
                ));
            } else {
                assert(items[k] == called[k - n]);
                assert(is_sound_agg(a.aggregations@[k - n], input.width()));
                assert(agg_items(out, n, a.aggregations@, input)[k - n] is Ok);
                call_items_give_the_values(a.aggregations@, input, out, n, group, k - n);
            }
        }
        assert(x[g] =~= key + tail);
    }
    assert(x =~= y);
    assert(item_names(items) =~= out.names()) by {
        assert forall|k: int| 0 <= k < items.len() implies items[k].name == out.names()[k] by {
            if k < n {
                assert(items[k] == named[k]);
            } else {
                assert(items[k] == called[k - n]);
            }
        }
    }
}

proof fn ungrouped_table(a: UnGroupedAggregate, rows: Seq<Seq<Value>>)
    requires
        is_sound(LocalPhysicalPlan::UnGroupedAggregate(a)),
        plan_sql(LocalPhysicalPlan::UnGroupedAggregate(a)) is Ok,
        have_width(rows, a.input.output().width()),
    ensures
        ({
            let input = a.input.output();
            let out = LocalPhysicalPlan::UnGroupedAggregate(a).output();
            let items = call_items(a.aggregations@, input, out, 0);
            &&& group_row(items, input.names(), rows) == agg_row(a.aggregations@, out, 0, rows)
            &&& item_names(items) == out.names()
            &&& has_call(items)
        }),
{
    let input = a.input.output();
    let out = LocalPhysicalPlan::UnGroupedAggregate(a).output();
    let items = call_items(a.aggregations@, input, out, 0);
    sound_plans_are_plain(a.input);
    let all = agg_items(out, 0, a.aggregations@, input);
    collected_items(all);
    let x = group_row(items, input.names(), rows);
    let y = agg_row(a.aggregations@, out, 0, rows);
    assert forall|k: int| 0 <= k < items.len() implies x[k] == y[k] by {
        assert(is_sound_agg(a.aggregations@[k], input.width()));
        assert(all[k] is Ok);
        call_items_give_the_values(a.aggregations@, input, out, 0, rows, k);
    }
    assert(x =~= y);
    assert(item_names(items) =~= out.names());
    assert(items[0].value is Call);
}

proof fn joined_table(j: HashJoin, l: Seq<Seq<Value>>, r: Seq<Seq<Value>>)
    requires
        is_sound(LocalPhysicalPlan::HashJoin(j)),
        have_width(l, j.left.output().width()),
        have_width(r, j.right.output().width()),
    ensures
        ({
            let lt = Table { names: j.left.output().names(), rows: l };
            let rt = Table { names: j.right.output().names(), rows: r };
            &&& all_pairs(side_items(j), key_list(j), lt, rt) == all_join_pairs(j, l, r)
            &&& item_names(side_items(j)) == LocalPhysicalPlan::HashJoin(j).output().names()
        }),
{
    sound_plans_are_plain(j.left);
    sound_plans_are_plain(j.right);
    let (ln, rn) = (j.left.output().names(), j.right.output().names());
    let lt = Table { names: ln, rows: l };
    let rt = Table { names: rn, rows: r };
    let items = side_items(j);
    let keys = key_list(j);
    let x = all_pairs(items, keys, lt, rt);
    let y = all_join_pairs(j, l, r);
    assert forall|i: int| 0 <= i < x.len() implies x[i] == y[i] by {
        assert forall|k: int| 0 <= k < r.len() implies x[i][k] == y[i][k] by {
            assert(l[i].len() == ln.len());
            assert(r[k].len() == rn.len());
            rows_match_alike(j, l[i], r[k], lt, rt);
            assert(pair_row(items, lt, l[i], rt, r[k]) =~= join_row(j, l[i], r[k])) by {
                assert forall|c: int| 0 <= c < items.len() implies pair_row(
                    items,
                    lt,
                    l[i],
                    rt,
                    r[k],
                )[c] == join_row(j, l[i], r[k])[c] by {
                    names_are_listed(j.left.output(), j.schema.name_at(c));
                }
            }
        }
        assert(x[i] =~= y[i]);
    }
    assert(x =~= y);
    assert(item_names(items) =~= LocalPhysicalPlan::HashJoin(j).output().names());
}

proof fn bound_value(e: Arc<Expr>, schema: Schema, row: Seq<Value>)
    requires
        is_bound_column(*e, schema.width()),
        plain_names(schema.names()),
    ensures
        named_value(schema.names(), row, bound_name(e, schema)) == expr_value(*e, row),
{
    let names = schema.names();
    match *e {
        Expr::Column(Column::Bound(c)) => {
            let name = schema.name_at(c.index as int);
            assert(names[c.index as int] == name);
            let i = choose|i: int| 0 <= i < names.len() && names[i] == name;
            assert(i == c.index);
        },
        _ => {},
    }
}

proof fn rows_match_alike(
    j: HashJoin,
    lrow: Seq<Value>,
    rrow: Seq<Value>,
    lt: Table,
    rt: Table,
)
    requires
        is_sound(LocalPhysicalPlan::HashJoin(j)),
        lt.names == j.left.output().names(),
        rt.names == j.right.output().names(),
    ensures
        rows_match(key_list(j), lt, lrow, rt, rrow) == join_keys_match(j, lrow, rrow),
{
    sound_plans_are_plain(j.left);
    sound_plans_are_plain(j.right);
    let keys = key_list(j);
    assert forall|k: int| 0 <= k < keys.len() implies keys_match(
        named_value(lt.names, lrow, (#[trigger] keys[k]).left),
        named_value(rt.names, rrow, keys[k].right),
        keys[k].null_safe,
    ) == key_holds(j, k, lrow, rrow) by {
        assert(is_bound_column(*j.left_on@[k], j.left.output().width()));
        assert(is_bound_column(*j.right_on@[k], j.right.output().width()));
        bound_value(j.left_on@[k], j.left.output(), lrow);
        bound_value(j.right_on@[k], j.right.output(), rrow);
    }
    if rows_match(keys, lt, lrow, rt, rrow) {
        assert forall|k: int| 0 <= k < j.left_on@.len() implies keys_match(
            expr_value(*(#[trigger] j.left_on@[k]), lrow),
            expr_value(*j.right_on@[k], rrow),
            nulls_match(j, k),
        ) by {
            assert(keys[k].null_safe == nulls_match(j, k));
            assert(key_holds(j, k, lrow, rrow));
        }
    }
    if join_keys_match(j, lrow, rrow) {
        assert forall|k: int| 0 <= k < keys.len() implies keys_match(
            named_value(lt.names, lrow, (#[trigger] keys[k]).left),
            named_value(rt.names, rrow, keys[k].right),
            keys[k].null_safe,
        ) by {
            assert(keys_match(
                expr_value(*j.left_on@[k], lrow),
                expr_value(*j.right_on@[k], rrow),
                nulls_match(j, k),
            ));
            assert(key_holds(j, k, lrow, rrow));
        }
    }
}

spec fn key_holds(j: HashJoin, k: int, lrow: Seq<Value>, rrow: Seq<Value>) -> bool {
    keys_match(
        expr_value(*j.left_on@[k], lrow),
        expr_value(*j.right_on@[k], rrow),
        nulls_match(j, k),
    )
}

/// What is read of a plan gives the table of the plan.
#[verifier::rlimit(60)]
proof fn query_gives_the_table(
    plan: Arc<LocalPhysicalPlan>,
    views: spec_fn(Seq<char>) -> Table,
    sources: spec_fn(SourceId) -> Seq<Seq<Value>>,
)
    requires
        text_in(plan) is Ok,
        is_sound_plan(plan),
        are_viewed(plan, views, sources),
    ensures
        query_table(query_in(plan), views) == table_in(plan, sources),
    decreases plan,
{
    let out = plan.output();
    let made = query_table(query_in(plan), views);
    match *plan {
        LocalPhysicalPlan::InMemoryScan(scan) => {
            let rows = sources(scan.source_id);
            names_give_the_row_list(out, rows);
        },
        LocalPhysicalPlan::Filter(f) => {
            query_gives_the_table(f.input, views, sources);
            rows_have_width(f.input, views, sources);
            rows_have_width(plan, views, sources);
            sound_plans_are_plain(f.input);
            let rows = output_in(f.input, sources);
            filter_gives_the_rows(f.predicate, f.input.output(), rows);
            names_give_the_row_list(out, somes(passing(f.predicate, rows)));
        },
        LocalPhysicalPlan::Project(p) => {
            query_gives_the_table(p.input, views, sources);
            rows_have_width(p.input, views, sources);
            projected_table(p, output_in(p.input, sources));
        },
        LocalPhysicalPlan::HashJoin(j) => {
            query_gives_the_table(j.left, views, sources);
            query_gives_the_table(j.right, views, sources);
            rows_have_width(j.left, views, sources);
            rows_have_width(j.right, views, sources);
            joined_table(j, output_in(j.left, sources), output_in(j.right, sources));
        },
        LocalPhysicalPlan::HashAggregate(a) => {
            query_gives_the_table(a.input, views, sources);
            rows_have_width(a.input, views, sources);
            grouped_table(a, output_in(a.input, sources));
        },
        LocalPhysicalPlan::UnGroupedAggregate(a) => {
            query_gives_the_table(a.input, views, sources);
            rows_have_width(a.input, views, sources);
            ungrouped_table(a, output_in(a.input, sources));
        },
        LocalPhysicalPlan::Other(_) => {},
    }
    assert(made =~= table_in(plan, sources));
}

spec fn table_in(
    plan: Arc<LocalPhysicalPlan>,
    sources: spec_fn(SourceId) -> Seq<Seq<Value>>,
) -> Table {
    plan_table(*plan, sources)
}

proof fn names_give_the_row_list(schema: Schema, rows: Seq<Seq<Value>>)
    requires
        is_plain_schema(schema),
        have_width(rows, schema.width()),
    ensures
        item_rows(name_items(schema), schema.names(), rows) == rows,
        item_names(name_items(schema)) == schema.names(),
        !has_call(name_items(schema)),
{
    let made = item_rows(name_items(schema), schema.names(), rows);
    assert forall|i: int| 0 <= i < rows.len() implies made[i] == rows[i] by {
        assert(rows[i].len() == schema.width());
        names_give_the_row(schema, rows[i]);
    }
    assert(made =~= rows);
    let some_row = Seq::new(schema.width(), |i: int| Value::Null);
    names_give_the_row(schema, some_row);
}

proof fn projected_table(p: Project, rows: Seq<Seq<Value>>)
    requires
        is_sound(LocalPhysicalPlan::Project(p)),
        plan_sql(LocalPhysicalPlan::Project(p)) is Ok,
        have_width(rows, p.input.output().width()),
    ensures
        ({
            let input = p.input.output();
            let out = LocalPhysicalPlan::Project(p).output();
            let items = expr_items(p.projection@, input, out);
            &&& item_rows(items, input.names(), rows) == expr_rows(p.projection@, rows)
            &&& item_names(items) == out.names()
            &&& !has_call(items)
        }),
{
    let input = p.input.output();
    let out = LocalPhysicalPlan::Project(p).output();
    let items = expr_items(p.projection@, input, out);
    sound_plans_are_plain(p.input);
    let all = project_items(p);
    collected_items(all);
    assert forall|i: int| 0 <= i < p.projection@.len() implies is_sound_expr(
        *(#[trigger] p.projection@[i]),
        input.width(),
    ) && text_of(p.projection@[i], input) is Ok by {
        assert(all[i] is Ok);
    }
    let x = item_rows(items, input.names(), rows);
    let y = expr_rows(p.projection@, rows);
    assert forall|i: int| 0 <= i < rows.len() implies x[i] == y[i] by {
        assert(rows[i].len() == input.width());
        expr_items_give_the_row(p.projection@, input, out, rows[i]);
    }
    assert(x =~= y);
    assert(item_names(items) =~= out.names());
}

/// The translation of a plan keeps its meaning: read as SQL, it is one query, and where the views hold
/// the rows of the sources, the query gives the table of the plan: the same rows, with the same values,
/// under the names of the plan's schema in its order.
pub proof fn translated_plans_keep_their_meaning(
    plan: Arc<LocalPhysicalPlan>,
    views: spec_fn(Seq<char>) -> Table,
    sources: spec_fn(SourceId) -> Seq<Seq<Value>>,
) -> (q: SqlQuery)
    requires
        plan_sql(*plan) is Ok,
        is_sound(*plan),
        views_hold(*plan, views, sources),
    ensures
        read_query(plan_sql(*plan)->Ok_0) == Some((q, Seq::<char>::empty())),
        query_table(q, views) == plan_table(*plan, sources),
{
    let text = text_in(plan)->Ok_0;
    plan_is_read(plan);
    use_query(text, query_in(plan), Seq::empty());
    assert(text + Seq::<char>::empty() =~= text);
    query_gives_the_table(plan, views, sources);
    query_in(plan)
}

/// The columns of a plan's query are named by the plan's schema, each at its position.
pub proof fn query_columns_are_named_by_the_schema(plan: Arc<LocalPhysicalPlan>) -> (q: SqlQuery)
    requires
        plan_sql(*plan) is Ok,
        is_sound(*plan),
    ensures
        read_query(plan_sql(*plan)->Ok_0) == Some((q, Seq::<char>::empty())),
        query_names(q) == plan.output().names(),
{
    let text = text_in(plan)->Ok_0;
    plan_is_read(plan);
    use_query(text, query_in(plan), Seq::empty());
    assert(text + Seq::<char>::empty() =~= text);
    let q = query_in(plan);
    match *plan {
        LocalPhysicalPlan::HashAggregate(a) => {
            collected_items(group_items(a));
            grouped_table(a, Seq::empty());
        },
        LocalPhysicalPlan::UnGroupedAggregate(a) => ungrouped_table(a, Seq::empty()),
        _ => {},
    }
    assert(query_names(q) =~= plan.output().names());
    q
}

/// The names of a query.
pub open spec fn query_names(q: SqlQuery) -> Seq<Seq<char>> {
    match q {
        SqlQuery::View(items, _) => item_names(items),
        SqlQuery::Select(items, _, _, _) => item_names(items),
        SqlQuery::Join(items, _, _, _) => item_names(items),
    }
}

} // verus!
