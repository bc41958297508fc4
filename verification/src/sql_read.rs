//! Reading SQL: what the text of an expression or a query stands for, and what it gives.
//!
//! This is the part of SQL that plans are translated to. An expression is a quoted column, a constant, or
//! an operation in parentheses; a query selects items from a view, from a query, or from the inner join
//! of two queries.
use vstd::prelude::*;

use crate::sql_value::{
    both, compared, converted, divided, either, greatest, is_equal_value, is_less_value, least, mean,
    minus, negated, null_test, numeral_value, opposite, plus, present, times, total, whole, Kind,
    Value,
};

verus! {

/// An expression.
pub enum SqlExpr {
    Column(Seq<char>),
    Constant(Value),
    /// The symbol of an operator, and its operands.
    Binary(Seq<char>, Box<SqlExpr>, Box<SqlExpr>),
    Not(Box<SqlExpr>),
    IsNull(Box<SqlExpr>),
    IsNotNull(Box<SqlExpr>),
}

/// The length of the longest beginning of the text in which every character passes.
pub open spec fn span(s: Seq<char>, passes: spec_fn(char) -> bool) -> nat
    decreases s.len(),
{
    if s.len() == 0 || !passes(s[0]) {
        0
    } else {
        1 + span(s.drop_first(), passes)
    }
}

/// The text begins with the given one.
pub open spec fn begins(s: Seq<char>, with: Seq<char>) -> bool {
    s.len() >= with.len() && s.take(with.len() as int) == with
}

/// The text behind its beginning.
pub open spec fn behind(s: Seq<char>, with: Seq<char>) -> Seq<char> {
    s.skip(with.len() as int)
}

/// A character of a name in double quotes.
pub open spec fn in_name() -> spec_fn(char) -> bool {
    |c: char| c != '"'
}

/// A character of a numeral.
pub open spec fn in_numeral() -> spec_fn(char) -> bool {
    |c: char| '0' <= c <= '9' || c == '.' || c == '-'
}

/// A character of a word.
pub open spec fn in_word() -> spec_fn(char) -> bool {
    |c: char| c != ' ' && c != ')' && c != '('
}

/// Reads a name in double quotes.
pub open spec fn read_name(s: Seq<char>) -> Option<(Seq<char>, Seq<char>)> {
    if s.len() == 0 || s[0] != '"' {
        None
    } else {
        let n = span(s.drop_first(), in_name());
        if n + 1 < s.len() {
            Some((s.subrange(1, n as int + 1), s.skip(n as int + 2)))
        } else {
            None
        }
    }
}

/// Reads the inside of a text in single quotes, up to the quote that ends it; a pair of quotes is one.
pub open spec fn read_quoted(s: Seq<char>) -> Option<(Seq<char>, Seq<char>)>
    decreases s.len(),
{
    if s.len() == 0 {
        None
    } else if s[0] != '\'' {
        match read_quoted(s.drop_first()) {
            Some((inside, rest)) => Some((seq![s[0]] + inside, rest)),
            None => None,
        }
    } else if s.len() >= 2 && s[1] == '\'' {
        match read_quoted(s.skip(2)) {
            Some((inside, rest)) => Some((seq!['\''] + inside, rest)),
            None => None,
        }
    } else {
        Some((Seq::empty(), s.skip(1)))
    }
}

/// Reads a word.
pub open spec fn read_word(s: Seq<char>) -> (Seq<char>, Seq<char>) {
    let n = span(s, in_word()) as int;
    (s.take(n), s.skip(n))
}

/// Reads an expression.
pub open spec fn read_expr(s: Seq<char>) -> Option<(SqlExpr, Seq<char>)>
    decreases s.len(),
{
    if s.len() == 0 {
        None
    } else if s[0] == '"' {
        match read_name(s) {
            Some((name, rest)) => Some((SqlExpr::Column(name), rest)),
            None => None,
        }
    } else if s[0] == '\'' {
        match read_quoted(s.drop_first()) {
            Some((text, rest)) => Some((SqlExpr::Constant(Value::Text(text)), rest)),
            None => None,
        }
    } else if begins(s, "(NOT "@) {
        let inner = behind(s, "(NOT "@);
        if inner.len() >= s.len() {
            None
        } else {
            match read_expr(inner) {
                Some((e, rest)) => if begins(rest, ")"@) {
                    Some((SqlExpr::Not(Box::new(e)), behind(rest, ")"@)))
                } else {
                    None
                },
                None => None,
            }
        }
    } else if s[0] == '(' {
        match read_expr(s.drop_first()) {
            Some((e, rest)) => if begins(rest, " IS NULL)"@) {
                Some((SqlExpr::IsNull(Box::new(e)), behind(rest, " IS NULL)"@)))
            } else if begins(rest, " IS NOT NULL)"@) {
                Some((SqlExpr::IsNotNull(Box::new(e)), behind(rest, " IS NOT NULL)"@)))
            } else if begins(rest, " "@) {
                let (symbol, more) = read_word(behind(rest, " "@));
                let right = behind(more, " "@);
                if begins(more, " "@) && right.len() < s.len() {
                    match read_expr(right) {
                        Some((f, end)) => if begins(end, ")"@) {
                            Some(
                                (
                                    SqlExpr::Binary(symbol, Box::new(e), Box::new(f)),
                                    behind(end, ")"@),
                                ),
                            )
                        } else {
                            None
                        },
                        None => None,
                    }
                } else {
                    None
                }
            } else {
                None
            },
            None => None,
        }
    } else if begins(s, "TRUE"@) {
        Some((SqlExpr::Constant(Value::Truth(true)), behind(s, "TRUE"@)))
    } else if begins(s, "FALSE"@) {
        Some((SqlExpr::Constant(Value::Truth(false)), behind(s, "FALSE"@)))
    } else if begins(s, "NULL"@) {
        Some((SqlExpr::Constant(Value::Null), behind(s, "NULL"@)))
    } else {
        let n = span(s, in_numeral()) as int;
        if n > 0 {
            Some((SqlExpr::Constant(numeral_value(s.take(n))), s.skip(n)))
        } else {
            None
        }
    }
}

/// What the symbol of an operator gives for two values.
pub open spec fn symbol_value(symbol: Seq<char>, a: Value, b: Value) -> Value {
    if symbol == "="@ {
        compared(a, b, is_equal_value(a, b))
    } else if symbol == "!="@ {
        compared(a, b, negated(is_equal_value(a, b)))
    } else if symbol == "<"@ {
        compared(a, b, is_less_value(a, b))
    } else if symbol == ">"@ {
        compared(a, b, is_less_value(b, a))
    } else if symbol == "<="@ {
        compared(a, b, negated(is_less_value(b, a)))
    } else if symbol == ">="@ {
        compared(a, b, negated(is_less_value(a, b)))
    } else if symbol == "AND"@ {
        both(a, b)
    } else if symbol == "OR"@ {
        either(a, b)
    } else if symbol == "+"@ {
        plus(a, b)
    } else if symbol == "-"@ {
        minus(a, b)
    } else if symbol == "*"@ {
        times(a, b)
    } else if symbol == "/"@ {
        divided(a, b)
    } else {
        Value::Undefined
    }
}

/// The value in the column of that name.
pub open spec fn named_value(names: Seq<Seq<char>>, row: Seq<Value>, name: Seq<char>) -> Value {
    if names.contains(name) {
        row[choose|i: int| 0 <= i < names.len() && names[i] == name]
    } else {
        Value::Undefined
    }
}

/// The value of an expression for a row under column names.
pub open spec fn sql_value(e: SqlExpr, names: Seq<Seq<char>>, row: Seq<Value>) -> Value
    decreases e,
{
    match e {
        SqlExpr::Column(name) => named_value(names, row, name),
        SqlExpr::Constant(v) => v,
        SqlExpr::Binary(symbol, l, r) => symbol_value(
            symbol,
            sql_value(*l, names, row),
            sql_value(*r, names, row),
        ),
        SqlExpr::Not(inner) => opposite(sql_value(*inner, names, row)),
        SqlExpr::IsNull(inner) => null_test(sql_value(*inner, names, row)),
        SqlExpr::IsNotNull(inner) => opposite(null_test(sql_value(*inner, names, row))),
    }
}

/// The call of an aggregate function, with its argument; without one it is on the rows themselves.
pub struct SqlCall {
    pub func: Seq<char>,
    pub arg: Option<SqlExpr>,
}

/// What is selected: an expression, a column of one side of a join (the left one where the flag is set),
/// or a call whose value is converted to a kind.
pub enum Selected {
    Plain(SqlExpr),
    Side(bool, Seq<char>),
    Call(SqlCall, Option<Kind>),
}

/// An item of a select list, and the name of its column.
pub struct SqlItem {
    pub value: Selected,
    pub name: Seq<char>,
}

/// The equality of a left and a right column. Two nulls match where it is null-safe.
pub struct SqlKey {
    pub left: Seq<char>,
    pub right: Seq<char>,
    pub null_safe: bool,
}

/// A query.
pub enum SqlQuery {
    /// From a view.
    View(Seq<SqlItem>, Seq<char>),
    /// From a query, with a filter or with groups.
    Select(Seq<SqlItem>, Box<SqlQuery>, Option<SqlExpr>, Option<Seq<SqlExpr>>),
    /// From the inner join of two queries.
    Join(Seq<SqlItem>, Box<SqlQuery>, Box<SqlQuery>, Seq<SqlKey>),
}

/// Reads the call of an aggregate function.
pub open spec fn read_call(s: Seq<char>) -> Option<(SqlCall, Seq<char>)> {
    let (func, more) = read_word(s);
    if begins(more, "(*)"@) {
        Some((SqlCall { func, arg: None }, behind(more, "(*)"@)))
    } else if begins(more, "("@) {
        match read_expr(behind(more, "("@)) {
            Some((e, rest)) => if begins(rest, ")"@) {
                Some((SqlCall { func, arg: Some(e) }, behind(rest, ")"@)))
            } else {
                None
            },
            None => None,
        }
    } else {
        None
    }
}

/// The kind that the name of a type stands for.
pub open spec fn named_kind(word: Seq<char>) -> Option<Kind> {
    if word == "TINYINT"@ {
        Some(Kind::Integer(8, true))
    } else if word == "SMALLINT"@ {
        Some(Kind::Integer(16, true))
    } else if word == "INTEGER"@ {
        Some(Kind::Integer(32, true))
    } else if word == "BIGINT"@ {
        Some(Kind::Integer(64, true))
    } else if word == "UTINYINT"@ {
        Some(Kind::Integer(8, false))
    } else if word == "USMALLINT"@ {
        Some(Kind::Integer(16, false))
    } else if word == "UINTEGER"@ {
        Some(Kind::Integer(32, false))
    } else if word == "UBIGINT"@ {
        Some(Kind::Integer(64, false))
    } else if word == "FLOAT"@ {
        Some(Kind::Float(32))
    } else if word == "DOUBLE"@ {
        Some(Kind::Float(64))
    } else if word == "VARCHAR"@ {
        Some(Kind::Text)
    } else {
        None
    }
}

/// Reads what is selected.
pub open spec fn read_selected(s: Seq<char>) -> Option<(Selected, Seq<char>)> {
    if begins(s, "l."@) {
        match read_name(behind(s, "l."@)) {
            Some((name, rest)) => Some((Selected::Side(true, name), rest)),
            None => None,
        }
    } else if begins(s, "r."@) {
        match read_name(behind(s, "r."@)) {
            Some((name, rest)) => Some((Selected::Side(false, name), rest)),
            None => None,
        }
    } else if begins(s, "CAST("@) {
        match read_call(behind(s, "CAST("@)) {
            Some((call, rest)) => if begins(rest, " AS "@) {
                let (word, end) = read_word(behind(rest, " AS "@));
                if begins(end, ")"@) && named_kind(word) is Some {
                    Some((Selected::Call(call, named_kind(word)), behind(end, ")"@)))
                } else {
                    None
                }
            } else {
                None
            },
            None => None,
        }
    } else if s.len() > 0 && (s[0] == 'C' || s[0] == 'S' || s[0] == 'M' || s[0] == 'A') {
        match read_call(s) {
            Some((call, rest)) => Some((Selected::Call(call, None), rest)),
            None => None,
        }
    } else {
        match read_expr(s) {
            Some((e, rest)) => Some((Selected::Plain(e), rest)),
            None => None,
        }
    }
}

/// Reads an item of a select list. A column without another name has its own.
pub open spec fn read_item(s: Seq<char>) -> Option<(SqlItem, Seq<char>)> {
    match read_selected(s) {
        Some((value, rest)) => if begins(rest, " AS "@) {
            match read_name(behind(rest, " AS "@)) {
                Some((name, end)) => Some((SqlItem { value, name }, end)),
                None => None,
            }
        } else {
            match value {
                Selected::Plain(SqlExpr::Column(name)) => Some((SqlItem { value, name }, rest)),
                _ => None,
            }
        },
        None => None,
    }
}

/// Reads a select list.
pub open spec fn read_items(s: Seq<char>) -> Option<(Seq<SqlItem>, Seq<char>)>
    decreases s.len(),
{
    match read_item(s) {
        Some((item, rest)) => if begins(rest, ", "@) {
            let more = behind(rest, ", "@);
            if more.len() < s.len() {
                match read_items(more) {
                    Some((items, end)) => Some((seq![item] + items, end)),
                    None => None,
                }
            } else {
                None
            }
        } else {
            Some((seq![item], rest))
        },
        None => None,
    }
}

/// Reads a list of expressions.
pub open spec fn read_exprs(s: Seq<char>) -> Option<(Seq<SqlExpr>, Seq<char>)>
    decreases s.len(),
{
    match read_expr(s) {
        Some((e, rest)) => if begins(rest, ", "@) {
            let more = behind(rest, ", "@);
            if more.len() < s.len() {
                match read_exprs(more) {
                    Some((exprs, end)) => Some((seq![e] + exprs, end)),
                    None => None,
                }
            } else {
                None
            }
        } else {
            Some((seq![e], rest))
        },
        None => None,
    }
}

/// Reads the equality of a left and a right column.
pub open spec fn read_key(s: Seq<char>) -> Option<(SqlKey, Seq<char>)> {
    if !begins(s, "l."@) {
        None
    } else {
        match read_name(behind(s, "l."@)) {
            Some((left, rest)) => if begins(rest, " = r."@) {
                match read_name(behind(rest, " = r."@)) {
                    Some((right, end)) => Some((SqlKey { left, right, null_safe: false }, end)),
                    None => None,
                }
            } else if begins(rest, " IS NOT DISTINCT FROM r."@) {
                match read_name(behind(rest, " IS NOT DISTINCT FROM r."@)) {
                    Some((right, end)) => Some((SqlKey { left, right, null_safe: true }, end)),
                    None => None,
                }
            } else {
                None
            },
            None => None,
        }
    }
}

/// Reads a conjunction of equalities.
pub open spec fn read_keys(s: Seq<char>) -> Option<(Seq<SqlKey>, Seq<char>)>
    decreases s.len(),
{
    match read_key(s) {
        Some((key, rest)) => if begins(rest, " AND "@) {
            let more = behind(rest, " AND "@);
            if more.len() < s.len() {
                match read_keys(more) {
                    Some((keys, end)) => Some((seq![key] + keys, end)),
                    None => None,
                }
            } else {
                None
            }
        } else {
            Some((seq![key], rest))
        },
        None => None,
    }
}

/// Reads what follows a query in brackets, from which the items are selected: a filter, groups, or
/// nothing more.
pub open spec fn read_tail(items: Seq<SqlItem>, from: SqlQuery, s: Seq<char>) -> Option<
    (SqlQuery, Seq<char>),
> {
    if begins(s, " WHERE "@) {
        match read_expr(behind(s, " WHERE "@)) {
            Some((filter, end)) => Some(
                (SqlQuery::Select(items, Box::new(from), Some(filter), None), end),
            ),
            None => None,
        }
    } else if begins(s, " GROUP BY "@) {
        match read_exprs(behind(s, " GROUP BY "@)) {
            Some((groups, end)) => Some(
                (SqlQuery::Select(items, Box::new(from), None, Some(groups)), end),
            ),
            None => None,
        }
    } else {
        Some((SqlQuery::Select(items, Box::new(from), None, None), s))
    }
}

/// Reads a query.
pub open spec fn read_query(s: Seq<char>) -> Option<(SqlQuery, Seq<char>)>
    decreases s.len(),
{
    if !begins(s, "SELECT "@) {
        None
    } else {
        match read_items(behind(s, "SELECT "@)) {
            Some((items, rest)) => if !begins(rest, " FROM "@) {
                None
            } else {
                let from = behind(rest, " FROM "@);
                if begins(from, "("@) {
                    let inner = behind(from, "("@);
                    if inner.len() >= s.len() {
                        None
                    } else {
                        match read_query(inner) {
                            Some((first, more)) => if !begins(more, ")"@) {
                                None
                            } else {
                                let tail = behind(more, ")"@);
                                if begins(tail, " AS l INNER JOIN ("@) {
                                    let other = behind(tail, " AS l INNER JOIN ("@);
                                    if other.len() >= s.len() {
                                        None
                                    } else {
                                        match read_query(other) {
                                            Some((second, end)) => if begins(
                                                end,
                                                ") AS r ON "@,
                                            ) {
                                                match read_keys(behind(end, ") AS r ON "@)) {
                                                    Some((keys, last)) => Some(
                                                        (
                                                            SqlQuery::Join(
                                                                items,
                                                                Box::new(first),
                                                                Box::new(second),
                                                                keys,
                                                            ),
                                                            last,
                                                        ),
                                                    ),
                                                    None => None,
                                                }
                                            } else {
                                                None
                                            },
                                            None => None,
                                        }
                                    }
                                } else {
                                    read_tail(items, first, tail)
                                }
                            },
                            None => None,
                        }
                    }
                } else {
                    let (view, end) = read_word(from);
                    Some((SqlQuery::View(items, view), end))
                }
            },
            None => None,
        }
    }
}

/// Rows under column names.
#[verifier::ext_equal]
pub struct Table {
    pub names: Seq<Seq<char>>,
    pub rows: Seq<Seq<Value>>,
}

/// The rows that are there, in order.
pub open spec fn somes(rows: Seq<Option<Seq<Value>>>) -> Seq<Seq<Value>>
    decreases rows.len(),
{
    if rows.len() == 0 {
        Seq::empty()
    } else {
        match rows.last() {
            Some(row) => somes(rows.drop_last()).push(row),
            None => somes(rows.drop_last()),
        }
    }
}

/// The rows that are there, list by list.
pub open spec fn all_somes(lists: Seq<Seq<Option<Seq<Value>>>>) -> Seq<Seq<Value>>
    decreases lists.len(),
{
    if lists.len() == 0 {
        Seq::empty()
    } else {
        all_somes(lists.drop_last()) + somes(lists.last())
    }
}

/// The keys, each once, in the order in which they first appear.
pub open spec fn distinct(keys: Seq<Seq<Value>>) -> Seq<Seq<Value>>
    decreases keys.len(),
{
    if keys.len() == 0 {
        Seq::empty()
    } else {
        let before = distinct(keys.drop_last());
        if before.contains(keys.last()) {
            before
        } else {
            before.push(keys.last())
        }
    }
}

/// The rows at the places of the key.
pub open spec fn keyed_rows(
    rows: Seq<Seq<Value>>,
    keys: Seq<Seq<Value>>,
    key: Seq<Value>,
) -> Seq<Option<Seq<Value>>> {
    Seq::new(
        rows.len(),
        |i: int|
            if keys[i] == key {
                Some(rows[i])
            } else {
                None
            },
    )
}

/// The rows whose key is the given one.
pub open spec fn rows_with(rows: Seq<Seq<Value>>, keys: Seq<Seq<Value>>, key: Seq<Value>) -> Seq<
    Seq<Value>,
> {
    somes(keyed_rows(rows, keys, key))
}

/// The values of an expression for the rows.
pub open spec fn sql_values(e: SqlExpr, names: Seq<Seq<char>>, rows: Seq<Seq<Value>>) -> Seq<Value> {
    Seq::new(rows.len(), |i: int| sql_value(e, names, rows[i]))
}

/// What the call of an aggregate function gives for the rows.
pub open spec fn call_value(call: SqlCall, names: Seq<Seq<char>>, rows: Seq<Seq<Value>>) -> Value {
    match call.arg {
        None => if call.func == "COUNT"@ {
            whole(rows.len() as int)
        } else {
            Value::Undefined
        },
        Some(e) => {
            let values = present(sql_values(e, names, rows));
            if call.func == "COUNT"@ {
                whole(values.len() as int)
            } else if call.func == "SUM"@ {
                total(values)
            } else if call.func == "MIN"@ {
                least(values)
            } else if call.func == "MAX"@ {
                greatest(values)
            } else if call.func == "AVG"@ {
                mean(values)
            } else {
                Value::Undefined
            }
        },
    }
}

/// The names of the items.
pub open spec fn item_names(items: Seq<SqlItem>) -> Seq<Seq<char>> {
    Seq::new(items.len(), |k: int| items[k].name)
}

/// The value of an item for a row.
pub open spec fn item_value(value: Selected, names: Seq<Seq<char>>, row: Seq<Value>) -> Value {
    match value {
        Selected::Plain(e) => sql_value(e, names, row),
        _ => Value::Undefined,
    }
}

/// The values of the items for a row.
pub open spec fn item_row(items: Seq<SqlItem>, names: Seq<Seq<char>>, row: Seq<Value>) -> Seq<Value> {
    Seq::new(items.len(), |k: int| item_value(items[k].value, names, row))
}

/// The values of the items for a group of rows: an expression is the same for all of them.
pub open spec fn group_row(
    items: Seq<SqlItem>,
    names: Seq<Seq<char>>,
    rows: Seq<Seq<Value>>,
) -> Seq<Value> {
    Seq::new(
        items.len(),
        |k: int|
            match items[k].value {
                Selected::Plain(e) => sql_value(e, names, rows[0]),
                Selected::Call(call, kind) => converted(call_value(call, names, rows), kind),
                Selected::Side(_, _) => Value::Undefined,
            },
    )
}

/// Some item is the call of an aggregate function.
pub open spec fn has_call(items: Seq<SqlItem>) -> bool {
    exists|k: int| 0 <= k < items.len() && (#[trigger] items[k]).value is Call
}

/// The key of a row for a list of expressions.
pub open spec fn sql_key(exprs: Seq<SqlExpr>, names: Seq<Seq<char>>, row: Seq<Value>) -> Seq<Value> {
    Seq::new(exprs.len(), |k: int| sql_value(exprs[k], names, row))
}

/// The values match: they are equal, or both null where that matches.
pub open spec fn keys_match(a: Value, b: Value, null_safe: bool) -> bool {
    compared(a, b, is_equal_value(a, b)) == Value::Truth(true) || (null_safe && a is Null && b is Null)
}

/// The rows match in all keys.
pub open spec fn rows_match(keys: Seq<SqlKey>, l: Table, lrow: Seq<Value>, r: Table, rrow: Seq<Value>) -> bool {
    forall|k: int|
        0 <= k < keys.len() ==> keys_match(
            named_value(l.names, lrow, (#[trigger] keys[k]).left),
            named_value(r.names, rrow, keys[k].right),
            keys[k].null_safe,
        )
}

/// The values of the items for a pair of rows.
pub open spec fn pair_row(
    items: Seq<SqlItem>,
    l: Table,
    lrow: Seq<Value>,
    r: Table,
    rrow: Seq<Value>,
) -> Seq<Value> {
    Seq::new(
        items.len(),
        |k: int|
            match items[k].value {
                Selected::Side(left, name) => if left {
                    named_value(l.names, lrow, name)
                } else {
                    named_value(r.names, rrow, name)
                },
                _ => Value::Undefined,
            },
    )
}

/// The values of the items for each row.
pub open spec fn item_rows(
    items: Seq<SqlItem>,
    names: Seq<Seq<char>>,
    rows: Seq<Seq<Value>>,
) -> Seq<Seq<Value>> {
    Seq::new(rows.len(), |i: int| item_row(items, names, rows[i]))
}

/// The rows for which the expression is true.
pub open spec fn filtered(e: SqlExpr, names: Seq<Seq<char>>, rows: Seq<Seq<Value>>) -> Seq<
    Option<Seq<Value>>,
> {
    Seq::new(
        rows.len(),
        |i: int|
            if sql_value(e, names, rows[i]) == Value::Truth(true) {
                Some(rows[i])
            } else {
                None
            },
    )
}

/// The key of each row for a list of expressions.
pub open spec fn sql_keys(
    exprs: Seq<SqlExpr>,
    names: Seq<Seq<char>>,
    rows: Seq<Seq<Value>>,
) -> Seq<Seq<Value>> {
    Seq::new(rows.len(), |i: int| sql_key(exprs, names, rows[i]))
}

/// A row for each group of rows with the same key.
pub open spec fn group_rows(
    items: Seq<SqlItem>,
    names: Seq<Seq<char>>,
    rows: Seq<Seq<Value>>,
    keys: Seq<Seq<Value>>,
) -> Seq<Seq<Value>> {
    Seq::new(
        distinct(keys).len(),
        |g: int| group_row(items, names, rows_with(rows, keys, distinct(keys)[g])),
    )
}

/// The rows of a left row with each right row that it matches.
pub open spec fn pairs_of(
    items: Seq<SqlItem>,
    keys: Seq<SqlKey>,
    l: Table,
    lrow: Seq<Value>,
    r: Table,
) -> Seq<Option<Seq<Value>>> {
    Seq::new(
        r.rows.len(),
        |j: int|
            if rows_match(keys, l, lrow, r, r.rows[j]) {
                Some(pair_row(items, l, lrow, r, r.rows[j]))
            } else {
                None
            },
    )
}

/// The rows of all left rows with the right rows that they match.
pub open spec fn all_pairs(items: Seq<SqlItem>, keys: Seq<SqlKey>, l: Table, r: Table) -> Seq<
    Seq<Option<Seq<Value>>>,
> {
    Seq::new(l.rows.len(), |i: int| pairs_of(items, keys, l, l.rows[i], r))
}

/// What a query gives, where `views` gives the table of a view.
pub open spec fn query_table(q: SqlQuery, views: spec_fn(Seq<char>) -> Table) -> Table
    decreases q,
{
    match q {
        SqlQuery::View(items, view) => {
            let t = views(view);
            Table { names: item_names(items), rows: item_rows(items, t.names, t.rows) }
        },
        SqlQuery::Select(items, from, filter, groups) => {
            let t = query_table(*from, views);
            let kept = match filter {
                Some(e) => somes(filtered(e, t.names, t.rows)),
                None => t.rows,
            };
            let rows = match groups {
                Some(exprs) => group_rows(items, t.names, kept, sql_keys(exprs, t.names, kept)),
                None => if has_call(items) {
                    seq![group_row(items, t.names, kept)]
                } else {
                    item_rows(items, t.names, kept)
                },
            };
            Table { names: item_names(items), rows }
        },
        SqlQuery::Join(items, left, right, keys) => {
            let l = query_table(*left, views);
            let r = query_table(*right, views);
            Table { names: item_names(items), rows: all_somes(all_pairs(items, keys, l, r)) }
        },
    }
}

} // verus!
