//! What expressions, operators and aggregations give: the values that rows hold, and what is computed of
//! them. Numbers are exact, so that rounding and overflow are left out.
use std::sync::Arc;
use vstd::arithmetic::power::pow;
use vstd::prelude::*;

use crate::expr::{AggExpr, Column, CountMode, Expr, Literal, Operator};
use crate::schema::DataType;
use crate::text::decimal_value;

verus! {

/// A value. A number is a fraction with a denominator above zero. `Undefined` stands for what nothing is
/// said of: a number divided by zero, or values that an operation does not apply to.
pub enum Value {
    Null,
    Truth(bool),
    Number(int, int),
    Text(Seq<char>),
    Undefined,
}

/// A whole number.
pub open spec fn whole(n: int) -> Value {
    Value::Number(n, 1)
}

/// The first text comes before the second, character by character.
pub open spec fn text_less(a: Seq<char>, b: Seq<char>) -> bool
    decreases a.len(),
{
    if b.len() == 0 {
        false
    } else if a.len() == 0 {
        true
    } else if a[0] != b[0] {
        a[0] < b[0]
    } else {
        text_less(a.drop_first(), b.drop_first())
    }
}

/// Whether the first value is less than the second, where they can be compared.
pub open spec fn is_less_value(a: Value, b: Value) -> Option<bool> {
    match (a, b) {
        (Value::Number(n, d), Value::Number(m, e)) => Some(n * e < m * d),
        (Value::Text(s), Value::Text(t)) => Some(text_less(s, t)),
        (Value::Truth(p), Value::Truth(q)) => Some(!p && q),
        _ => None,
    }
}

/// Whether the values are equal, where they can be compared.
pub open spec fn is_equal_value(a: Value, b: Value) -> Option<bool> {
    match (a, b) {
        (Value::Number(n, d), Value::Number(m, e)) => Some(n * e == m * d),
        (Value::Text(s), Value::Text(t)) => Some(s == t),
        (Value::Truth(p), Value::Truth(q)) => Some(p == q),
        _ => None,
    }
}

/// The outcome of a comparison: unknown where an operand is null.
pub open spec fn compared(a: Value, b: Value, outcome: Option<bool>) -> Value {
    match (a, b, outcome) {
        (Value::Undefined, _, _) | (_, Value::Undefined, _) => Value::Undefined,
        (Value::Null, _, _) | (_, Value::Null, _) => Value::Null,
        (_, _, Some(t)) => Value::Truth(t),
        (_, _, None) => Value::Undefined,
    }
}

/// The other outcome.
pub open spec fn negated(outcome: Option<bool>) -> Option<bool> {
    match outcome {
        Some(t) => Some(!t),
        None => None,
    }
}

/// A conjunction: false where an operand is, and unknown where one is null.
pub open spec fn both(a: Value, b: Value) -> Value {
    match (a, b) {
        (Value::Truth(p), Value::Truth(q)) => Value::Truth(p && q),
        (Value::Truth(p), Value::Null) | (Value::Null, Value::Truth(p)) => if p {
            Value::Null
        } else {
            Value::Truth(false)
        },
        (Value::Null, Value::Null) => Value::Null,
        _ => Value::Undefined,
    }
}

/// A disjunction: true where an operand is, and unknown where one is null.
pub open spec fn either(a: Value, b: Value) -> Value {
    match (a, b) {
        (Value::Truth(p), Value::Truth(q)) => Value::Truth(p || q),
        (Value::Truth(p), Value::Null) | (Value::Null, Value::Truth(p)) => if p {
            Value::Truth(true)
        } else {
            Value::Null
        },
        (Value::Null, Value::Null) => Value::Null,
        _ => Value::Undefined,
    }
}

/// A negation, unknown for a null.
pub open spec fn opposite(a: Value) -> Value {
    match a {
        Value::Truth(p) => Value::Truth(!p),
        Value::Null => Value::Null,
        _ => Value::Undefined,
    }
}

/// Whether the value is null.
pub open spec fn null_test(a: Value) -> Value {
    match a {
        Value::Undefined => Value::Undefined,
        Value::Null => Value::Truth(true),
        _ => Value::Truth(false),
    }
}

/// A computation on two numbers, null where one of them is.
pub open spec fn computed(a: Value, b: Value, f: spec_fn(int, int, int, int) -> Value) -> Value {
    match (a, b) {
        (Value::Number(n, d), Value::Number(m, e)) => f(n, d, m, e),
        (Value::Number(_, _), Value::Null) => Value::Null,
        (Value::Null, Value::Number(_, _)) => Value::Null,
        (Value::Null, Value::Null) => Value::Null,
        _ => Value::Undefined,
    }
}

/// The sum of two numbers.
pub open spec fn plus(a: Value, b: Value) -> Value {
    computed(a, b, |n: int, d: int, m: int, e: int| Value::Number(n * e + m * d, d * e))
}

/// The difference of two numbers.
pub open spec fn minus(a: Value, b: Value) -> Value {
    computed(a, b, |n: int, d: int, m: int, e: int| Value::Number(n * e - m * d, d * e))
}

/// The product of two numbers.
pub open spec fn times(a: Value, b: Value) -> Value {
    computed(a, b, |n: int, d: int, m: int, e: int| Value::Number(n * m, d * e))
}

/// The quotient of two numbers.
pub open spec fn divided(a: Value, b: Value) -> Value {
    computed(
        a,
        b,
        |n: int, d: int, m: int, e: int|
            if m > 0 {
                Value::Number(n * e, d * m)
            } else if m < 0 {
                Value::Number(-(n * e), -(d * m))
            } else {
                Value::Undefined
            },
    )
}

/// What an operator gives for two values.
pub open spec fn operator_value(op: Operator, a: Value, b: Value) -> Value {
    match op {
        Operator::Eq => compared(a, b, is_equal_value(a, b)),
        Operator::NotEq => compared(a, b, negated(is_equal_value(a, b))),
        Operator::Lt => compared(a, b, is_less_value(a, b)),
        Operator::LtEq => compared(a, b, negated(is_less_value(b, a))),
        Operator::Gt => compared(a, b, is_less_value(b, a)),
        Operator::GtEq => compared(a, b, negated(is_less_value(a, b))),
        Operator::And => both(a, b),
        Operator::Or => either(a, b),
        Operator::Plus => plus(a, b),
        Operator::Minus => minus(a, b),
        Operator::Multiply => times(a, b),
        Operator::TrueDivide => divided(a, b),
        _ => Value::Undefined,
    }
}

/// The length of the text before its first point.
pub open spec fn before_point(s: Seq<char>) -> nat
    decreases s.len(),
{
    if s.len() == 0 || s[0] == '.' {
        0
    } else {
        1 + before_point(s.drop_first())
    }
}

/// The number that decimal digits with at most one point among them stand for.
pub open spec fn unsigned_value(s: Seq<char>) -> Value {
    let n = before_point(s);
    if n < s.len() {
        let fraction = s.skip(n as int + 1);
        Value::Number(
            decimal_value(s.take(n as int) + fraction) as int,
            pow(10, fraction.len()),
        )
    } else {
        whole(decimal_value(s) as int)
    }
}

/// The number that a decimal numeral stands for.
pub open spec fn numeral_value(s: Seq<char>) -> Value {
    if s.len() > 0 && s[0] == '-' {
        match unsigned_value(s.drop_first()) {
            Value::Number(n, d) => Value::Number(-n, d),
            other => other,
        }
    } else {
        unsigned_value(s)
    }
}

/// The value of a constant.
pub open spec fn literal_value(lit: Literal) -> Value {
    match lit {
        Literal::Null => Value::Null,
        Literal::Boolean(v) => Value::Truth(v),
        Literal::Utf8(s) => Value::Text(s@),
        Literal::Int8(v) => whole(v as int),
        Literal::Int16(v) => whole(v as int),
        Literal::Int32(v) => whole(v as int),
        Literal::Int64(v) => whole(v as int),
        Literal::UInt8(v) => whole(v as int),
        Literal::UInt16(v) => whole(v as int),
        Literal::UInt32(v) => whole(v as int),
        Literal::UInt64(v) => whole(v as int),
        Literal::Float32 { bits: _, text } => numeral_value(text@),
        Literal::Float64 { bits: _, text } => numeral_value(text@),
        Literal::Other(_) => Value::Undefined,
    }
}

/// The value of an expression for a row.
pub open spec fn expr_value(e: Expr, row: Seq<Value>) -> Value
    decreases e,
{
    match e {
        Expr::Column(Column::Bound(c)) => row[c.index as int],
        Expr::Column(_) => Value::Undefined,
        Expr::Literal(lit) => literal_value(lit),
        Expr::BinaryOp { op, left, right } => operator_value(
            op,
            expr_value(*left, row),
            expr_value(*right, row),
        ),
        Expr::Alias(inner, _) => expr_value(*inner, row),
        Expr::Not(inner) => opposite(expr_value(*inner, row)),
        Expr::IsNull(inner) => null_test(expr_value(*inner, row)),
        Expr::NotNull(inner) => opposite(null_test(expr_value(*inner, row))),
        Expr::Other(_) => Value::Undefined,
    }
}

/// The values that are not null, in order.
pub open spec fn present(values: Seq<Value>) -> Seq<Value>
    decreases values.len(),
{
    if values.len() == 0 {
        Seq::empty()
    } else if values.last() is Null {
        present(values.drop_last())
    } else {
        present(values.drop_last()).push(values.last())
    }
}

/// The sum of the values; null where there are none.
pub open spec fn total(values: Seq<Value>) -> Value
    decreases values.len(),
{
    if values.len() == 0 {
        Value::Null
    } else if values.len() == 1 {
        values[0]
    } else {
        plus(total(values.drop_last()), values.last())
    }
}

/// The least of the values; null where there are none.
pub open spec fn least(values: Seq<Value>) -> Value
    decreases values.len(),
{
    if values.len() == 0 {
        Value::Null
    } else if values.len() == 1 {
        values[0]
    } else {
        let first = least(values.drop_last());
        match is_less_value(values.last(), first) {
            Some(less) => if less {
                values.last()
            } else {
                first
            },
            None => Value::Undefined,
        }
    }
}

/// The greatest of the values; null where there are none.
pub open spec fn greatest(values: Seq<Value>) -> Value
    decreases values.len(),
{
    if values.len() == 0 {
        Value::Null
    } else if values.len() == 1 {
        values[0]
    } else {
        let first = greatest(values.drop_last());
        match is_less_value(first, values.last()) {
            Some(less) => if less {
                values.last()
            } else {
                first
            },
            None => Value::Undefined,
        }
    }
}

/// The mean of the values; null where there are none.
pub open spec fn mean(values: Seq<Value>) -> Value {
    if values.len() == 0 {
        Value::Null
    } else {
        divided(total(values), whole(values.len() as int))
    }
}

/// The values of an expression for the rows.
pub open spec fn expr_values(e: Arc<Expr>, rows: Seq<Seq<Value>>) -> Seq<Value> {
    Seq::new(rows.len(), |i: int| expr_value(*e, rows[i]))
}

/// What an aggregation gives for the rows. All but a count of rows leave nulls out.
pub open spec fn agg_value(agg: AggExpr, rows: Seq<Seq<Value>>) -> Value {
    match agg {
        AggExpr::Count(_, CountMode::All) => whole(rows.len() as int),
        AggExpr::Count(e, CountMode::Valid) => whole(present(expr_values(e, rows)).len() as int),
        AggExpr::Count(e, CountMode::Null) => whole(
            rows.len() - present(expr_values(e, rows)).len(),
        ),
        AggExpr::Sum(e) => total(present(expr_values(e, rows))),
        AggExpr::Min(e) => least(present(expr_values(e, rows))),
        AggExpr::Max(e) => greatest(present(expr_values(e, rows))),
        AggExpr::Mean(e) => mean(present(expr_values(e, rows))),
        AggExpr::Other(_) => Value::Undefined,
    }
}

/// A type that a value can be converted to: integers by their bits and whether they have a sign, floats
/// by their bits, and text.
pub enum Kind {
    Integer(nat, bool),
    Float(nat),
    Text,
}

/// The kind of a data type, where it has one.
pub open spec fn kind_of(dtype: DataType) -> Option<Kind> {
    match dtype {
        DataType::Int8 => Some(Kind::Integer(8, true)),
        DataType::Int16 => Some(Kind::Integer(16, true)),
        DataType::Int32 => Some(Kind::Integer(32, true)),
        DataType::Int64 => Some(Kind::Integer(64, true)),
        DataType::UInt8 => Some(Kind::Integer(8, false)),
        DataType::UInt16 => Some(Kind::Integer(16, false)),
        DataType::UInt32 => Some(Kind::Integer(32, false)),
        DataType::UInt64 => Some(Kind::Integer(64, false)),
        DataType::Float32 => Some(Kind::Float(32)),
        DataType::Float64 => Some(Kind::Float(64)),
        DataType::Utf8 => Some(Kind::Text),
        _ => None,
    }
}

/// The least number of an integer kind.
pub open spec fn least_integer(bits: nat, signed: bool) -> int {
    if signed {
        -pow(2, (bits - 1) as nat)
    } else {
        0
    }
}

/// The greatest number of an integer kind.
pub open spec fn greatest_integer(bits: nat, signed: bool) -> int {
    if signed {
        pow(2, (bits - 1) as nat) - 1
    } else {
        pow(2, bits) - 1
    }
}

/// A value, converted to a kind; without one it stays as it is. Only a whole number within its range is
/// an integer.
pub open spec fn converted(v: Value, kind: Option<Kind>) -> Value {
    match (v, kind) {
        (_, None) => v,
        (Value::Null, Some(_)) => Value::Null,
        (Value::Number(n, d), Some(Kind::Integer(bits, signed))) => if n % d == 0
            && least_integer(bits, signed) <= n / d <= greatest_integer(bits, signed) {
            v
        } else {
            Value::Undefined
        },
        (Value::Number(_, _), Some(Kind::Float(_))) => v,
        (Value::Text(_), Some(Kind::Text)) => v,
        _ => Value::Undefined,
    }
}

} // verus!
