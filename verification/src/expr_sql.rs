//! Translating expressions and aggregations to DuckDB SQL.
//!
//! The supported subset is translated exactly; anything outside it is refused with an error that
//! names the offender.
use std::sync::Arc;
use vstd::prelude::*;

use crate::error::{text_result, DaftError, ErrorView};
use crate::expr::{AggExpr, Column, CountMode, Expr, Literal, Operator, ResolvedColumn};
use crate::schema::Schema;
use crate::text::{debug_string, debug_text, decimal, signed_decimal, signed_to_string, unsigned_to_string};

verus! {

/// The error for an expression outside the supported subset.
pub open spec fn unsupported_view(what: Seq<char>) -> ErrorView {
    ErrorView::NotImplemented("duckdb POC: unsupported expression: "@ + what)
}

/// The error for an expression outside the supported subset.
fn unsupported(what: &str) -> (r: DaftError)
    ensures
        r@ == unsupported_view(what@),
{
    let mut m = "duckdb POC: unsupported expression: ".to_owned();
    m.append(what);
    DaftError::NotImplemented(m)
}

/// The name of an operator.
pub open spec fn operator_name(op: Operator) -> Seq<char> {
    match op {
        Operator::Eq => "Eq"@,
        Operator::EqNullSafe => "EqNullSafe"@,
        Operator::NotEq => "NotEq"@,
        Operator::Lt => "Lt"@,
        Operator::LtEq => "LtEq"@,
        Operator::Gt => "Gt"@,
        Operator::GtEq => "GtEq"@,
        Operator::Plus => "Plus"@,
        Operator::Minus => "Minus"@,
        Operator::Multiply => "Multiply"@,
        Operator::TrueDivide => "TrueDivide"@,
        Operator::FloorDivide => "FloorDivide"@,
        Operator::Modulus => "Modulus"@,
        Operator::And => "And"@,
        Operator::Or => "Or"@,
        Operator::Xor => "Xor"@,
        Operator::ShiftLeft => "ShiftLeft"@,
        Operator::ShiftRight => "ShiftRight"@,
    }
}

/// The SQL symbol of a supported operator.
pub open spec fn operator_symbol(op: Operator) -> Option<Seq<char>> {
    match op {
        Operator::Eq => Some("="@),
        Operator::NotEq => Some("!="@),
        Operator::Lt => Some("<"@),
        Operator::LtEq => Some("<="@),
        Operator::Gt => Some(">"@),
        Operator::GtEq => Some(">="@),
        Operator::And => Some("AND"@),
        Operator::Or => Some("OR"@),
        Operator::Plus => Some("+"@),
        Operator::Minus => Some("-"@),
        Operator::Multiply => Some("*"@),
        Operator::TrueDivide => Some("/"@),
        _ => None,
    }
}

/// The translation of an operator.
pub open spec fn operator_sql(op: Operator) -> Result<Seq<char>, ErrorView> {
    match operator_symbol(op) {
        Some(sym) => Ok(sym),
        None => Err(unsupported_view("operator "@ + operator_name(op))),
    }
}

fn unsupported_operator(name: &str) -> (r: DaftError)
    ensures
        r@ == unsupported_view("operator "@ + name@),
{
    let mut what = "operator ".to_owned();
    what.append(name);
    unsupported(what.as_str())
}

/// Translates an operator to its SQL symbol.
pub fn binop_to_sql(op: Operator) -> (r: Result<&'static str, DaftError>)
    ensures
        match r {
            Ok(s) => operator_sql(op) == Ok::<Seq<char>, ErrorView>(s@),
            Err(e) => operator_sql(op) == Err::<Seq<char>, ErrorView>(e@),
        },
{
    match op {
        Operator::Eq => Ok("="),
        Operator::NotEq => Ok("!="),
        Operator::Lt => Ok("<"),
        Operator::LtEq => Ok("<="),
        Operator::Gt => Ok(">"),
        Operator::GtEq => Ok(">="),
        Operator::And => Ok("AND"),
        Operator::Or => Ok("OR"),
        Operator::Plus => Ok("+"),
        Operator::Minus => Ok("-"),
        Operator::Multiply => Ok("*"),
        Operator::TrueDivide => Ok("/"),
        Operator::EqNullSafe => Err(unsupported_operator("EqNullSafe")),
        Operator::FloorDivide => Err(unsupported_operator("FloorDivide")),
        Operator::Modulus => Err(unsupported_operator("Modulus")),
        Operator::Xor => Err(unsupported_operator("Xor")),
        Operator::ShiftLeft => Err(unsupported_operator("ShiftLeft")),
        Operator::ShiftRight => Err(unsupported_operator("ShiftRight")),
    }
}

/// The text with every single quote written twice.
pub open spec fn doubled_quotes(s: Seq<char>) -> Seq<char>
    decreases s.len(),
{
    if s.len() == 0 {
        Seq::empty()
    } else if s[0] == '\'' {
        seq!['\'', '\''] + doubled_quotes(s.drop_first())
    } else {
        seq![s[0]] + doubled_quotes(s.drop_first())
    }
}

/// A single-quoted SQL string literal.
pub open spec fn string_literal(s: Seq<char>) -> Seq<char> {
    "'"@ + doubled_quotes(s) + "'"@
}

/// What the inside of a single-quoted SQL literal stands for: a pair of quotes is one quote, and a
/// lone quote would end the literal.
pub open spec fn literal_content(s: Seq<char>) -> Option<Seq<char>>
    decreases s.len(),
{
    if s.len() == 0 {
        Some(Seq::empty())
    } else if s[0] == '\'' {
        if s.len() >= 2 && s[1] == '\'' {
            match literal_content(s.subrange(2, s.len() as int)) {
                Some(rest) => Some(seq!['\''] + rest),
                None => None,
            }
        } else {
            None
        }
    } else {
        match literal_content(s.drop_first()) {
            Some(rest) => Some(seq![s[0]] + rest),
            None => None,
        }
    }
}

/// A quoted string reads back as the string it was made from: no character of it can end the
/// literal early.
pub proof fn quoted_text_reads_back(s: Seq<char>)
    ensures
        literal_content(doubled_quotes(s)) == Some(s),
    decreases s.len(),
{
    if s.len() > 0 {
        let rest = s.drop_first();
        quoted_text_reads_back(rest);
        let d = doubled_quotes(s);
        if s[0] == '\'' {
            assert(d.subrange(2, d.len() as int) =~= doubled_quotes(rest));
            assert(seq!['\''] + rest =~= s);
        } else {
            assert(d.drop_first() =~= doubled_quotes(rest));
            assert(seq![s[0]] + rest =~= s);
        }
    } else {
        assert(s =~= Seq::empty());
    }
}

fn double_quotes(s: &str) -> (r: String)
    ensures
        r@ == doubled_quotes(s@),
{
    let mut out = String::new();
    assert(s@.skip(0) =~= s@);
    for c in it: s.chars()
        invariant
            it.seq() == s@,
            out@ + doubled_quotes(s@.skip(it.index() as int)) == doubled_quotes(s@),
    {
        let ghost rest = s@.skip(it.index() as int);
        let ghost before = out@;
        if c == '\'' {
            out.push('\'');
        }
        out.push(c);
        proof {
            assert(rest.drop_first() =~= s@.skip(it.index() + 1));
            assert(out@ + doubled_quotes(rest.drop_first()) =~= before + doubled_quotes(rest));
        }
    }
    assert(s@.skip(s@.len() as int) =~= Seq::empty());
    assert(out@ =~= doubled_quotes(s@));
    out
}

/// Whether the bits of a single-precision float are those of a finite number: an exponent of all
/// ones marks the infinities and NaN.
pub open spec fn finite32(bits: u32) -> bool {
    (bits as int / 0x80_0000) % 256 != 255
}

/// Whether the bits of a double-precision float are those of a finite number.
pub open spec fn finite64(bits: u64) -> bool {
    (bits as int / 0x10_0000_0000_0000) % 2048 != 2047
}

/// The translation of a constant.
pub open spec fn literal_sql(lit: Literal) -> Result<Seq<char>, ErrorView> {
    match lit {
        Literal::Int8(v) => Ok(signed_decimal(v as int)),
        Literal::Int16(v) => Ok(signed_decimal(v as int)),
        Literal::Int32(v) => Ok(signed_decimal(v as int)),
        Literal::Int64(v) => Ok(signed_decimal(v as int)),
        Literal::UInt8(v) => Ok(decimal(v as nat)),
        Literal::UInt16(v) => Ok(decimal(v as nat)),
        Literal::UInt32(v) => Ok(decimal(v as nat)),
        Literal::UInt64(v) => Ok(decimal(v as nat)),
        Literal::Float32 { bits, text } => if finite32(bits) {
            Ok(text@)
        } else {
            Err(unsupported_view("non-finite float literal "@ + text@))
        },
        Literal::Float64 { bits, text } => if finite64(bits) {
            Ok(text@)
        } else {
            Err(unsupported_view("non-finite float literal "@ + text@))
        },
        Literal::Boolean(v) => Ok(if v { "TRUE"@ } else { "FALSE"@ }),
        Literal::Utf8(s) => Ok(string_literal(s@)),
        Literal::Null => Ok("NULL"@),
        Literal::Other(debug) => Err(unsupported_view("literal "@ + debug@)),
    }
}

fn non_finite(text: &str) -> (r: DaftError)
    ensures
        r@ == unsupported_view("non-finite float literal "@ + text@),
{
    let mut what = "non-finite float literal ".to_owned();
    what.append(text);
    unsupported(what.as_str())
}

/// Translates a constant to SQL. A float that is not finite has no SQL form.
pub fn literal_to_sql(lit: &Literal) -> (r: Result<String, DaftError>)
    ensures
        text_result(r) == literal_sql(*lit),
{
    match lit {
        Literal::Int8(v) => Ok(signed_to_string(*v as i64)),
        Literal::Int16(v) => Ok(signed_to_string(*v as i64)),
        Literal::Int32(v) => Ok(signed_to_string(*v as i64)),
        Literal::Int64(v) => Ok(signed_to_string(*v)),
        Literal::UInt8(v) => Ok(unsigned_to_string(*v as u128)),
        Literal::UInt16(v) => Ok(unsigned_to_string(*v as u128)),
        Literal::UInt32(v) => Ok(unsigned_to_string(*v as u128)),
        Literal::UInt64(v) => Ok(unsigned_to_string(*v as u128)),
        Literal::Float32 { bits, text } => {
            if (*bits / 0x80_0000) % 256 != 255 {
                Ok(text.clone())
            } else {
                Err(non_finite(text.as_str()))
            }
        },
        Literal::Float64 { bits, text } => {
            if (*bits / 0x10_0000_0000_0000) % 2048 != 2047 {
                Ok(text.clone())
            } else {
                Err(non_finite(text.as_str()))
            }
        },
        Literal::Boolean(v) => {
            if *v {
                Ok("TRUE".to_owned())
            } else {
                Ok("FALSE".to_owned())
            }
        },
        Literal::Utf8(s) => {
            let mut out = "'".to_owned();
            out.append(double_quotes(s.as_str()).as_str());
            out.append("'");
            Ok(out)
        },
        Literal::Null => Ok("NULL".to_owned()),
        Literal::Other(debug) => {
            let mut what = "literal ".to_owned();
            what.append(debug.as_str());
            Err(unsupported(what.as_str()))
        },
    }
}

/// A name in double quotes.
pub open spec fn quoted(name: Seq<char>) -> Seq<char> {
    "\""@ + name + "\""@
}

/// A name in double quotes.
pub fn quote(name: &str) -> (r: String)
    ensures
        r@ == quoted(name@),
{
    let mut out = "\"".to_owned();
    out.append(name);
    out.append("\"");
    out
}

/// The debug form of a column that is not bound to a position.
pub open spec fn unbound_column(c: Column) -> Seq<char> {
    match c {
        Column::Unresolved(debug) => "Column(Unresolved("@ + debug@ + "))"@,
        Column::Resolved(ResolvedColumn::Basic(name)) => "Column(Resolved(Basic("@ + debug_text(
            name@,
        ) + ")))"@,
        Column::Resolved(ResolvedColumn::Other(debug)) => "Column(Resolved("@ + debug@ + "))"@,
        Column::Bound(_) => Seq::empty(),
    }
}

/// The translation of an expression over the columns of `schema`.
pub open spec fn expr_sql(e: Expr, schema: Schema) -> Result<Seq<char>, ErrorView>
    decreases e,
{
    match e {
        Expr::Column(Column::Bound(bc)) => Ok(quoted(schema.name_at(bc.index as int))),
        Expr::Column(c) => Err(unsupported_view(unbound_column(c))),
        Expr::Literal(lit) => literal_sql(lit),
        Expr::BinaryOp { op, left, right } => match expr_sql(*left, schema) {
            Err(err) => Err(err),
            Ok(l) => match expr_sql(*right, schema) {
                Err(err) => Err(err),
                Ok(r) => match operator_sql(op) {
                    Err(err) => Err(err),
                    Ok(sym) => Ok("("@ + l + " "@ + sym + " "@ + r + ")"@),
                },
            },
        },
        Expr::Alias(inner, _) => expr_sql(*inner, schema),
        Expr::Not(inner) => match expr_sql(*inner, schema) {
            Err(err) => Err(err),
            Ok(s) => Ok("(NOT "@ + s + ")"@),
        },
        Expr::IsNull(inner) => match expr_sql(*inner, schema) {
            Err(err) => Err(err),
            Ok(s) => Ok("("@ + s + " IS NULL)"@),
        },
        Expr::NotNull(inner) => match expr_sql(*inner, schema) {
            Err(err) => Err(err),
            Ok(s) => Ok("("@ + s + " IS NOT NULL)"@),
        },
        Expr::Other(debug) => Err(unsupported_view(debug@)),
    }
}

/// Every bound column that the translation looks up exists in `schema`. The right operand is only
/// looked at once the left one was translated.
pub open spec fn expr_in_schema(e: Expr, schema: Schema) -> bool
    decreases e,
{
    match e {
        Expr::Column(Column::Bound(bc)) => bc.index < schema.width(),
        Expr::BinaryOp { op, left, right } => {
            &&& expr_in_schema(*left, schema)
            &&& expr_sql(*left, schema) is Ok ==> expr_in_schema(*right, schema)
        },
        Expr::Alias(inner, _) => expr_in_schema(*inner, schema),
        Expr::Not(inner) => expr_in_schema(*inner, schema),
        Expr::IsNull(inner) => expr_in_schema(*inner, schema),
        Expr::NotNull(inner) => expr_in_schema(*inner, schema),
        _ => true,
    }
}

/// Translates an expression to a SQL fragment over the column names of `input_schema`.
pub fn expr_to_sql(expr: &Arc<Expr>, input_schema: &Schema) -> (r: Result<String, DaftError>)
    requires
        expr_in_schema(**expr, *input_schema),
    ensures
        text_result(r) == expr_sql(**expr, *input_schema),
    decreases **expr,
{
    match &**expr {
        Expr::Column(Column::Bound(bc)) => Ok(quote(&input_schema.fields[bc.index].name)),
        Expr::Column(Column::Unresolved(debug)) => {
            let mut what = "Column(Unresolved(".to_owned();
            what.append(debug.as_str());
            what.append("))");
            Err(unsupported(what.as_str()))
        },
        Expr::Column(Column::Resolved(ResolvedColumn::Basic(name))) => {
            let mut what = "Column(Resolved(Basic(".to_owned();
            what.append(debug_string(name).as_str());
            what.append(")))");
            Err(unsupported(what.as_str()))
        },
        Expr::Column(Column::Resolved(ResolvedColumn::Other(debug))) => {
            let mut what = "Column(Resolved(".to_owned();
            what.append(debug.as_str());
            what.append("))");
            Err(unsupported(what.as_str()))
        },
        Expr::Literal(lit) => literal_to_sql(lit),
        Expr::BinaryOp { op, left, right } => {
            let l = expr_to_sql(left, input_schema)?;
            let r = expr_to_sql(right, input_schema)?;
            let sym = binop_to_sql(*op)?;
            let mut out = "(".to_owned();
            out.append(l.as_str());
            out.append(" ");
            out.append(sym);
            out.append(" ");
            out.append(r.as_str());
            out.append(")");
            Ok(out)
        },
        Expr::Alias(inner, _name) => expr_to_sql(inner, input_schema),
        Expr::Not(inner) => {
            let mut out = "(NOT ".to_owned();
            out.append(expr_to_sql(inner, input_schema)?.as_str());
            out.append(")");
            Ok(out)
        },
        Expr::IsNull(inner) => {
            let mut out = "(".to_owned();
            out.append(expr_to_sql(inner, input_schema)?.as_str());
            out.append(" IS NULL)");
            Ok(out)
        },
        Expr::NotNull(inner) => {
            let mut out = "(".to_owned();
            out.append(expr_to_sql(inner, input_schema)?.as_str());
            out.append(" IS NOT NULL)");
            Ok(out)
        },
        Expr::Other(debug) => Err(unsupported(debug.as_str())),
    }
}

/// A SQL function applied to a translated argument.
pub open spec fn call_sql(func: Seq<char>, arg: Expr, schema: Schema) -> Result<Seq<char>, ErrorView> {
    match expr_sql(arg, schema) {
        Err(err) => Err(err),
        Ok(s) => Ok(func + "("@ + s + ")"@),
    }
}

/// The translation of an aggregation. A count of the null rows has no simple SQL form.
pub open spec fn agg_sql(agg: AggExpr, schema: Schema) -> Result<Seq<char>, ErrorView> {
    match agg {
        AggExpr::Count(c, CountMode::Valid) => call_sql("COUNT"@, *c, schema),
        AggExpr::Count(_, CountMode::All) => Ok("COUNT(*)"@),
        AggExpr::Count(_, CountMode::Null) => Err(
            unsupported_view("aggregation COUNT with CountMode::Null"@),
        ),
        AggExpr::Sum(c) => call_sql("SUM"@, *c, schema),
        AggExpr::Min(c) => call_sql("MIN"@, *c, schema),
        AggExpr::Max(c) => call_sql("MAX"@, *c, schema),
        AggExpr::Mean(c) => call_sql("AVG"@, *c, schema),
        AggExpr::Other(debug) => Err(unsupported_view("aggregation "@ + debug@)),
    }
}

/// Every bound column that the translation of the aggregation looks up exists in `schema`.
pub open spec fn agg_in_schema(agg: AggExpr, schema: Schema) -> bool {
    match agg {
        AggExpr::Count(c, CountMode::Valid) => expr_in_schema(*c, schema),
        AggExpr::Sum(c) => expr_in_schema(*c, schema),
        AggExpr::Min(c) => expr_in_schema(*c, schema),
        AggExpr::Max(c) => expr_in_schema(*c, schema),
        AggExpr::Mean(c) => expr_in_schema(*c, schema),
        _ => true,
    }
}

fn call_to_sql(func: &str, arg: &Arc<Expr>, input_schema: &Schema) -> (r: Result<String, DaftError>)
    requires
        expr_in_schema(**arg, *input_schema),
    ensures
        text_result(r) == call_sql(func@, **arg, *input_schema),
{
    let child = expr_to_sql(arg, input_schema)?;
    let mut out = func.to_owned();
    out.append("(");
    out.append(child.as_str());
    out.append(")");
    Ok(out)
}

/// Translates a single aggregation to SQL, e.g. `SUM("x")`.
pub fn agg_to_sql(agg_expr: &AggExpr, input_schema: &Schema) -> (r: Result<String, DaftError>)
    requires
        agg_in_schema(*agg_expr, *input_schema),
    ensures
        text_result(r) == agg_sql(*agg_expr, *input_schema),
{
    match agg_expr {
        AggExpr::Count(c, mode) => match mode {
            CountMode::Valid => call_to_sql("COUNT", c, input_schema),
            CountMode::All => Ok("COUNT(*)".to_owned()),
            CountMode::Null => Err(unsupported("aggregation COUNT with CountMode::Null")),
        },
        AggExpr::Sum(c) => call_to_sql("SUM", c, input_schema),
        AggExpr::Min(c) => call_to_sql("MIN", c, input_schema),
        AggExpr::Max(c) => call_to_sql("MAX", c, input_schema),
        AggExpr::Mean(c) => call_to_sql("AVG", c, input_schema),
        AggExpr::Other(debug) => {
            let mut what = "aggregation ".to_owned();
            what.append(debug.as_str());
            Err(unsupported(what.as_str()))
        },
    }
}

} // verus!
