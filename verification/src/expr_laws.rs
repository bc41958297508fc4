//! What the translation of an expression is for: read as SQL, it has the value of the expression.
use std::sync::Arc;
use vstd::prelude::*;

use crate::error::ErrorView;
use crate::expr::{Column, Expr, Literal, Operator};
use crate::expr_sql::{
    doubled_quotes, expr_sql, finite32, finite64, literal_sql, operator_symbol, quoted,
};
use crate::schema::Schema;
use crate::sql_read::{
    begins, behind, in_name, in_numeral, in_word, read_expr, read_name, read_quoted, read_word,
    span, sql_value, symbol_value, SqlExpr,
};
use crate::sql_value::{
    before_point, expr_value, literal_value, numeral_value, operator_value, whole, Value,
};
use crate::text::{decimal, decimal_reads_back, signed_decimal};

verus! {

/// A text that can follow an expression: nothing, or more behind a blank, a comma or a bracket.
pub open spec fn ends_token(rest: Seq<char>) -> bool {
    rest.len() == 0 || rest[0] == ' ' || rest[0] == ',' || rest[0] == ')'
}

/// Column names that can be told apart and read back: none occurs twice, and none has a double quote.
pub open spec fn plain_names(names: Seq<Seq<char>>) -> bool {
    &&& names.no_duplicates()
    &&& forall|i: int| 0 <= i < names.len() ==> is_plain_name(#[trigger] names[i])
}

/// A name without a double quote.
pub open spec fn is_plain_name(name: Seq<char>) -> bool {
    forall|k: int| 0 <= k < name.len() ==> #[trigger] name[k] != '"'
}

/// A numeral: decimal digits, with a point or a sign.
pub open spec fn is_numeral(s: Seq<char>) -> bool {
    &&& s.len() > 0
    &&& forall|k: int|
        0 <= k < s.len() ==> '0' <= #[trigger] s[k] <= '9' || s[k] == '.' || s[k] == '-'
}

/// The text of every float in the expression is a numeral.
pub open spec fn has_plain_floats(e: Expr) -> bool
    decreases e,
{
    match e {
        Expr::Literal(Literal::Float32 { bits: _, text }) => is_numeral(text@),
        Expr::Literal(Literal::Float64 { bits: _, text }) => is_numeral(text@),
        Expr::BinaryOp { op: _, left, right } => has_plain_floats(*left) && has_plain_floats(
            *right,
        ),
        Expr::Alias(inner, _) => has_plain_floats(*inner),
        Expr::Not(inner) => has_plain_floats(*inner),
        Expr::IsNull(inner) => has_plain_floats(*inner),
        Expr::NotNull(inner) => has_plain_floats(*inner),
        _ => true,
    }
}

/// Every bound column of the expression exists.
pub open spec fn columns_exist(e: Expr, width: nat) -> bool
    decreases e,
{
    match e {
        Expr::Column(Column::Bound(c)) => c.index < width,
        Expr::BinaryOp { op: _, left, right } => columns_exist(*left, width) && columns_exist(
            *right,
            width,
        ),
        Expr::Alias(inner, _) => columns_exist(*inner, width),
        Expr::Not(inner) => columns_exist(*inner, width),
        Expr::IsNull(inner) => columns_exist(*inner, width),
        Expr::NotNull(inner) => columns_exist(*inner, width),
        _ => true,
    }
}

pub(crate) proof fn beginning_is_read(p: Seq<char>, rest: Seq<char>)
    ensures
        begins(p + rest, p),
        behind(p + rest, p) == rest,
{
    assert((p + rest).take(p.len() as int) =~= p);
    assert((p + rest).skip(p.len() as int) =~= rest);
}

pub(crate) proof fn span_stops(p: Seq<char>, rest: Seq<char>, passes: spec_fn(char) -> bool)
    requires
        forall|k: int| 0 <= k < p.len() ==> passes(#[trigger] p[k]),
        rest.len() == 0 || !passes(rest[0]),
    ensures
        span(p + rest, passes) == p.len(),
    decreases p.len(),
{
    if p.len() == 0 {
        assert(p + rest =~= rest);
    } else {
        assert((p + rest).drop_first() =~= p.drop_first() + rest);
        assert((p + rest)[0] == p[0]);
        assert forall|k: int| 0 <= k < p.drop_first().len() implies passes(
            #[trigger] p.drop_first()[k],
        ) by {
            assert(p.drop_first()[k] == p[k + 1]);
        }
        span_stops(p.drop_first(), rest, passes);
    }
}

/// A name in double quotes is read back.
pub(crate) proof fn name_is_read(name: Seq<char>, rest: Seq<char>)
    requires
        is_plain_name(name),
    ensures
        read_name(quoted(name) + rest) == Some((name, rest)),
        (quoted(name) + rest)[0] == '"',
        quoted(name).len() == name.len() + 2,
{
    reveal_strlit("\"");
    let s = quoted(name) + rest;
    let inner = seq!['"'] + rest;
    assert(s.drop_first() =~= name + inner);
    span_stops(name, inner, in_name());
    assert(s.subrange(1, name.len() as int + 1) =~= name);
    assert(s.skip(name.len() as int + 2) =~= rest);
}

/// A text in single quotes is read back.
proof fn quoted_is_read(s: Seq<char>, rest: Seq<char>)
    requires
        rest.len() == 0 || rest[0] != '\'',
    ensures
        read_quoted(doubled_quotes(s) + (seq!['\''] + rest)) == Some((s, rest)),
    decreases s.len(),
{
    let end = seq!['\''] + rest;
    let all = doubled_quotes(s) + end;
    if s.len() == 0 {
        assert(all =~= end);
        assert(end.skip(1) =~= rest);
        assert(s =~= Seq::empty());
    } else {
        let more = s.drop_first();
        quoted_is_read(more, rest);
        assert(seq![s[0]] + more =~= s);
        if s[0] == '\'' {
            assert(all =~= seq!['\'', '\''] + (doubled_quotes(more) + end));
            assert(all.skip(2) =~= doubled_quotes(more) + end);
        } else {
            assert(all =~= seq![s[0]] + (doubled_quotes(more) + end));
            assert(all.drop_first() =~= doubled_quotes(more) + end);
        }
    }
}

/// Decimal digits are digits.
pub(crate) proof fn decimal_has_digits(n: nat)
    ensures
        decimal(n).len() > 0,
        forall|k: int| 0 <= k < decimal(n).len() ==> '0' <= #[trigger] decimal(n)[k] <= '9',
    decreases n,
{
    if n >= 10 {
        decimal_has_digits(n / 10);
        assert forall|k: int| 0 <= k < decimal(n).len() implies '0' <= #[trigger] decimal(n)[k]
            <= '9' by {
            if k < decimal(n / 10).len() {
                assert(decimal(n)[k] == decimal(n / 10)[k]);
            }
        }
    }
}

proof fn no_point(s: Seq<char>)
    requires
        forall|k: int| 0 <= k < s.len() ==> #[trigger] s[k] != '.',
    ensures
        before_point(s) == s.len(),
    decreases s.len(),
{
    if s.len() > 0 {
        assert forall|k: int| 0 <= k < s.drop_first().len() implies #[trigger] s.drop_first()[k]
            != '.' by {
            assert(s.drop_first()[k] == s[k + 1]);
        }
        no_point(s.drop_first());
    }
}

/// The digits of a whole number stand for the number.
proof fn decimal_stands_for(n: nat)
    ensures
        numeral_value(decimal(n)) == whole(n as int),
        is_numeral(decimal(n)),
        decimal(n)[0] != '-',
{
    decimal_has_digits(n);
    no_point(decimal(n));
    decimal_reads_back(n);
    assert('0' <= decimal(n)[0]);
}

/// The signed digits of a whole number stand for the number.
proof fn signed_decimal_stands_for(i: int)
    ensures
        numeral_value(signed_decimal(i)) == whole(i),
        is_numeral(signed_decimal(i)),
{
    if i < 0 {
        let n = (-i) as nat;
        decimal_stands_for(n);
        decimal_has_digits(n);
        no_point(decimal(n));
        let s = signed_decimal(i);
        assert(s.drop_first() =~= decimal(n));
        assert forall|k: int| 0 <= k < s.len() implies '0' <= #[trigger] s[k] <= '9' || s[k] == '.'
            || s[k] == '-' by {
            if k > 0 {
                assert(s[k] == decimal(n)[k - 1]);
            }
        }
    } else {
        decimal_stands_for(i as nat);
    }
}

/// A numeral is read as the number it stands for.
proof fn numeral_is_read(s: Seq<char>, rest: Seq<char>)
    requires
        is_numeral(s),
        ends_token(rest),
    ensures
        read_expr(s + rest) == Some((SqlExpr::Constant(numeral_value(s)), rest)),
{
    reveal_strlit("(NOT ");
    reveal_strlit("TRUE");
    reveal_strlit("FALSE");
    reveal_strlit("NULL");
    let all = s + rest;
    assert(all[0] == s[0]);
    span_stops(s, rest, in_numeral());
    assert(all.take(s.len() as int) =~= s);
    assert(all.skip(s.len() as int) =~= rest);
    if begins(all, "(NOT "@) {
        assert(all.take(5)[0] == '(');
    }
    if begins(all, "TRUE"@) {
        assert(all.take(4)[0] == 'T');
    }
    if begins(all, "FALSE"@) {
        assert(all.take(5)[0] == 'F');
    }
    if begins(all, "NULL"@) {
        assert(all.take(4)[0] == 'N');
    }
}

/// A constant is read as its value.
pub proof fn translated_constants_keep_their_value(lit: Literal, rest: Seq<char>)
    requires
        literal_sql(lit) is Ok,
        has_plain_floats(Expr::Literal(lit)),
        ends_token(rest),
    ensures
        read_expr(literal_sql(lit)->Ok_0 + rest) == Some(
            (SqlExpr::Constant(literal_value(lit)), rest),
        ),
{
    let s = literal_sql(lit)->Ok_0;
    match lit {
        Literal::Null => {
            word_constant(rest);
        },
        Literal::Boolean(_) => {
            word_constant(rest);
        },
        Literal::Utf8(t) => {
            reveal_strlit("'");
            let inner = doubled_quotes(t@) + (seq!['\''] + rest);
            assert(s + rest =~= seq!['\''] + inner);
            assert((s + rest).drop_first() =~= inner);
            quoted_is_read(t@, rest);
        },
        Literal::Int8(v) => {
            signed_decimal_stands_for(v as int);
            numeral_is_read(s, rest);
        },
        Literal::Int16(v) => {
            signed_decimal_stands_for(v as int);
            numeral_is_read(s, rest);
        },
        Literal::Int32(v) => {
            signed_decimal_stands_for(v as int);
            numeral_is_read(s, rest);
        },
        Literal::Int64(v) => {
            signed_decimal_stands_for(v as int);
            numeral_is_read(s, rest);
        },
        Literal::UInt8(v) => {
            decimal_stands_for(v as nat);
            numeral_is_read(s, rest);
        },
        Literal::UInt16(v) => {
            decimal_stands_for(v as nat);
            numeral_is_read(s, rest);
        },
        Literal::UInt32(v) => {
            decimal_stands_for(v as nat);
            numeral_is_read(s, rest);
        },
        Literal::UInt64(v) => {
            decimal_stands_for(v as nat);
            numeral_is_read(s, rest);
        },
        Literal::Float32 { bits: _, text: _ } => {
            numeral_is_read(s, rest);
        },
        Literal::Float64 { bits: _, text: _ } => {
            numeral_is_read(s, rest);
        },
        Literal::Other(_) => {},
    }
}

proof fn word_constant(rest: Seq<char>)
    ensures
        read_expr("TRUE"@ + rest) == Some((SqlExpr::Constant(Value::Truth(true)), rest)),
        read_expr("FALSE"@ + rest) == Some((SqlExpr::Constant(Value::Truth(false)), rest)),
        read_expr("NULL"@ + rest) == Some((SqlExpr::Constant(Value::Null), rest)),
{
    reveal_strlit("(NOT ");
    reveal_strlit("TRUE");
    reveal_strlit("FALSE");
    reveal_strlit("NULL");
    beginning_is_read("TRUE"@, rest);
    beginning_is_read("FALSE"@, rest);
    beginning_is_read("NULL"@, rest);
    assert(("TRUE"@ + rest)[0] == 'T');
    assert(("FALSE"@ + rest)[0] == 'F');
    assert(("NULL"@ + rest)[0] == 'N');
    assert(!begins("TRUE"@ + rest, "(NOT "@)) by {
        if begins("TRUE"@ + rest, "(NOT "@) {
            assert(("TRUE"@ + rest).take(5)[0] == '(');
        }
    }
    assert(!begins("FALSE"@ + rest, "(NOT "@)) by {
        if begins("FALSE"@ + rest, "(NOT "@) {
            assert(("FALSE"@ + rest).take(5)[0] == '(');
        }
    }
    assert(!begins("FALSE"@ + rest, "TRUE"@)) by {
        if begins("FALSE"@ + rest, "TRUE"@) {
            assert(("FALSE"@ + rest).take(4)[0] == 'T');
        }
    }
    assert(!begins("NULL"@ + rest, "(NOT "@)) by {
        if begins("NULL"@ + rest, "(NOT "@) {
            assert(("NULL"@ + rest).take(5)[0] == '(');
        }
    }
    assert(!begins("NULL"@ + rest, "TRUE"@)) by {
        if begins("NULL"@ + rest, "TRUE"@) {
            assert(("NULL"@ + rest).take(4)[0] == 'T');
        }
    }
    assert(!begins("NULL"@ + rest, "FALSE"@)) by {
        if begins("NULL"@ + rest, "FALSE"@) {
            assert(("NULL"@ + rest).take(5)[0] == 'F');
        }
    }
}

/// The symbol that an operator is translated to gives what the operator gives, for all values.
pub proof fn symbols_keep_the_meaning_of_operators(op: Operator, a: Value, b: Value)
    requires
        operator_symbol(op) is Some,
    ensures
        symbol_value(operator_symbol(op)->0, a, b) == operator_value(op, a, b),
{
    reveal_symbols();
}

/// The characters of the symbols.
pub(crate) proof fn reveal_symbols()
    ensures
        "="@.len() == 1 && "="@[0] == '=',
        "!="@.len() == 2 && "!="@[0] == '!' && "!="@[1] == '=',
        "<"@.len() == 1 && "<"@[0] == '<',
        "<="@.len() == 2 && "<="@[0] == '<' && "<="@[1] == '=',
        ">"@.len() == 1 && ">"@[0] == '>',
        ">="@.len() == 2 && ">="@[0] == '>' && ">="@[1] == '=',
        "AND"@.len() == 3 && "AND"@[0] == 'A' && "AND"@[1] == 'N' && "AND"@[2] == 'D',
        "OR"@.len() == 2 && "OR"@[0] == 'O' && "OR"@[1] == 'R',
        "+"@.len() == 1 && "+"@[0] == '+',
        "-"@.len() == 1 && "-"@[0] == '-',
        "*"@.len() == 1 && "*"@[0] == '*',
        "/"@.len() == 1 && "/"@[0] == '/',
{
    reveal_strlit("=");
    reveal_strlit("!=");
    reveal_strlit("<");
    reveal_strlit("<=");
    reveal_strlit(">");
    reveal_strlit(">=");
    reveal_strlit("AND");
    reveal_strlit("OR");
    reveal_strlit("+");
    reveal_strlit("-");
    reveal_strlit("*");
    reveal_strlit("/");
}

/// Two different operators never share a symbol.
pub proof fn symbols_tell_operators_apart(a: Operator, b: Operator)
    requires
        operator_symbol(a) is Some,
        operator_symbol(a) == operator_symbol(b),
    ensures
        a == b,
{
    reveal_symbols();
}

/// A symbol is a word: it is read up to the blank behind it, and is not mistaken for a test for null.
proof fn symbol_is_read(op: Operator, rest: Seq<char>)
    requires
        operator_symbol(op) is Some,
    ensures
        ({
            let symbol = operator_symbol(op)->0;
            let all = " "@ + symbol + " "@ + rest;
            &&& !begins(all, " IS NULL)"@)
            &&& !begins(all, " IS NOT NULL)"@)
            &&& begins(all, " "@)
            &&& read_word(behind(all, " "@)) == (symbol, " "@ + rest)
        }),
{
    reveal_symbols();
    reveal_strlit(" ");
    reveal_strlit(" IS NULL)");
    reveal_strlit(" IS NOT NULL)");
    let symbol = operator_symbol(op)->0;
    let all = " "@ + symbol + " "@ + rest;
    assert(all[1] == symbol[0]);
    if begins(all, " IS NULL)"@) {
        assert(all.take(9)[1] == 'I');
    }
    if begins(all, " IS NOT NULL)"@) {
        assert(all.take(13)[1] == 'I');
    }
    let more = " "@ + rest;
    assert(all =~= " "@ + (symbol + more));
    beginning_is_read(" "@, symbol + more);
    span_stops(symbol, more, in_word());
    assert((symbol + more).take(symbol.len() as int) =~= symbol);
    assert((symbol + more).skip(symbol.len() as int) =~= more);
}

/// The expressions have the same value for every row under the names.
pub open spec fn values_agree(e: Expr, read: SqlExpr, names: Seq<Seq<char>>) -> bool {
    forall|row: Seq<Value>|
        row.len() == names.len() ==> #[trigger] sql_value(read, names, row) == expr_value(e, row)
}

/// The expressions have the same value for every row under the names.
pub open spec fn reads_as(e: Arc<Expr>, read: SqlExpr, names: Seq<Seq<char>>) -> bool {
    values_agree(*e, read, names)
}

/// What the translation of an expression is read as.
pub(crate) open spec fn tree_of(e: Expr, schema: Schema) -> SqlExpr
    decreases e,
{
    match e {
        Expr::Column(Column::Bound(c)) => SqlExpr::Column(schema.name_at(c.index as int)),
        Expr::Column(_) => SqlExpr::Constant(Value::Undefined),
        Expr::Literal(lit) => SqlExpr::Constant(literal_value(lit)),
        Expr::BinaryOp { op, left, right } => SqlExpr::Binary(
            operator_symbol(op)->0,
            Box::new(tree_of(*left, schema)),
            Box::new(tree_of(*right, schema)),
        ),
        Expr::Alias(inner, _) => tree_of(*inner, schema),
        Expr::Not(inner) => SqlExpr::Not(Box::new(tree_of(*inner, schema))),
        Expr::IsNull(inner) => SqlExpr::IsNull(Box::new(tree_of(*inner, schema))),
        Expr::NotNull(inner) => SqlExpr::IsNotNull(Box::new(tree_of(*inner, schema))),
        Expr::Other(_) => SqlExpr::Constant(Value::Undefined),
    }
}

/// What the translation of an expression is read as.
pub(crate) open spec fn read_of(e: Arc<Expr>, schema: Schema) -> SqlExpr {
    tree_of(*e, schema)
}

/// The translation of an expression.
pub(crate) open spec fn text_of(e: Arc<Expr>, schema: Schema) -> Result<Seq<char>, ErrorView> {
    expr_sql(*e, schema)
}

proof fn paren_is_read(inner: Seq<char>)
    requires
        inner.len() > 0,
        inner[0] != 'N' || begins(inner, "NULL"@),
    ensures
        !begins("("@ + inner, "(NOT "@),
        ("("@ + inner)[0] == '(',
        ("("@ + inner).drop_first() == inner,
{
    reveal_strlit("(");
    reveal_strlit("(NOT ");
    reveal_strlit("NULL");
    let all = "("@ + inner;
    assert(all.drop_first() =~= inner);
    if begins(all, "(NOT "@) {
        assert(all.take(5)[1] == 'N');
        assert(all.take(5)[2] == 'O');
        assert(all[2] == inner[1]);
        assert(inner.take(4)[1] == 'U');
    }
}

/// An expression does not begin like a negation without its bracket, nor like a call or a column of one
/// side of a join.
pub(crate) proof fn expr_begins(e: Arc<Expr>, schema: Schema, rest: Seq<char>)
    requires
        text_of(e, schema) is Ok,
        has_plain_floats(*e),
    ensures
        text_of(e, schema)->Ok_0.len() > 0,
        ({
            let all = text_of(e, schema)->Ok_0 + rest;
            &&& all[0] != 'N' || begins(all, "NULL"@)
            &&& all[0] != 'l' && all[0] != 'r'
            &&& all[0] != 'C' && all[0] != 'S' && all[0] != 'M' && all[0] != 'A'
            &&& all[0] != '*'
        }),
    decreases e,
{
    reveal_strlit("(");
    reveal_strlit("(NOT ");
    reveal_strlit("\"");
    reveal_strlit("'");
    reveal_strlit("TRUE");
    reveal_strlit("FALSE");
    reveal_strlit("NULL");
    let s = text_of(e, schema)->Ok_0;
    assert(s.len() > 0 ==> (s + rest)[0] == s[0]);
    match *e {
        Expr::Literal(lit) => match lit {
            Literal::Null => {
                beginning_is_read("NULL"@, rest);
            },
            Literal::Int8(v) => signed_decimal_stands_for(v as int),
            Literal::Int16(v) => signed_decimal_stands_for(v as int),
            Literal::Int32(v) => signed_decimal_stands_for(v as int),
            Literal::Int64(v) => signed_decimal_stands_for(v as int),
            Literal::UInt8(v) => decimal_stands_for(v as nat),
            Literal::UInt16(v) => decimal_stands_for(v as nat),
            Literal::UInt32(v) => decimal_stands_for(v as nat),
            Literal::UInt64(v) => decimal_stands_for(v as nat),
            _ => {},
        },
        Expr::Alias(inner, _) => expr_begins(inner, schema, rest),
        _ => {},
    }
}

#[verifier::rlimit(60)]
proof fn binary_is_read(
    op: Operator,
    l: Seq<char>,
    r: Seq<char>,
    rest: Seq<char>,
    a: SqlExpr,
    b: SqlExpr,
)
    requires
        operator_symbol(op) is Some,
        l.len() > 0,
        ({
            let end = ")"@ + rest;
            let after_left = " "@ + operator_symbol(op)->0 + " "@ + (r + end);
            &&& read_expr(l + after_left) == Some((a, after_left))
            &&& read_expr(r + end) == Some((b, end))
            &&& (l + after_left)[0] != 'N' || begins(l + after_left, "NULL"@)
        }),
    ensures
        read_expr("("@ + l + " "@ + operator_symbol(op)->0 + " "@ + r + ")"@ + rest) == Some(
            (SqlExpr::Binary(operator_symbol(op)->0, Box::new(a), Box::new(b)), rest),
        ),
{
    let symbol = operator_symbol(op)->0;
    let end = ")"@ + rest;
    let behind_symbol = r + end;
    let after_left = " "@ + symbol + " "@ + behind_symbol;
    let all = "("@ + l + " "@ + symbol + " "@ + r + ")"@ + rest;
    assert(all =~= "("@ + (l + after_left));
    paren_is_read(l + after_left);
    symbol_is_read(op, behind_symbol);
    beginning_is_read(" "@, behind_symbol);
    beginning_is_read(")"@, rest);
    reveal_strlit(" ");
    assert(after_left.len() < all.len());
}

proof fn not_is_read(t: Seq<char>, rest: Seq<char>, a: SqlExpr)
    requires
        read_expr(t + (")"@ + rest)) == Some((a, ")"@ + rest)),
    ensures
        read_expr("(NOT "@ + t + ")"@ + rest) == Some((SqlExpr::Not(Box::new(a)), rest)),
{
    reveal_strlit("(NOT ");
    let end = ")"@ + rest;
    let all = "(NOT "@ + t + ")"@ + rest;
    assert(all =~= "(NOT "@ + (t + end));
    beginning_is_read("(NOT "@, t + end);
    beginning_is_read(")"@, rest);
    assert(all[0] == '(');
}

proof fn null_tests_are_read(t: Seq<char>, rest: Seq<char>, a: SqlExpr)
    requires
        t.len() > 0,
    ensures
        ({
            let end = " IS NULL)"@ + rest;
            read_expr(t + end) == Some((a, end)) && ((t + end)[0] != 'N' || begins(
                t + end,
                "NULL"@,
            ))
        }) ==> read_expr("("@ + t + " IS NULL)"@ + rest) == Some(
            (SqlExpr::IsNull(Box::new(a)), rest),
        ),
        ({
            let end = " IS NOT NULL)"@ + rest;
            read_expr(t + end) == Some((a, end)) && ((t + end)[0] != 'N' || begins(
                t + end,
                "NULL"@,
            ))
        }) ==> read_expr("("@ + t + " IS NOT NULL)"@ + rest) == Some(
            (SqlExpr::IsNotNull(Box::new(a)), rest),
        ),
{
    let end = " IS NULL)"@ + rest;
    if read_expr(t + end) == Some((a, end)) && ((t + end)[0] != 'N' || begins(t + end, "NULL"@)) {
        assert("("@ + t + " IS NULL)"@ + rest =~= "("@ + (t + end));
        paren_is_read(t + end);
        beginning_is_read(" IS NULL)"@, rest);
    }
    let end = " IS NOT NULL)"@ + rest;
    if read_expr(t + end) == Some((a, end)) && ((t + end)[0] != 'N' || begins(t + end, "NULL"@)) {
        assert("("@ + t + " IS NOT NULL)"@ + rest =~= "("@ + (t + end));
        paren_is_read(t + end);
        beginning_is_read(" IS NOT NULL)"@, rest);
        assert(!begins(end, " IS NULL)"@)) by {
            reveal_strlit(" IS NULL)");
            reveal_strlit(" IS NOT NULL)");
            if begins(end, " IS NULL)"@) {
                assert(end.take(9)[5] == 'U');
                assert(end[5] == 'O');
            }
        }
    }
}

/// What is read of an expression has its value.
proof fn tree_keeps_value(e: Arc<Expr>, schema: Schema, row: Seq<Value>)
    requires
        text_of(e, schema) is Ok,
        columns_exist(*e, schema.width()),
        plain_names(schema.names()),
    ensures
        sql_value(read_of(e, schema), schema.names(), row) == value_in(e, row),
    decreases e,
{
    let names = schema.names();
    match *e {
        Expr::Column(c) => match c {
            Column::Bound(bc) => {
                let i = bc.index as int;
                let name = schema.name_at(i);
                assert(names[i] == name);
                let j = choose|j: int| 0 <= j < names.len() && names[j] == name;
                assert(j == i);
            },
            _ => {},
        },
        Expr::BinaryOp { op, left, right } => {
            tree_keeps_value(left, schema, row);
            tree_keeps_value(right, schema, row);
            symbols_keep_the_meaning_of_operators(op, value_in(left, row), value_in(right, row));
        },
        Expr::Alias(inner, _) => tree_keeps_value(inner, schema, row),
        Expr::Not(inner) => tree_keeps_value(inner, schema, row),
        Expr::IsNull(inner) => tree_keeps_value(inner, schema, row),
        Expr::NotNull(inner) => tree_keeps_value(inner, schema, row),
        _ => {},
    }
}

/// The translation of an expression is read back.
#[verifier::rlimit(60)]
pub(crate) proof fn expr_is_read(e: Arc<Expr>, schema: Schema, rest: Seq<char>)
    requires
        text_of(e, schema) is Ok,
        columns_exist(*e, schema.width()),
        has_plain_floats(*e),
        plain_names(schema.names()),
        ends_token(rest),
    ensures
        read_expr(text_of(e, schema)->Ok_0 + rest) == Some((read_of(e, schema), rest)),
    decreases e,
{
    let s = text_of(e, schema)->Ok_0;
    let names = schema.names();
    match *e {
        Expr::Column(c) => match c {
            Column::Bound(bc) => {
                let name = schema.name_at(bc.index as int);
                assert(names[bc.index as int] == name);
                name_is_read(name, rest);
            },
            _ => {},
        },
        Expr::Literal(lit) => {
            translated_constants_keep_their_value(lit, rest);
        },
        Expr::BinaryOp { op, left, right } => {
            let l = text_of(left, schema)->Ok_0;
            let r = text_of(right, schema)->Ok_0;
            let end = ")"@ + rest;
            let after_left = " "@ + operator_symbol(op)->0 + " "@ + (r + end);
            assert(ends_token(end) && ends_token(after_left)) by {
                reveal_strlit(")");
                reveal_strlit(" ");
            }
            expr_is_read(left, schema, after_left);
            expr_is_read(right, schema, end);
            expr_begins(left, schema, after_left);
            binary_is_read(op, l, r, rest, read_of(left, schema), read_of(right, schema));
        },
        Expr::Alias(inner, _) => {
            expr_is_read(inner, schema, rest);
        },
        Expr::Not(inner) => {
            let end = ")"@ + rest;
            assert(ends_token(end)) by {
                reveal_strlit(")");
            }
            expr_is_read(inner, schema, end);
            not_is_read(text_of(inner, schema)->Ok_0, rest, read_of(inner, schema));
        },
        Expr::IsNull(inner) => {
            let end = " IS NULL)"@ + rest;
            assert(ends_token(end)) by {
                reveal_strlit(" IS NULL)");
            }
            expr_is_read(inner, schema, end);
            expr_begins(inner, schema, end);
            null_tests_are_read(text_of(inner, schema)->Ok_0, rest, read_of(inner, schema));
        },
        Expr::NotNull(inner) => {
            let end = " IS NOT NULL)"@ + rest;
            assert(ends_token(end)) by {
                reveal_strlit(" IS NOT NULL)");
            }
            expr_is_read(inner, schema, end);
            expr_begins(inner, schema, end);
            null_tests_are_read(text_of(inner, schema)->Ok_0, rest, read_of(inner, schema));
        },
        Expr::Other(_) => {},
    }
}

/// Read as SQL, the translation of an expression has the value of the expression, for every row: each
/// column by its name, each constant as its value, and each operator by what its symbol means.
pub proof fn translated_expressions_keep_their_value(
    e: Arc<Expr>,
    schema: Schema,
    rest: Seq<char>,
) -> (read: SqlExpr)
    requires
        expr_sql(*e, schema) is Ok,
        columns_exist(*e, schema.width()),
        has_plain_floats(*e),
        plain_names(schema.names()),
        ends_token(rest),
    ensures
        read_expr(expr_sql(*e, schema)->Ok_0 + rest) == Some((read, rest)),
        reads_as(e, read, schema.names()),
{
    expr_is_read(e, schema, rest);
    trees_agree(e, schema);
    read_of(e, schema)
}

/// What is read of an expression has its value for every row.
pub(crate) proof fn trees_agree(e: Arc<Expr>, schema: Schema)
    requires
        text_of(e, schema) is Ok,
        columns_exist(*e, schema.width()),
        plain_names(schema.names()),
    ensures
        reads_as(e, read_of(e, schema), schema.names()),
{
    let names = schema.names();
    assert forall|row: Seq<Value>| row.len() == names.len() implies #[trigger] sql_value(
        read_of(e, schema),
        names,
        row,
    ) == value_in(e, row) by {
        tree_keeps_value(e, schema, row);
    }
}

spec fn value_in(e: Arc<Expr>, row: Seq<Value>) -> Value {
    expr_value(*e, row)
}

/// The constant has a SQL form: it is null, a truth value, a text, an integer, or a finite float.
pub open spec fn is_translatable_constant(lit: Literal) -> bool {
    match lit {
        Literal::Float32 { bits, text: _ } => finite32(bits),
        Literal::Float64 { bits, text: _ } => finite64(bits),
        Literal::Other(_) => false,
        _ => true,
    }
}

/// The operator has a SQL form: it compares, connects or computes.
pub open spec fn is_translatable_operator(op: Operator) -> bool {
    !(op == Operator::EqNullSafe || op == Operator::FloorDivide || op == Operator::Modulus || op
        == Operator::Xor || op == Operator::ShiftLeft || op == Operator::ShiftRight)
}

/// The expression consists of bound columns, constants and operators that have a SQL form.
pub open spec fn is_translatable(e: Expr) -> bool
    decreases e,
{
    match e {
        Expr::Column(c) => c is Bound,
        Expr::Literal(lit) => is_translatable_constant(lit),
        Expr::BinaryOp { op, left, right } => is_translatable_operator(op) && is_translatable(*left)
            && is_translatable(*right),
        Expr::Alias(inner, _) => is_translatable(*inner),
        Expr::Not(inner) => is_translatable(*inner),
        Expr::IsNull(inner) => is_translatable(*inner),
        Expr::NotNull(inner) => is_translatable(*inner),
        Expr::Other(_) => false,
    }
}

/// An expression is translated exactly where all of it has a SQL form; else it is refused as not
/// implemented.
pub proof fn exactly_the_supported_expressions_are_translated(e: Arc<Expr>, schema: Schema)
    ensures
        expr_sql(*e, schema) is Ok <==> is_translatable(*e),
        expr_sql(*e, schema) matches Err(err) ==> err is NotImplemented,
    decreases e,
{
    match *e {
        Expr::BinaryOp { op: _, left, right } => {
            exactly_the_supported_expressions_are_translated(left, schema);
            exactly_the_supported_expressions_are_translated(right, schema);
        },
        Expr::Alias(inner, _) => exactly_the_supported_expressions_are_translated(inner, schema),
        Expr::Not(inner) => exactly_the_supported_expressions_are_translated(inner, schema),
        Expr::IsNull(inner) => exactly_the_supported_expressions_are_translated(inner, schema),
        Expr::NotNull(inner) => exactly_the_supported_expressions_are_translated(inner, schema),
        _ => {},
    }
}

} // verus!
