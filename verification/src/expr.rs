//! Expressions over the columns of a table.
use std::sync::Arc;
use vstd::prelude::*;

verus! {

/// A binary operator.
#[derive(Debug, Clone, Copy, PartialEq, Eq, Structural)]
pub enum Operator {
    Eq,
    EqNullSafe,
    NotEq,
    Lt,
    LtEq,
    Gt,
    GtEq,
    Plus,
    Minus,
    Multiply,
    TrueDivide,
    FloorDivide,
    Modulus,
    And,
    Or,
    Xor,
    ShiftLeft,
    ShiftRight,
}

/// A column position in the schema that an expression was bound to.
#[derive(Debug, Clone, Copy, PartialEq, Eq, Structural)]
pub struct BoundColumn {
    pub index: usize,
}

/// A column that was resolved by name but not yet bound to a position.
#[derive(Debug)]
pub enum ResolvedColumn {
    /// A plain column name.
    Basic(Arc<str>),
    /// Any other resolved reference, by its debug form.
    Other(String),
}

/// A column reference.
#[derive(Debug)]
pub enum Column {
    /// A reference that was not resolved, by its debug form.
    Unresolved(String),
    Resolved(ResolvedColumn),
    Bound(BoundColumn),
}

/// A constant. A float is held as its IEEE 754 bits beside its shortest decimal text.
#[derive(Debug)]
pub enum Literal {
    Null,
    Boolean(bool),
    Utf8(String),
    Int8(i8),
    Int16(i16),
    Int32(i32),
    Int64(i64),
    UInt8(u8),
    UInt16(u16),
    UInt32(u32),
    UInt64(u64),
    Float32 { bits: u32, text: String },
    Float64 { bits: u64, text: String },
    /// Any other constant, by its debug form.
    Other(String),
}

/// A scalar expression.
#[derive(Debug)]
pub enum Expr {
    Column(Column),
    Literal(Literal),
    BinaryOp { op: Operator, left: Arc<Expr>, right: Arc<Expr> },
    Alias(Arc<Expr>, Arc<str>),
    Not(Arc<Expr>),
    IsNull(Arc<Expr>),
    NotNull(Arc<Expr>),
    /// Any other expression (a cast, a function call, ...), by its debug form.
    Other(String),
}

/// Which rows a count counts.
#[derive(Debug, Clone, Copy, PartialEq, Eq, Structural)]
pub enum CountMode {
    /// Every row.
    All,
    /// The rows whose value is not null.
    Valid,
    /// The rows whose value is null.
    Null,
}

/// An aggregation over a column.
#[derive(Debug)]
pub enum AggExpr {
    Count(Arc<Expr>, CountMode),
    Sum(Arc<Expr>),
    Mean(Arc<Expr>),
    Min(Arc<Expr>),
    Max(Arc<Expr>),
    /// Any other aggregation, by its debug form.
    Other(String),
}

} // verus!
