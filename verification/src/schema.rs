//! Data types, fields and schemas.
use std::sync::Arc;
use vstd::prelude::*;

verus! {

/// The unit of a time value.
#[derive(Debug, Clone, Copy, PartialEq, Eq, Structural)]
pub enum TimeUnit {
    Nanoseconds,
    Microseconds,
    Milliseconds,
    Seconds,
}

/// The type of a column.
#[derive(Debug, PartialEq, Eq)]
pub enum DataType {
    Null,
    Boolean,
    Int8,
    Int16,
    Int32,
    Int64,
    UInt8,
    UInt16,
    UInt32,
    UInt64,
    Float16,
    Float32,
    Float64,
    /// A decimal with a precision and a scale.
    Decimal128(usize, usize),
    /// An instant, with an optional time zone.
    Timestamp(TimeUnit, Option<Arc<str>>),
    Date,
    Time(TimeUnit),
    Duration(TimeUnit),
    Interval,
    Binary,
    /// Byte strings of one length.
    FixedSizeBinary(usize),
    Utf8,
    List(Arc<DataType>),
    Struct(Arc<Vec<Field>>),
    /// A named extension over a storage type, with optional metadata.
    Extension(Arc<str>, Arc<DataType>, Option<Arc<str>>),
    Geometry,
    /// Any other type, by its name.
    Other(Arc<str>),
}

impl Clone for DataType {
    fn clone(&self) -> (r: Self)
        ensures
            r == *self,
    {
        match self {
            DataType::Null => DataType::Null,
            DataType::Boolean => DataType::Boolean,
            DataType::Int8 => DataType::Int8,
            DataType::Int16 => DataType::Int16,
            DataType::Int32 => DataType::Int32,
            DataType::Int64 => DataType::Int64,
            DataType::UInt8 => DataType::UInt8,
            DataType::UInt16 => DataType::UInt16,
            DataType::UInt32 => DataType::UInt32,
            DataType::UInt64 => DataType::UInt64,
            DataType::Float16 => DataType::Float16,
            DataType::Float32 => DataType::Float32,
            DataType::Float64 => DataType::Float64,
            DataType::Decimal128(p, s) => DataType::Decimal128(*p, *s),
            DataType::Timestamp(u, tz) => DataType::Timestamp(
                *u,
                match tz {
                    Some(t) => Some(t.clone()),
                    None => None,
                },
            ),
            DataType::Date => DataType::Date,
            DataType::Time(u) => DataType::Time(*u),
            DataType::Duration(u) => DataType::Duration(*u),
            DataType::Interval => DataType::Interval,
            DataType::Binary => DataType::Binary,
            DataType::FixedSizeBinary(n) => DataType::FixedSizeBinary(*n),
            DataType::Utf8 => DataType::Utf8,
            DataType::List(inner) => DataType::List(inner.clone()),
            DataType::Struct(fields) => DataType::Struct(fields.clone()),
            DataType::Extension(name, inner, meta) => DataType::Extension(
                name.clone(),
                inner.clone(),
                match meta {
                    Some(m) => Some(m.clone()),
                    None => None,
                },
            ),
            DataType::Geometry => DataType::Geometry,
            DataType::Other(name) => DataType::Other(name.clone()),
        }
    }
}

/// A named column of a type.
#[derive(Debug, PartialEq, Eq)]
pub struct Field {
    pub name: Arc<str>,
    pub dtype: DataType,
}

impl Clone for Field {
    fn clone(&self) -> (r: Self)
        ensures
            r == *self,
    {
        Field { name: self.name.clone(), dtype: self.dtype.clone() }
    }
}

impl Field {
    /// A field with the given name and type.
    pub fn new(name: &str, dtype: DataType) -> (r: Field)
        ensures
            r.name@ == name@,
            r.dtype == dtype,
    {
        Field { name: crate::text::shared_str(name), dtype }
    }
}

/// The columns of a table, in order.
#[derive(Debug, PartialEq, Eq)]
pub struct Schema {
    pub fields: Vec<Field>,
}

impl Schema {
    /// A schema of the given fields.
    pub fn new(fields: Vec<Field>) -> (r: Schema)
        ensures
            r.fields == fields,
    {
        Schema { fields }
    }

    /// The number of columns.
    pub open spec fn width(&self) -> nat {
        self.fields@.len()
    }

    /// The name of the column at an index.
    pub open spec fn name_at(&self, i: int) -> Seq<char> {
        self.fields@[i].name@
    }

    /// The column names in order.
    pub open spec fn names(&self) -> Seq<Seq<char>> {
        self.fields@.map_values(|f: Field| f.name@)
    }

    /// Whether some column has this name.
    pub open spec fn has_name(&self, name: Seq<char>) -> bool {
        exists|i: int| 0 <= i < self.fields@.len() && #[trigger] self.name_at(i) == name
    }

    /// Whether some column has this name.
    pub fn contains(&self, name: &str) -> (r: bool)
        ensures
            r == self.has_name(name@),
    {
        let mut i: usize = 0;
        while i < self.fields.len()
            invariant
                i <= self.fields.len(),
                forall|k: int| 0 <= k < i ==> #[trigger] self.name_at(k) != name@,
            decreases self.fields.len() - i,
        {
            if crate::text::same_str(&self.fields[i].name, name) {
                assert(self.name_at(i as int) == name@);
                return true;
            }
            i = i + 1;
        }
        false
    }
}

} // verus!
