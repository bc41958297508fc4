//! The physical plan that one worker executes.
use std::sync::Arc;
use vstd::prelude::*;

use crate::expr::{AggExpr, Expr};
use crate::schema::Schema;

verus! {

/// Identifies the input partitions that a scan reads.
pub type SourceId = u32;

/// Which rows of the two inputs a join keeps.
#[derive(Debug, Clone, Copy, PartialEq, Eq, Structural)]
pub enum JoinType {
    Inner,
    Left,
    Right,
    Outer,
    Anti,
    Semi,
}

/// A scan of partitions that are already in memory.
#[derive(Debug)]
pub struct InMemoryScan {
    pub source_id: SourceId,
    pub schema: Arc<Schema>,
}

/// Keeps the rows for which the predicate holds.
#[derive(Debug)]
pub struct Filter {
    pub input: Arc<LocalPhysicalPlan>,
    pub predicate: Arc<Expr>,
    pub schema: Arc<Schema>,
}

/// Computes one output column per expression.
#[derive(Debug)]
pub struct Project {
    pub input: Arc<LocalPhysicalPlan>,
    pub projection: Vec<Arc<Expr>>,
    pub schema: Arc<Schema>,
}

/// Joins two inputs on the equality of key expressions. `null_equals_null` says for each key
/// whether two nulls match; where it is absent they do not.
#[derive(Debug)]
pub struct HashJoin {
    pub left: Arc<LocalPhysicalPlan>,
    pub right: Arc<LocalPhysicalPlan>,
    pub left_on: Vec<Arc<Expr>>,
    pub right_on: Vec<Arc<Expr>>,
    pub null_equals_null: Option<Vec<bool>>,
    pub join_type: JoinType,
    pub schema: Arc<Schema>,
}

/// Aggregates the rows of each group.
#[derive(Debug)]
pub struct HashAggregate {
    pub input: Arc<LocalPhysicalPlan>,
    pub aggregations: Vec<AggExpr>,
    pub group_by: Vec<Arc<Expr>>,
    pub schema: Arc<Schema>,
}

/// Aggregates all rows at once.
#[derive(Debug)]
pub struct UnGroupedAggregate {
    pub input: Arc<LocalPhysicalPlan>,
    pub aggregations: Vec<AggExpr>,
    pub schema: Arc<Schema>,
}

/// A node of another kind.
#[derive(Debug)]
pub struct OtherNode {
    pub name: String,
    pub schema: Arc<Schema>,
}

/// A physical plan.
#[derive(Debug)]
pub enum LocalPhysicalPlan {
    InMemoryScan(InMemoryScan),
    Filter(Filter),
    Project(Project),
    HashJoin(HashJoin),
    HashAggregate(HashAggregate),
    UnGroupedAggregate(UnGroupedAggregate),
    Other(OtherNode),
}

impl LocalPhysicalPlan {
    /// The columns that the plan produces.
    pub open spec fn output(&self) -> Schema {
        match *self {
            LocalPhysicalPlan::InMemoryScan(n) => *n.schema,
            LocalPhysicalPlan::Filter(n) => *n.schema,
            LocalPhysicalPlan::Project(n) => *n.schema,
            LocalPhysicalPlan::HashJoin(n) => *n.schema,
            LocalPhysicalPlan::HashAggregate(n) => *n.schema,
            LocalPhysicalPlan::UnGroupedAggregate(n) => *n.schema,
            LocalPhysicalPlan::Other(n) => *n.schema,
        }
    }

    /// The columns that the plan produces.
    pub fn schema(&self) -> (r: &Schema)
        ensures
            *r == self.output(),
    {
        match self {
            LocalPhysicalPlan::InMemoryScan(n) => &*n.schema,
            LocalPhysicalPlan::Filter(n) => &*n.schema,
            LocalPhysicalPlan::Project(n) => &*n.schema,
            LocalPhysicalPlan::HashJoin(n) => &*n.schema,
            LocalPhysicalPlan::HashAggregate(n) => &*n.schema,
            LocalPhysicalPlan::UnGroupedAggregate(n) => &*n.schema,
            LocalPhysicalPlan::Other(n) => &*n.schema,
        }
    }
}

} // verus!
