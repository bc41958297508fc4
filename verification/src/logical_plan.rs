//! The logical plan that the optimizer rules rewrite.
use std::sync::Arc;
use vstd::prelude::*;

use crate::expr::Expr;
use crate::local_plan::JoinType;
use crate::schema::{Field, Schema};

verus! {

/// One partition column of a scan task. `value` stands for the column's type and value: two tasks
/// hold the same number exactly where their one-column partition specs for that column are equal.
#[derive(Debug)]
pub struct PartitionKey {
    pub name: Arc<str>,
    pub value: u64,
}

/// The partition columns of a scan task.
#[derive(Debug)]
pub struct PartitionSpec {
    pub keys: Vec<PartitionKey>,
}

/// A unit of reading, with its partition columns where they are known.
#[derive(Debug)]
pub struct ScanTask {
    pub id: u64,
    pub partition_spec: Option<PartitionSpec>,
}

/// What a physical scan reads.
#[derive(Debug)]
pub enum ScanState {
    /// An operator that has not been asked for its tasks yet.
    Operator(String),
    /// The tasks of a materialized scan.
    Tasks(Arc<Vec<Arc<ScanTask>>>),
}

/// A scan of files.
#[derive(Debug)]
pub struct PhysicalScanInfo {
    pub scan_state: ScanState,
    pub source_schema: Arc<Schema>,
    pub partitioning_keys: Arc<Vec<Field>>,
    /// The columns, filters and limit that were pushed into the scan.
    pub pushdowns: Arc<str>,
}

/// Where a source's rows come from.
#[derive(Debug)]
pub enum SourceInfo {
    Physical(PhysicalScanInfo),
    /// Partitions in memory, or a placeholder.
    Other(String),
}

/// A leaf of the plan.
#[derive(Debug)]
pub struct Source {
    pub output_schema: Arc<Schema>,
    pub source_info: Arc<SourceInfo>,
}

/// How a join is to be executed.
#[derive(Debug, Clone, Copy, PartialEq, Eq, Structural)]
pub enum JoinStrategy {
    Hash,
    SortMerge,
    Broadcast,
    Cross,
}

/// A join predicate, split into its equalities (`left_eq[i]` equals `right_eq[i]`, with
/// `null_equals_nulls[i]` for two nulls) and what remains.
#[derive(Debug)]
pub struct JoinPredicate {
    pub remaining: Option<Arc<Expr>>,
    pub left_eq: Vec<Arc<Expr>>,
    pub right_eq: Vec<Arc<Expr>>,
    pub null_equals_nulls: Vec<bool>,
}

/// A join of two plans.
#[derive(Debug)]
pub struct Join {
    pub left: Arc<LogicalPlan>,
    pub right: Arc<LogicalPlan>,
    pub on: Arc<JoinPredicate>,
    pub join_type: JoinType,
    pub join_strategy: Option<JoinStrategy>,
    pub output_schema: Arc<Schema>,
}

/// The rows of one plan followed by those of another.
#[derive(Debug)]
pub struct Concat {
    pub input: Arc<LogicalPlan>,
    pub other: Arc<LogicalPlan>,
    pub output_schema: Arc<Schema>,
}

/// A node of another kind.
#[derive(Debug)]
pub struct OtherOp {
    pub name: Arc<str>,
    pub children: Vec<Arc<LogicalPlan>>,
    pub output_schema: Arc<Schema>,
}

/// A logical plan.
#[derive(Debug)]
pub enum LogicalPlan {
    Source(Source),
    Join(Join),
    Concat(Concat),
    Other(OtherOp),
}

impl LogicalPlan {
    /// The columns that the plan produces.
    pub open spec fn output(&self) -> Arc<Schema> {
        match *self {
            LogicalPlan::Source(n) => n.output_schema,
            LogicalPlan::Join(n) => n.output_schema,
            LogicalPlan::Concat(n) => n.output_schema,
            LogicalPlan::Other(n) => n.output_schema,
        }
    }
}

/// A plan that a rule has been applied to, and whether the rule changed it.
#[derive(Debug)]
pub struct Transformed {
    pub data: Arc<LogicalPlan>,
    pub transformed: bool,
}

impl Transformed {
    /// The rule left the plan as it was.
    pub fn no(data: Arc<LogicalPlan>) -> (r: Transformed)
        ensures
            r == (Transformed { data, transformed: false }),
    {
        Transformed { data, transformed: false }
    }

    /// The rule changed the plan.
    pub fn yes(data: Arc<LogicalPlan>) -> (r: Transformed)
        ensures
            r == (Transformed { data, transformed: true }),
    {
        Transformed { data, transformed: true }
    }
}

} // verus!
