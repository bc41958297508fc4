//! Extensions of a dataframe engine: running physical plans on DuckDB, splitting joins of partitioned
//! scans, probing hash joins, growing Arrow arrays, and spatial functions.

pub mod arrow_bridge;
pub mod arrow_buffers;
pub mod arrow_growable;
pub mod arrow_text;
pub mod collocated_join;
pub mod collocated_laws;
pub mod cover_laws;
pub mod error;
pub mod executor;
pub mod expr;
pub mod expr_laws;
pub mod expr_sql;
pub mod float_bits;
pub mod geohash_cells;
pub mod geometry;
pub mod growable_laws;
pub mod inner_join;
pub mod inner_join_laws;
pub mod local_plan;
pub mod logical_plan;
pub mod partition_laws;
pub mod plan_check;
pub mod plan_laws;
pub mod plan_meaning;
pub mod plan_sql;
pub mod probe_laws;
pub mod rebatch;
pub mod record_batch;
pub mod run_laws;
pub mod scalar_fn;
pub mod schema;
pub mod split_laws;
pub mod sql_read;
pub mod sql_value;
pub mod support_laws;
pub mod st_dump;
pub mod st_geohash;
pub mod text;
