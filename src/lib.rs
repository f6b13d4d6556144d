//! An in-memory graph database engine: nodes and edges held in an arena,
//! tables of records, relate/delete with consistent adjacency, walks along
//! multi-hop edge paths and select queries with projection, filtering,
//! start and limit.

pub mod names;
pub mod ids;
pub mod value;
pub mod object;
pub mod error;
pub mod eval;
pub mod assoc;
pub mod query;
pub mod entity;
pub mod graph;
pub mod walk;
pub mod select;
pub mod laws;
pub mod text;
