//! A query engine for annotated graph corpora: interned strings, node
//! annotations, per-component edge storages, conjunctive/disjunctive queries,
//! a join planner and a deduplicating executor.

pub mod types;
pub mod stringpool;
pub mod annostorage;
pub mod graphstorage;
pub mod graphdb;
pub mod query;
pub mod regexmatch;
pub mod search;
pub mod plan;
pub mod exec;
pub mod queryparts;
pub mod corpusstorage;
