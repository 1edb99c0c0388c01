//! Cardinality estimation for graph queries: query graphs, their decomposition into
//! abstract edges, schema patterns, and the statistics kept about them.
#![allow(unused_imports)]

pub mod abstraction;
pub mod assembly;
pub mod branches;
pub mod catalog;
pub mod catch_up;
pub mod chance;
pub mod checkpoint;
pub mod closing;
pub mod compaction;
pub mod compiled;
pub mod connect;
pub mod counting;
pub mod csv;
pub mod decompose;
pub mod decompositions;
pub mod deletions;
pub mod deltas;
pub mod embeddings;
pub mod estimate;
pub mod evidence;
pub mod extracted;
pub mod extraction;
pub mod filling;
pub mod flat;
pub mod lookups;
pub mod matches;
pub mod matching;
pub mod memory_graph;
pub mod optimal;
pub mod order;
pub mod path_query;
pub mod paths;
pub mod pattern;
pub mod pending;
pub mod query;
pub mod random_insert;
pub mod random_update;
pub mod ranking;
pub mod raw_stars;
pub mod samples;
pub mod sampling;
pub mod schema;
pub mod sequences;
pub mod sizes;
pub mod spanning;
pub mod spreading;
pub mod star_updates;
pub mod stars;
pub mod statistic;
pub mod table;
pub mod text;
pub mod trees;
pub mod union_find;
pub mod update_log;
pub mod updates;
pub mod value;
pub mod walks;
pub mod wander_join;
pub mod wander_plans;
pub mod wander_sampling;
