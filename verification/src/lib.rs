//! Hawk core: local-first static security analysis, verified with Verus.

pub mod text;
pub mod order;
pub mod paths;
pub mod language;
pub mod hashing;
pub mod finding;
pub mod syntax;
pub mod fixture;
pub mod baseline;
pub mod var_set;
pub mod taint_engine;
pub mod taint_walk;
pub mod taint;
pub mod scan;
pub mod report;
pub mod reporter;
pub mod config;
pub mod cli;
pub mod pack;
pub mod query;
pub mod pack_load;
pub mod cache;
pub mod scope;
pub mod discovery;
pub mod git;
pub mod semantic;
pub mod code_graph;
pub mod rule;
