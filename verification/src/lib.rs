//! Core of a blockchain indexer service: a schema compiler that lowers a
//! declarative type-graph to relational DDL and a reflection dictionary, a
//! query compiler that lowers hierarchical selections over that schema to
//! SQL-renderable queries, and the pure control logic of the ingestion and
//! handler runtime.

pub mod arguments;
pub mod config;
pub mod defaults;
pub mod executor;
pub mod graphql;
pub mod lex;
pub mod queries;
pub mod query_text;
pub mod strmap;
pub mod strutil;
pub mod tables;
pub mod templates;
pub mod type_graph;
pub mod utils;
