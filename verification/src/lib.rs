//! Relations between the files of a repository, derived from the symbols they
//! define and reference and from how often they were edited together.

pub mod api;
pub mod builder;
pub mod cache;
pub mod extractor;
pub mod graph;
pub mod history;
pub mod index;
pub mod laws;
pub mod model;
pub mod order;
pub mod report;
pub mod rule;
pub mod scope;
pub mod server;
pub mod shape;
pub mod symbol;
pub mod syntax;
pub mod table;
pub mod text;
pub mod ungraph;
pub mod weight;
