//! Verified core of mallard: a deterministic code index for reviewing
//! structural changes between two commits.

pub mod model;
pub mod text;
pub mod order;
pub mod extractor_common;
pub mod store;
pub mod query;
pub mod query_lookup;
pub mod query_graph;
pub mod cli;
pub mod pr_review;
pub mod syntax;
pub mod extract;
pub mod extractor_rust;
pub mod extractor_python;
pub mod extractor_typescript;
pub mod rules;
pub mod clock;
pub mod parsed_source;
pub mod walk;
pub mod file_processor;
pub mod index;
pub mod rebuild;
