//! Change-impact answers over a resolved call graph: the index schema, the
//! staleness fingerprint, the graph queries, the Mermaid neighborhood view and
//! the single answer envelope every query returns.

pub mod calendar;
pub mod driver;
pub mod envelope;
pub mod ext_tokenizer;
pub mod fingerprint;
pub mod graph_build;
pub mod mermaid;
pub mod order;
pub mod parser;
pub mod query;
pub mod schema;
pub mod state;
pub mod text;
pub mod tools;
