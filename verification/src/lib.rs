//! A verified core for an HTTP payload sink: a query tokenizer and
//! expression classifier, a parameterized search-query compiler, an
//! in-memory item store with count-accurate paginated search, and a content
//! classifier that derives metadata from headers and raw bodies.

pub mod classify;
pub mod filter;
pub mod headers;
pub mod model;
pub mod query;
pub mod regexes;
pub mod service;
pub mod sqlgen;
pub mod store;
pub mod text;
pub mod tokenize;
pub mod xml;
