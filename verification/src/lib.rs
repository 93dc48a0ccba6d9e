//! Verified engine for rewriting JSON Schema documents: resolving `$ref`
//! references across documents and folding `allOf` composition keywords.

pub mod dereference;
pub mod error;
pub mod filter;
pub mod flatten;
pub mod json;
pub mod merge;
pub mod pointer;
pub mod scope;
pub mod storage;
pub mod urls;
