//! Structural diffing of JSON documents.
//!
//! The crate models a JSON document as a tree of [`value::JsonValue`] nodes,
//! locates positions inside a tree with typed [`json_path::JsonPath`] values,
//! compares two trees into a partitioned set of changes, and renders the
//! result in several output shapes.

pub mod cli;
pub mod diff;
pub mod formatter;
pub mod ignore;
pub mod json_path;
pub mod path;
pub mod strings;
pub mod types;
pub mod value;
