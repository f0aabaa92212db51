//! An image-tagging catalog: images carry a label and a URL and are associated
//! with any number of named tags through a junction relation.
//!
//! The crate is organised around an in-memory relational store with
//! transactional semantics ([`store`]), a write path that atomically inserts
//! an image together with its tags ([`write`]), and a query engine that
//! answers tag-set predicates over the catalog ([`query`]).

pub mod error;
pub mod query;
pub mod requests;
pub mod store;
pub mod text;
pub mod write;
