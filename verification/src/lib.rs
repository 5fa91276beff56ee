//! Core of a directory service for geotagged entries: a generic
//! subject-predicate-object relation graph, geographic primitives, rating
//! aggregation, a filter/rank pipeline and the bounded-search algorithm
//! built on top of them.

pub mod builder;
pub mod db;
pub mod entities;
pub mod error;
pub mod filter;
pub mod geo;
pub mod messages;
pub mod mockdb;
pub mod ratings;
pub mod sort;
pub mod text;
pub mod usecase;
pub mod validate;
