//! A text-ranking library: BM25-style term weighting over fixed-point
//! integer scores, with an upsertable index, atomic model rebuilds and
//! request validation for a streaming scoring service.

pub mod arith;
pub mod corpus;
pub mod embed;
pub mod error_handling;
pub mod index;
pub mod laws;
pub mod model;
pub mod service;
pub mod text;
