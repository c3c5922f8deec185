//! Core of an on-demand map-rendering service: a network front end accepts
//! requests carrying a latitude/longitude sun position, a single serialized
//! render engine turns each request into a pixel buffer, and every submitter
//! gets back exactly the result of its own request.
//!
//! This crate holds the verified logic: query-string parsing and validation,
//! the dispatch/correlation bridge between concurrent submitters and the one
//! render worker, and response assembly around the PNG encoder.

pub mod bridge;
pub mod params;
pub mod query;
pub mod response;
