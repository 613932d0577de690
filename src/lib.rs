//! Aggregation of serialized content listings from several remote sources,
//! with a local record of added titles and their chapters kept in sync with
//! what the sources report.

pub mod pattern;

pub mod sort_key;
pub mod error;
pub mod link;
pub mod store;
pub mod sites;
pub mod service;
pub mod pages;
