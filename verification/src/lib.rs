//! A robots.txt service library: RFC 9309 policy evaluation, robots URL
//! canonicalization, size-bounded body accumulation, a TTL snapshot cache,
//! and the request coordinator that ties them together.

pub mod cache;
pub mod fetcher;
pub mod matcher;
pub mod robots_data;
pub mod service;
pub mod text;
