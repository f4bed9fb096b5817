//! Canonical forms of URL components and an ordered multimap of query parameters.

pub mod equality;
pub mod error;
pub mod host;
pub mod idempotence;
pub mod multimap;
pub mod ordered_map;
pub mod pairs;
pub mod path;
pub mod percent;
pub mod port;
pub mod query_params;
pub mod text;
pub mod utils;
