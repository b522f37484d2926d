//! Client-side route resolution: matching navigation paths against route
//! patterns, and choosing the single scope that renders a navigation cycle.

pub mod matching;
pub mod service;

pub use matching::{clean_path, clean_route, route_matches_path};
pub use service::{RouterCfg, RouterService};
