//! Verified core of the repo-graph daemon runtime.
pub mod text;
pub mod sorted;
pub mod digest;
pub mod http_surface_union;
pub mod livegraph_refresh;
pub mod livegraph_warm_cache;
pub mod inferences_serve;
pub mod livegraph_feed;
pub mod import_readiness;
pub mod index_drift;
pub mod http_boundary_read;
pub mod quality;
pub mod request;
pub mod baseline;
pub mod authority;
pub mod governance;
pub mod retention;
