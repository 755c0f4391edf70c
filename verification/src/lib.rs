//! Core of a path-routed reverse proxy: a capacity-bounded, time-ordered
//! delay queue, a TTL response cache built on it, a regex-based path
//! matcher, a round-robin balancer, and the orchestrator that composes
//! them for one request.

pub mod balancer;
pub mod blocking_delay_queue;
pub mod cache;
pub mod clock;
pub mod config;
pub mod file_watcher;
pub mod http_utils;
pub mod matcher;
pub mod proxy;
pub mod urls;
