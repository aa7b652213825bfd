//! An HTTP server's request handling, configuration and caching logic.

pub mod text;
pub mod headers;
pub mod http;
pub mod proxy;
pub mod config;
pub mod cache;
pub mod memory_pool;
pub mod file_server;
pub mod signal_handler;
pub mod master;
pub mod worker;
