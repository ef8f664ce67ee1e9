//! The verified core of a static file server.
#![allow(unused_imports)]

pub mod banner;
pub mod cache;
pub mod closing;
pub mod compress;
pub mod config;
pub mod config_laws;
pub mod conn;
pub mod heads;
pub mod http;
pub mod limits;
pub mod mime;
pub mod redirects;
pub mod request;
pub mod response;
pub mod serve;
pub mod signature;
pub mod text;
pub mod tls;
pub mod vhosts;
pub mod walk;
pub mod watch;
pub mod wire;
