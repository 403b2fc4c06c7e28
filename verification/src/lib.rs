//! Core of a configuration-driven HTTP/1.1 origin server: incremental
//! request parsing, virtual-host and route resolution, response
//! production, cookies and sessions, and the per-connection state
//! machine, all verified. Socket, file and process I/O live outside
//! this crate and hand plain values in and out.

pub mod bytes;
pub mod strutil;
pub mod strmap;
pub mod headers;
pub mod methods;
pub mod cookie;
pub mod session;
pub mod request;
pub mod response;
pub mod config;
pub mod resolve;
pub mod handler;
pub mod auth;
pub mod router;
pub mod cgi;
pub mod conn;
