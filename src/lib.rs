//! Request routing for a small HTTP server: per-method route tries with named
//! path parameters, dispatch to handlers, and the request-line and response
//! framing around them.

pub mod path;
pub mod route;
pub mod server;
pub mod laws;
pub mod server_utils;
pub mod auth;
