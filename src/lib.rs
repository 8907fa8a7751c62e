//! A minimal HTTP/1.1 server core: incremental request parsing, routing,
//! response serialization and a per-connection state machine.
pub mod bytes;
pub mod request;
pub mod response;
pub mod route;
pub mod connection;
