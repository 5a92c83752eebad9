//! Client-side transport for a JSON-over-HTTP engine control plane.
//!
//! The verified core resolves connection strings, builds request bytes,
//! parses raw response bytes (status line, headers, chunked or
//! length-delimited bodies), repairs concatenated JSON object streams and
//! classifies response statuses. The data shapes exchanged with the engine
//! live in the entity modules.
pub mod address;
pub mod bytes;
pub mod chunked;
pub mod container;
pub mod dispatch;
pub mod error;
pub mod event;
pub mod filesystem;
pub mod headers;
pub mod image;
pub mod network;
pub mod process;
pub mod repair;
pub mod request;
pub mod response;
