//! The protocol layer: methods, paths, headers, bodies, requests and
//! responses.

pub mod body;
pub mod error;
pub mod headers;
pub mod method;
pub mod path;
pub mod request;
pub mod response;
