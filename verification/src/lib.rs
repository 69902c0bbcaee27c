//! A small HTTP server toolkit: request parsing, path matching, routing and
//! response rendering, with each function's behaviour stated and proved.

pub mod app;
pub mod http;
pub mod numeral;
pub mod table;
pub mod text;
