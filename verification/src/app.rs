//! The router: route definitions, the shared resources, and the
//! application that holds both and answers requests.

pub mod app;
pub mod resource_map;
pub mod route_definition;
