//! The key under which a handler is registered.

use crate::http::method::HttpMethod;
use crate::http::path::HttpPath;
use vstd::prelude::*;
use vstd::std_specs::cmp::PartialEqSpecImpl;

verus! {

/// A method and a path pattern. Two definitions are the same route only
/// where the methods are the same and the patterns have the very same
/// tokens; a wildcard is equal to nothing but itself.
#[derive(Debug, Hash)]
pub struct RouteDefinition {
    pub method: HttpMethod,
    pub path: HttpPath,
}

impl View for RouteDefinition {
    type V = (HttpMethod, Seq<Seq<char>>);

    open spec fn view(&self) -> (HttpMethod, Seq<Seq<char>>) {
        (self.method, self.path@)
    }
}

impl PartialEq for RouteDefinition {
    fn eq(&self, other: &RouteDefinition) -> (r: bool) {
        self.method == other.method && self.path == other.path
    }
}

impl PartialEqSpecImpl for RouteDefinition {
    open spec fn obeys_eq_spec() -> bool {
        true
    }

    open spec fn eq_spec(&self, other: &RouteDefinition) -> bool {
        self@ == other@
    }
}

impl Eq for RouteDefinition {

}

} // verus!
