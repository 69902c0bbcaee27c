//! The request methods the toolkit knows.

use vstd::prelude::*;

verus! {

/// A request method. `UNDEFINED` stands for every verb that is not one of
/// the four known ones.
#[derive(PartialEq, Eq, Structural, Hash, Debug, Clone, Copy)]
pub enum HttpMethod {
    UNDEFINED,
    GET,
    PUT,
    POST,
    DELETE,
}

impl Default for HttpMethod {
    fn default() -> (r: Self)
        ensures
            r == HttpMethod::UNDEFINED,
    {
        HttpMethod::UNDEFINED
    }
}

} // verus!
