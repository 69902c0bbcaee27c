//! The resources that the handlers share.

use crate::table::{distinct_names, inserted, lookup, NameTable};
use vstd::prelude::*;
use vstd::string::*;

verus! {

/// Resources by name. The pool is filled before requests are served and
/// only read from then on.
#[derive(Debug)]
pub struct ResourceMap<R> {
    resources: NameTable<R>,
}

impl<R> View for ResourceMap<R> {
    type V = Seq<(Seq<char>, R)>;

    closed spec fn view(&self) -> Seq<(Seq<char>, R)> {
        self.resources@
    }
}

impl<R> ResourceMap<R> {
    /// A pool without resources.
    pub fn new() -> (r: Self)
        ensures
            r@ == Seq::<(Seq<char>, R)>::empty(),
    {
        ResourceMap { resources: NameTable::new() }
    }

    /// Puts `value` into the pool under `name`, in the place of any
    /// resource of that name, and hands the pool on.
    pub fn add_resource(&mut self, name: String, value: R) -> (r: &mut Self)
        ensures
            r@ == inserted(old(self)@, name@, value),
            distinct_names(r@),
            *final(self) == *final(r),
    {
        self.resources.insert(name, value);
        self
    }

    /// The resource called `name`, if the pool holds one.
    pub fn get_resource(&self, name: String) -> (r: Option<&R>)
        ensures
            match r {
                Some(value) => lookup(self@, name@) == Some(*value),
                None => lookup(self@, name@) is None,
            },
    {
        self.resources.get(name.as_str())
    }
}

} // verus!
