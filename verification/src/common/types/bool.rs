use vstd::prelude::*;
use crate::common::types::{bool_type, Kind, Type};

verus! {

/// A CEL `bool`.
#[derive(Clone, Copy, Debug, PartialEq, Eq, Structural)]
pub struct Bool(pub bool);

impl Bool {
    pub fn into_inner(self) -> (b: bool)
        ensures
            b == self.0,
    {
        self.0
    }

    pub fn inner(&self) -> (b: &bool)
        ensures
            *b == self.0,
    {
        &self.0
    }

    /// The type of the value.
    pub fn get_type(&self) -> (t: Type)
        ensures
            t.kind_spec() == Kind::Boolean,
            t.name_spec() == "bool"@,
    {
        bool_type()
    }
}

impl From<bool> for Bool {
    fn from(v: bool) -> (b: Bool) {
        Bool(v)
    }
}

impl vstd::std_specs::convert::FromSpecImpl<bool> for Bool {
    open spec fn obeys_from_spec() -> bool {
        true
    }

    open spec fn from_spec(v: bool) -> Bool {
        Bool(v)
    }
}

impl From<Bool> for bool {
    fn from(v: Bool) -> (b: bool) {
        v.0
    }
}

impl vstd::std_specs::convert::FromSpecImpl<Bool> for bool {
    open spec fn obeys_from_spec() -> bool {
        true
    }

    open spec fn from_spec(v: Bool) -> bool {
        v.0
    }
}

} // verus!
