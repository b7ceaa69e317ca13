use vstd::prelude::*;
use crate::common::traits::Zeroer;
use crate::common::types::{null_type, Kind, Type};

verus! {

/// The CEL `null`.
#[derive(Clone, Copy, Debug, PartialEq, Eq, Structural)]
pub struct Null;

impl Null {
    /// The type of `null`.
    pub fn get_type(&self) -> (t: Type)
        ensures
            t.kind_spec() == Kind::NullType,
            t.name_spec() == "null_type"@,
    {
        null_type()
    }
}

impl Zeroer for Null {
    /// `null` is always the zero value.
    fn is_zero_value(&self) -> (r: bool)
        ensures
            r,
    {
        true
    }
}

} // verus!
