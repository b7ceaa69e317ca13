use vstd::prelude::*;
use crate::common::types::{type_type, Kind, Type};
use crate::text::{str_eq, to_string};
use vstd::std_specs::cmp::PartialEqSpec;

verus! {

/// A CEL type, as a value: its name.
#[derive(Clone, Debug)]
pub struct CelType {
    name: String,
}

impl CelType {
    pub closed spec fn name_spec(self) -> Seq<char> {
        self.name@
    }

    /// The type named `name`.
    pub fn new_static(name: &'static str) -> (t: Self)
        ensures
            t.name_spec() == name@,
    {
        CelType { name: to_string(name) }
    }

    /// The type named `name`.
    pub fn new(name: String) -> (t: Self)
        ensures
            t.name_spec() == name@,
    {
        CelType { name }
    }

    /// The name of the type.
    pub fn name(&self) -> (s: &str)
        ensures
            s@ == self.name_spec(),
    {
        self.name.as_str()
    }

    /// The type of type values.
    pub fn get_type(&self) -> (t: Type)
        ensures
            t.kind_spec() == Kind::Type,
            t.name_spec() == "type"@,
    {
        type_type()
    }
}

impl PartialEq for CelType {
    /// Two type values are equal when their names are.
    fn eq(&self, other: &Self) -> (r: bool) {
        str_eq(self.name.as_str(), other.name.as_str())
    }
}

impl vstd::std_specs::cmp::PartialEqSpecImpl for CelType {
    open spec fn obeys_eq_spec() -> bool {
        true
    }

    open spec fn eq_spec(&self, other: &Self) -> bool {
        self.name_spec() == other.name_spec()
    }
}

/// Equality of type values is equality of their names.
pub proof fn lemma_type_equality(a: CelType, b: CelType)
    ensures
        a.eq_spec(&b) == (a.name_spec() == b.name_spec()),
{
}

/// The type value naming `t`.
pub fn type_value_of(t: &Type) -> (c: CelType)
    ensures
        c.name_spec() == t.name_spec(),
{
    CelType::new(to_string(t.name()))
}

} // verus!
