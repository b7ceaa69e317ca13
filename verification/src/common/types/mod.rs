//! The types of CEL values.

use vstd::prelude::*;
use crate::common::traits::{
    ADDER_TYPE, COMPARER_TYPE, CONTAINER_TYPE, DIVIDER_TYPE, FIELD_TESTER_TYPE, INDEXER_TYPE,
    ITERABLE_TYPE, MATCHER_TYPE, MODDER_TYPE, MULTIPLIER_TYPE, NEGATOR_TYPE, RECEIVER_TYPE,
    SIZER_TYPE, SUBTRACTOR_TYPE,
};
use crate::text::{str_eq, to_string};

pub mod bool;
pub mod bytes;
pub mod integer;
pub mod list;
pub mod map;
pub mod null;
pub mod string;
pub mod type_val;
pub mod uint;

verus! {

/// The kinds of type.
#[derive(Clone, Copy, Debug, Eq, PartialEq, Structural)]
pub enum Kind {
    Unspecified,
    Error,
    Dyn,
    Any,
    Boolean,
    Bytes,
    Double,
    Duration,
    Int,
    List,
    Mapping,
    NullType,
    Opaque,
    String,
    Struct,
    Timestamp,
    Type,
    TypeParam,
    UInt,
    Unknown,
}

/// A CEL type: its kind, its type parameters, its name at runtime, and the
/// capabilities of its values.
#[derive(Debug, Eq, PartialEq)]
pub struct Type {
    kind: Kind,
    parameters: Vec<Type>,
    runtime_type_name: String,
    trait_mask: u16,
}

impl Type {
    pub closed spec fn kind_spec(self) -> Kind {
        self.kind
    }

    pub closed spec fn params(self) -> Seq<Type> {
        self.parameters@
    }

    pub closed spec fn name_spec(self) -> Seq<char> {
        self.runtime_type_name@
    }

    pub closed spec fn mask(self) -> u16 {
        self.trait_mask
    }

    fn build(kind: Kind, parameters: Vec<Type>, name: &str, trait_mask: u16) -> (t: Type)
        ensures
            t.kind_spec() == kind,
            t.params() == parameters@,
            t.name_spec() == name@,
            t.mask() == trait_mask,
    {
        Type { kind, parameters, runtime_type_name: to_string(name), trait_mask }
    }

    /// The kind of the type.
    pub fn kind(&self) -> (k: Kind)
        ensures
            k == self.kind_spec(),
    {
        self.kind
    }

    /// A type of the given kind and name, with no parameters and no
    /// capabilities.
    pub fn simple_type(kind: Kind, name: &str) -> (t: Type)
        ensures
            t.kind_spec() == kind,
            t.params().len() == 0,
            t.name_spec() == name@,
            t.mask() == 0,
    {
        Type::build(kind, Vec::new(), name, 0)
    }

    /// The list type of elements of type `param`.
    pub fn new_list_type(param: Type) -> (t: Type)
        ensures
            t.kind_spec() == Kind::List,
            t.params() == seq![param],
            t.name_spec() == "list"@,
            t.mask() == ADDER_TYPE | CONTAINER_TYPE | INDEXER_TYPE | ITERABLE_TYPE | SIZER_TYPE,
    {
        let mut parameters: Vec<Type> = Vec::new();
        parameters.push(param);
        Type::build(Kind::List, parameters, "list", ADDER_TYPE | CONTAINER_TYPE | INDEXER_TYPE | ITERABLE_TYPE | SIZER_TYPE)
    }

    /// The map type from keys of type `key` to values of type `value`.
    pub fn new_map_type(key: Type, value: Type) -> (t: Type)
        ensures
            t.kind_spec() == Kind::Mapping,
            t.params() == seq![key, value],
            t.name_spec() == "map"@,
            t.mask() == CONTAINER_TYPE | INDEXER_TYPE | ITERABLE_TYPE | SIZER_TYPE,
    {
        let mut parameters: Vec<Type> = Vec::new();
        parameters.push(key);
        parameters.push(value);
        Type::build(Kind::Mapping, parameters, "map", CONTAINER_TYPE | INDEXER_TYPE | ITERABLE_TYPE | SIZER_TYPE)
    }

    /// A type of unspecified kind with the given name.
    pub fn new_unspecified_type(name: &str) -> (t: Type)
        ensures
            t.kind_spec() == Kind::Unspecified,
            t.params().len() == 0,
            t.name_spec() == name@,
            t.mask() == 0,
    {
        Type::build(Kind::Unspecified, Vec::new(), name, 0)
    }

    /// An opaque type with the given name.
    pub fn new_opaque_type(name: &str) -> (t: Type)
        ensures
            t.kind_spec() == Kind::Opaque,
            t.params().len() == 0,
            t.name_spec() == name@,
            t.mask() == 0,
    {
        Type::build(Kind::Opaque, Vec::new(), name, 0)
    }

    /// A message type with the given name.
    pub fn new_struct_type(name: &str) -> (t: Type)
        ensures
            t.kind_spec() == Kind::Struct,
            t.params().len() == 0,
            t.name_spec() == name@,
            t.mask() == FIELD_TESTER_TYPE | INDEXER_TYPE,
    {
        Type::build(Kind::Struct, Vec::new(), name, FIELD_TESTER_TYPE | INDEXER_TYPE)
    }

    /// A message type with the given owned name.
    pub fn new_struct(name: String) -> (t: Type)
        ensures
            t.kind_spec() == Kind::Struct,
            t.params().len() == 0,
            t.name_spec() == name@,
            t.mask() == FIELD_TESTER_TYPE | INDEXER_TYPE,
    {
        Type { kind: Kind::Struct, parameters: Vec::new(), runtime_type_name: name, trait_mask: FIELD_TESTER_TYPE | INDEXER_TYPE }
    }

    /// The name of the type.
    pub fn name(&self) -> (s: &str)
        ensures
            s@ == self.name_spec(),
    {
        self.runtime_type_name.as_str()
    }

    /// Whether the values of the type have all the capabilities `t`.
    pub fn has_trait(&self, t: u16) -> (r: bool)
        ensures
            r == (self.mask() & t == t),
    {
        self.trait_mask & t == t
    }

    /// Whether `self` and `other` agree field by field: kind, capabilities,
    /// name, and parameters, which agree in turn.
    pub closed spec fn same(self, other: Type) -> bool
        decreases self,
    {
        &&& self.kind == other.kind
        &&& self.trait_mask == other.trait_mask
        &&& self.runtime_type_name@ == other.runtime_type_name@
        &&& self.parameters@.len() == other.parameters@.len()
        &&& forall|i: int|
            #![trigger self.parameters@[i]]
            0 <= i < self.parameters@.len() ==> {
                proof {
                    assert(decreases_to!(self => self.parameters@[i]));
                }
                self.parameters@[i].same(other.parameters@[i])
            }
    }

    /// Every type agrees with itself.
    pub proof fn lemma_same_reflexive(t: Type)
        ensures
            t.same(t),
        decreases t,
    {
        assert forall|i: int| 0 <= i < t.parameters@.len() implies t.parameters@[i].same(t.parameters@[i]) by {
            assert(decreases_to!(t => t.parameters@[i]));
            Type::lemma_same_reflexive(t.parameters@[i]);
        }
    }

    /// Types agree only when they have as many parameters and their
    /// parameters agree one for one.
    pub proof fn law_same_parameters(a: Type, b: Type)
        requires
            a.same(b),
        ensures
            a.params().len() == b.params().len(),
            forall|i: int| 0 <= i < a.params().len() ==> (#[trigger] a.params()[i]).same(b.params()[i]),
    {
    }

    /// Types whose parameters at some position have different names do not
    /// agree: `list(int)` and `list(string)` are different types.
    pub proof fn law_parameter_names_distinguish(a: Type, b: Type, i: int)
        requires
            0 <= i < a.params().len(),
            i < b.params().len(),
            a.params()[i].name_spec() != b.params()[i].name_spec(),
        ensures
            !a.same(b),
    {
        if a.same(b) {
            Type::law_same_parameters(a, b);
            Type::lemma_same_name(a.params()[i], b.params()[i]);
        }
    }

    /// Types that agree have the same name.
    pub proof fn lemma_same_name(a: Type, b: Type)
        requires
            a.same(b),
        ensures
            a.name_spec() == b.name_spec(),
    {
    }

    /// Whether `self` and `other` agree field by field, as [`Type::same`]
    /// says.
    pub fn equals(&self, other: &Type) -> (r: bool)
        ensures
            r == self.same(*other),
        decreases self,
    {
        if self.kind != other.kind || self.trait_mask != other.trait_mask {
            return false;
        }
        if !str_eq(self.runtime_type_name.as_str(), other.runtime_type_name.as_str()) {
            return false;
        }
        if self.parameters.len() != other.parameters.len() {
            return false;
        }
        let mut i: usize = 0;
        while i < self.parameters.len()
            invariant
                i <= self.parameters@.len(),
                self.parameters@.len() == other.parameters@.len(),
                forall|j: int| 0 <= j < i ==> (#[trigger] self.parameters@[j]).same(other.parameters@[j]),
            decreases self.parameters@.len() - i,
        {
            proof {
                assert(decreases_to!(*self => self.parameters@[i as int]));
            }
            if !self.parameters[i].equals(&other.parameters[i]) {
                return false;
            }
            i += 1;
        }
        true
    }
}

/// The type of `bool` values.
pub fn bool_type() -> (t: Type)
    ensures
        t.kind_spec() == Kind::Boolean,
        t.name_spec() == "bool"@,
        t.mask() == COMPARER_TYPE | NEGATOR_TYPE,
{
    Type::build(Kind::Boolean, Vec::new(), "bool", COMPARER_TYPE | NEGATOR_TYPE)
}

/// The type of `bytes` values.
pub fn bytes_type() -> (t: Type)
    ensures
        t.kind_spec() == Kind::Bytes,
        t.name_spec() == "bytes"@,
        t.mask() == ADDER_TYPE | COMPARER_TYPE | SIZER_TYPE,
{
    Type::build(Kind::Bytes, Vec::new(), "bytes", ADDER_TYPE | COMPARER_TYPE | SIZER_TYPE)
}

/// The type of `int` values.
pub fn int_type() -> (t: Type)
    ensures
        t.kind_spec() == Kind::Int,
        t.name_spec() == "int"@,
        t.mask() == ADDER_TYPE | COMPARER_TYPE | DIVIDER_TYPE | MODDER_TYPE | MULTIPLIER_TYPE | NEGATOR_TYPE | SUBTRACTOR_TYPE,
{
    Type::build(
        Kind::Int,
        Vec::new(),
        "int",
        ADDER_TYPE | COMPARER_TYPE | DIVIDER_TYPE | MODDER_TYPE | MULTIPLIER_TYPE | NEGATOR_TYPE | SUBTRACTOR_TYPE,
    )
}

/// The type of `uint` values.
pub fn uint_type() -> (t: Type)
    ensures
        t.kind_spec() == Kind::UInt,
        t.name_spec() == "uint"@,
        t.mask() == ADDER_TYPE | COMPARER_TYPE | DIVIDER_TYPE | MODDER_TYPE | MULTIPLIER_TYPE | SUBTRACTOR_TYPE,
{
    Type::build(
        Kind::UInt,
        Vec::new(),
        "uint",
        ADDER_TYPE | COMPARER_TYPE | DIVIDER_TYPE | MODDER_TYPE | MULTIPLIER_TYPE | SUBTRACTOR_TYPE,
    )
}

/// The type of `string` values.
pub fn string_type() -> (t: Type)
    ensures
        t.kind_spec() == Kind::String,
        t.name_spec() == "string"@,
        t.mask() == ADDER_TYPE | COMPARER_TYPE | MATCHER_TYPE | RECEIVER_TYPE | SIZER_TYPE,
{
    Type::build(Kind::String, Vec::new(), "string", ADDER_TYPE | COMPARER_TYPE | MATCHER_TYPE | RECEIVER_TYPE | SIZER_TYPE)
}

/// The type of `null`.
pub fn null_type() -> (t: Type)
    ensures
        t.kind_spec() == Kind::NullType,
        t.name_spec() == "null_type"@,
        t.mask() == 0,
{
    Type::build(Kind::NullType, Vec::new(), "null_type", 0)
}

/// The type of types.
pub fn type_type() -> (t: Type)
    ensures
        t.kind_spec() == Kind::Type,
        t.name_spec() == "type"@,
        t.mask() == 0,
{
    Type::build(Kind::Type, Vec::new(), "type", 0)
}

/// The type of values of any type.
pub fn dyn_type() -> (t: Type)
    ensures
        t.kind_spec() == Kind::Dyn,
        t.params().len() == 0,
        t.name_spec() == "dyn"@,
        t.mask() == 0,
{
    Type::build(Kind::Dyn, Vec::new(), "dyn", 0)
}

/// The type of optional values.
pub fn optional_type() -> (t: Type)
    ensures
        t.kind_spec() == Kind::Opaque,
        t.params().len() == 1,
        t.params()[0].kind_spec() == Kind::Dyn,
        t.name_spec() == "optional_type"@,
        t.mask() == 0,
{
    let mut parameters: Vec<Type> = Vec::new();
    parameters.push(dyn_type());
    Type::build(Kind::Opaque, parameters, "optional_type", 0)
}

/// The type of `double` values.
pub fn double_type() -> (t: Type)
    ensures
        t.kind_spec() == Kind::Double,
        t.params().len() == 0,
        t.name_spec() == "double"@,
        t.mask() == ADDER_TYPE | COMPARER_TYPE | DIVIDER_TYPE | MULTIPLIER_TYPE | NEGATOR_TYPE | SUBTRACTOR_TYPE,
{
    Type::build(Kind::Double, Vec::new(), "double", ADDER_TYPE | COMPARER_TYPE | DIVIDER_TYPE | MULTIPLIER_TYPE | NEGATOR_TYPE | SUBTRACTOR_TYPE)
}

/// The type of lists of values of any type.
pub fn list_type() -> (t: Type)
    ensures
        t.kind_spec() == Kind::List,
        t.params().len() == 1,
        t.params()[0].kind_spec() == Kind::Dyn,
        t.name_spec() == "list"@,
        t.mask() == ADDER_TYPE | CONTAINER_TYPE | INDEXER_TYPE | ITERABLE_TYPE | SIZER_TYPE,
{
    Type::new_list_type(dyn_type())
}

/// The type of maps between values of any type.
pub fn map_type() -> (t: Type)
    ensures
        t.kind_spec() == Kind::Mapping,
        t.params().len() == 2,
        t.params()[0].kind_spec() == Kind::Dyn,
        t.params()[1].kind_spec() == Kind::Dyn,
        t.name_spec() == "map"@,
        t.mask() == CONTAINER_TYPE | INDEXER_TYPE | ITERABLE_TYPE | SIZER_TYPE,
{
    Type::new_map_type(dyn_type(), dyn_type())
}

/// The type of errors.
pub fn error_type() -> (t: Type)
    ensures
        t.kind_spec() == Kind::Error,
        t.params().len() == 0,
        t.name_spec() == "error"@,
        t.mask() == 0,
{
    Type::build(Kind::Error, Vec::new(), "error", 0)
}

/// The type of values whose type is not known.
pub fn unknown_type() -> (t: Type)
    ensures
        t.kind_spec() == Kind::Unknown,
        t.params().len() == 0,
        t.name_spec() == "unknown"@,
        t.mask() == 0,
{
    Type::build(Kind::Unknown, Vec::new(), "unknown", 0)
}

} // verus!
