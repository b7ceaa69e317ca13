use vstd::prelude::*;
use crate::common::types::integer::{ordering_from, ordering_of};
use crate::common::types::{string_type, Kind, Type};
use crate::text::{chars_of, push_str};
use std::cmp::Ordering;

verus! {

/// A CEL `string`.
#[derive(Clone, Debug, PartialEq)]
pub struct String(pub std::string::String);

impl String {
    /// The text as an owned string.
    pub fn into_inner(self) -> (s: std::string::String)
        ensures
            s@ == self.0@,
    {
        self.0
    }

    /// The text.
    pub fn inner(&self) -> (s: &str)
        ensures
            s@ == self.0@,
    {
        self.0.as_str()
    }

    /// The type of the value.
    pub fn get_type(&self) -> (t: Type)
        ensures
            t.kind_spec() == Kind::String,
            t.name_spec() == "string"@,
    {
        string_type()
    }
}

/// How the text `a` compares with `b`, character by character, as -1, 0
/// or 1; a text comes before the texts it is a proper prefix of.
pub open spec fn text_order(a: Seq<char>, b: Seq<char>) -> i8
    decreases a.len(),
{
    if a.len() == 0 {
        if b.len() == 0 { 0i8 } else { -1i8 }
    } else if b.len() == 0 {
        1i8
    } else if a[0] < b[0] {
        -1i8
    } else if a[0] > b[0] {
        1i8
    } else {
        text_order(a.drop_first(), b.drop_first())
    }
}

/// [`text_order`] of `a` and `b`.
fn text_order_of(a: &[char], b: &[char]) -> (c: i8)
    ensures
        c == text_order(a@, b@),
{
    let mut i: usize = 0;
    assert(a@.skip(0) == a@ && b@.skip(0) == b@);
    while i < a.len() && i < b.len() && a[i] == b[i]
        invariant
            i <= a@.len(),
            i <= b@.len(),
            text_order(a@, b@) == text_order(a@.skip(i as int), b@.skip(i as int)),
        decreases a@.len() - i,
    {
        assert(a@.skip(i as int).drop_first() == a@.skip(i + 1));
        assert(b@.skip(i as int).drop_first() == b@.skip(i + 1));
        i += 1;
    }
    if i == a.len() {
        if i == b.len() { 0 } else { -1 }
    } else if i == b.len() {
        1
    } else if a[i] < b[i] {
        -1
    } else {
        1
    }
}

impl String {
    /// The concatenation of `self` and `rhs`.
    pub fn add(&self, rhs: &String) -> (r: String)
        ensures
            r.0@ == self.0@ + rhs.0@,
    {
        let mut s = std::string::String::new();
        push_str(&mut s, self.0.as_str());
        push_str(&mut s, rhs.0.as_str());
        String(s)
    }

    /// How `self` compares with `rhs`, character by character.
    pub fn compare(&self, rhs: &String) -> (r: Ordering)
        ensures
            r == ordering_of(text_order(self.0@, rhs.0@)),
    {
        let a = chars_of(self.0.as_str());
        let b = chars_of(rhs.0.as_str());
        ordering_from(text_order_of(a.as_slice(), b.as_slice()))
    }
}

impl From<std::string::String> for String {
    fn from(v: std::string::String) -> (s: String) {
        String(v)
    }
}

impl vstd::std_specs::convert::FromSpecImpl<std::string::String> for String {
    open spec fn obeys_from_spec() -> bool {
        true
    }

    open spec fn from_spec(v: std::string::String) -> String {
        String(v)
    }
}

} // verus!
