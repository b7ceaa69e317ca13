use vstd::prelude::*;
use crate::common::traits::{Sizer, Zeroer};
use crate::common::types::integer::Int;
use crate::common::types::integer::{ordering_from, ordering_of};
use crate::common::types::{bytes_type, Kind, Type};
use std::cmp::Ordering;

verus! {

/// A CEL `bytes`.
#[derive(Clone, Debug, PartialEq)]
pub struct Bytes(pub Vec<u8>);

impl Bytes {
    pub fn into_inner(self) -> (v: Vec<u8>)
        ensures
            v@ == self.0@,
    {
        self.0
    }

    pub fn inner(&self) -> (v: &[u8])
        ensures
            v@ == self.0@,
    {
        self.0.as_slice()
    }

    /// The type of the value.
    pub fn get_type(&self) -> (t: Type)
        ensures
            t.kind_spec() == Kind::Bytes,
            t.name_spec() == "bytes"@,
    {
        bytes_type()
    }

    /// The number of bytes.
    pub fn len_value(&self) -> (n: Int)
        requires
            self.0@.len() <= i64::MAX,
        ensures
            n.0 == self.0@.len(),
    {
        Int(self.0.len() as i64)
    }
}

/// How the bytes `a` compare with `b`, byte by byte, as -1, 0 or 1; a
/// sequence comes before the sequences it is a proper prefix of.
pub open spec fn bytes_order(a: Seq<u8>, b: Seq<u8>) -> i8
    decreases a.len(),
{
    if a.len() == 0 {
        if b.len() == 0 { 0i8 } else { -1i8 }
    } else if b.len() == 0 {
        1i8
    } else if a[0] < b[0] {
        -1i8
    } else if a[0] > b[0] {
        1i8
    } else {
        bytes_order(a.drop_first(), b.drop_first())
    }
}

/// [`bytes_order`] of `a` and `b`.
fn bytes_order_of(a: &[u8], b: &[u8]) -> (c: i8)
    ensures
        c == bytes_order(a@, b@),
{
    let mut i: usize = 0;
    assert(a@.skip(0) == a@ && b@.skip(0) == b@);
    while i < a.len() && i < b.len() && a[i] == b[i]
        invariant
            i <= a@.len(),
            i <= b@.len(),
            bytes_order(a@, b@) == bytes_order(a@.skip(i as int), b@.skip(i as int)),
        decreases a@.len() - i,
    {
        assert(a@.skip(i as int).drop_first() == a@.skip(i + 1));
        assert(b@.skip(i as int).drop_first() == b@.skip(i + 1));
        i += 1;
    }
    if i == a.len() {
        if i == b.len() { 0 } else { -1 }
    } else if i == b.len() {
        1
    } else if a[i] < b[i] {
        -1
    } else {
        1
    }
}

impl Bytes {
    /// The bytes of `self` followed by those of `rhs`.
    pub fn add(&self, rhs: &Bytes) -> (r: Bytes)
        ensures
            r.0@ == self.0@ + rhs.0@,
    {
        let mut v: Vec<u8> = Vec::new();
        let mut i: usize = 0;
        while i < self.0.len()
            invariant
                i <= self.0@.len(),
                v@ == self.0@.take(i as int),
            decreases self.0@.len() - i,
        {
            v.push(self.0[i]);
            assert(self.0@.take(i + 1) == self.0@.take(i as int).push(self.0@[i as int]));
            i += 1;
        }
        let mut j: usize = 0;
        assert(self.0@.take(i as int) == self.0@);
        while j < rhs.0.len()
            invariant
                j <= rhs.0@.len(),
                v@ == self.0@ + rhs.0@.take(j as int),
            decreases rhs.0@.len() - j,
        {
            v.push(rhs.0[j]);
            assert(rhs.0@.take(j + 1) == rhs.0@.take(j as int).push(rhs.0@[j as int]));
            j += 1;
        }
        assert(rhs.0@.take(j as int) == rhs.0@);
        Bytes(v)
    }

    /// How `self` compares with `rhs`, byte by byte.
    pub fn compare(&self, rhs: &Bytes) -> (r: Ordering)
        ensures
            r == ordering_of(bytes_order(self.0@, rhs.0@)),
    {
        ordering_from(bytes_order_of(self.0.as_slice(), rhs.0.as_slice()))
    }
}

impl Zeroer for Bytes {
    /// No bytes is the zero value.
    fn is_zero_value(&self) -> (r: bool)
        ensures
            r == (self.0@.len() == 0),
    {
        self.0.len() == 0
    }
}

impl From<Vec<u8>> for Bytes {
    fn from(v: Vec<u8>) -> (b: Bytes) {
        Bytes(v)
    }
}

impl vstd::std_specs::convert::FromSpecImpl<Vec<u8>> for Bytes {
    open spec fn obeys_from_spec() -> bool {
        true
    }

    open spec fn from_spec(v: Vec<u8>) -> Bytes {
        Bytes(v)
    }
}

} // verus!
