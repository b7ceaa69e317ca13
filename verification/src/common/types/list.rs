use vstd::prelude::*;
use crate::common::types::integer::Int;
use crate::{ExecutionError, Operand};

verus! {

/// The position an index value denotes: a nonnegative int or any uint.
pub open spec fn index_position(idx: Operand) -> Option<int> {
    match idx {
        Operand::Int(i) => if i >= 0 { Some(i as int) } else { None },
        Operand::UInt(u) => Some(u as int),
    }
}

/// Whether `idx` denotes a position of a list of `len` elements.
pub open spec fn index_in(idx: Operand, len: nat) -> bool {
    index_position(idx) matches Some(i) && i < len
}

/// A CEL list of values of type `V`.
#[derive(Debug)]
pub struct DefaultList<V>(Vec<V>);

impl<V> DefaultList<V> {
    /// The elements, in order.
    pub closed spec fn elements(self) -> Seq<V> {
        self.0@
    }

    /// The list of `v`.
    pub fn new(v: Vec<V>) -> (l: Self)
        ensures
            l.elements() == v@,
    {
        DefaultList(v)
    }

    pub fn into_inner(self) -> (v: Vec<V>)
        ensures
            v@ == self.elements(),
    {
        self.0
    }

    pub fn inner(&self) -> (v: &[V])
        ensures
            v@ == self.elements(),
    {
        self.0.as_slice()
    }

    /// The position `idx` denotes in the list.
    fn index(&self, idx: &Operand) -> (r: Option<usize>)
        ensures
            r is Some <==> index_in(*idx, self.elements().len()),
            r matches Some(i) ==> index_position(*idx) == Some(i as int),
    {
        match *idx {
            Operand::Int(i) => {
                if i < 0 {
                    None
                } else if (i as u64) < (self.0.len() as u64) {
                    Some(i as usize)
                } else {
                    None
                }
            },
            Operand::UInt(u) => {
                if u < (self.0.len() as u64) {
                    Some(u as usize)
                } else {
                    None
                }
            },
        }
    }

    /// The element at `idx`: an error where `idx` is negative or not below
    /// the length of the list.
    pub fn get(&self, idx: &Operand) -> (r: Result<&V, ExecutionError>)
        ensures
            index_in(*idx, self.elements().len()) ==> (r matches Ok(v) && *v == self.elements()[index_position(*idx)->Some_0]),
            !index_in(*idx, self.elements().len()) ==> r == Err::<&V, ExecutionError>(ExecutionError::IndexOutOfBounds(*idx)),
    {
        match self.index(idx) {
            Some(i) => Ok(&self.0[i]),
            None => Err(ExecutionError::IndexOutOfBounds(*idx)),
        }
    }

    /// Takes the element at `idx` out of the list, which is used up: an
    /// error where `idx` is negative or not below the length of the list.
    pub fn steal(self, idx: &Operand) -> (r: Result<V, ExecutionError>)
        ensures
            index_in(*idx, self.elements().len()) ==> r == Ok::<V, ExecutionError>(self.elements()[index_position(*idx)->Some_0]),
            !index_in(*idx, self.elements().len()) ==> r == Err::<V, ExecutionError>(ExecutionError::IndexOutOfBounds(*idx)),
    {
        match self.index(idx) {
            Some(i) => {
                let mut v = self.0;
                Ok(v.swap_remove(i))
            },
            None => Err(ExecutionError::IndexOutOfBounds(*idx)),
        }
    }

    /// The number of elements.
    pub fn size(&self) -> (n: Int)
        requires
            self.elements().len() <= i64::MAX,
        ensures
            n.0 == self.elements().len(),
    {
        Int(self.0.len() as i64)
    }

    /// Whether the list is empty, the zero value of lists.
    pub fn is_zero_value(&self) -> (r: bool)
        ensures
            r == (self.elements().len() == 0),
    {
        self.0.len() == 0
    }
}

impl<V> From<Vec<V>> for DefaultList<V> {
    fn from(v: Vec<V>) -> (l: Self) {
        DefaultList(v)
    }
}

impl<V> vstd::std_specs::convert::FromSpecImpl<Vec<V>> for DefaultList<V> {
    open spec fn obeys_from_spec() -> bool {
        true
    }

    closed spec fn from_spec(v: Vec<V>) -> DefaultList<V> {
        DefaultList(v)
    }
}

} // verus!
