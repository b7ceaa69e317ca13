use vstd::prelude::*;
use crate::common::types::bool::Bool;
use crate::common::types::integer::Int;
use crate::common::types::string::String as CelString;
use crate::common::types::uint::UInt;

verus! {

/// A key of a CEL map.
#[derive(Debug, Clone)]
pub enum Key {
    Bool(Bool),
    Int(Int),
    String(CelString),
    UInt(UInt),
}

/// A key borrowed for a lookup.
#[derive(Copy, Clone, Debug, PartialEq, Eq)]
pub enum KeyRef<'a> {
    Int(i64),
    Uint(u64),
    Bool(bool),
    String(&'a str),
}

/// Values that can be looked up as a map key.
pub trait AsKeyRef {
    fn as_keyref(&self) -> KeyRef<'_>;
}

/// The key as a lookup key.
pub open spec fn keyref_of(k: Key) -> (int, Seq<char>, int) {
    match k {
        Key::Int(i) => (0, seq![], i.0 as int),
        Key::UInt(u) => (1, seq![], u.0 as int),
        Key::Bool(b) => (2, seq![], if b.0 { 1 } else { 0 }),
        Key::String(s) => (3, s.0@, 0),
    }
}

/// A lookup key, as a tag, a text and a number.
pub open spec fn keyref_view(k: KeyRef) -> (int, Seq<char>, int) {
    match k {
        KeyRef::Int(i) => (0, seq![], i as int),
        KeyRef::Uint(u) => (1, seq![], u as int),
        KeyRef::Bool(b) => (2, seq![], if b { 1 } else { 0 }),
        KeyRef::String(s) => (3, s@, 0),
    }
}

impl AsKeyRef for Key {
    fn as_keyref(&self) -> (r: KeyRef<'_>)
        ensures
            keyref_view(r) == keyref_of(*self),
    {
        match self {
            Key::Int(i) => KeyRef::Int(i.0),
            Key::UInt(u) => KeyRef::Uint(u.0),
            Key::Bool(b) => KeyRef::Bool(b.0),
            Key::String(s) => KeyRef::String(s.0.as_str()),
        }
    }
}

impl AsKeyRef for CelString {
    fn as_keyref(&self) -> (r: KeyRef<'_>)
        ensures
            keyref_view(r) == (3int, self.0@, 0int),
    {
        KeyRef::String(self.0.as_str())
    }
}

impl AsKeyRef for Int {
    fn as_keyref(&self) -> (r: KeyRef<'_>)
        ensures
            keyref_view(r) == (0int, Seq::<char>::empty(), self.0 as int),
    {
        KeyRef::Int(self.0)
    }
}

impl AsKeyRef for UInt {
    fn as_keyref(&self) -> (r: KeyRef<'_>)
        ensures
            keyref_view(r) == (1int, Seq::<char>::empty(), self.0 as int),
    {
        KeyRef::Uint(self.0)
    }
}

impl Key {
    /// The key, owning its text. A key of this library always owns it, so
    /// this is the key itself.
    pub fn into_static(self) -> (k: Key)
        ensures
            keyref_of(k) == keyref_of(self),
    {
        self
    }
}

} // verus!
