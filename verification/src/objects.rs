//! Map keys, text and byte values, and the names of value types.

use vstd::prelude::*;
use crate::text::{decimal, push_char, push_decimal, push_str, to_string};

verus! {

/// A key of a CEL map.
#[derive(Debug, Clone, PartialEq, Eq, Hash, PartialOrd, Ord)]
pub enum Key {
    Int(i64),
    Uint(u64),
    Bool(bool),
    String(String),
}

/// A key borrowed for a lookup, so that a lookup allocates nothing.
#[derive(Clone, Debug, PartialEq)]
pub enum KeyRef<'a> {
    Int(i64),
    Uint(u64),
    Bool(bool),
    String(StringValue<'a>),
}

/// Text that is borrowed or owned.
#[derive(Clone, Debug)]
pub enum StringValue<'a> {
    Borrowed(&'a str),
    Owned(String),
}

/// Bytes that are borrowed or owned.
#[derive(Clone, Debug)]
pub enum BytesValue<'a> {
    Borrowed(&'a [u8]),
    Owned(Vec<u8>),
}

/// The text of a string value, whichever way it is held.
pub open spec fn text_of(s: StringValue) -> Seq<char> {
    match s {
        StringValue::Borrowed(b) => b@,
        StringValue::Owned(o) => o@,
    }
}

/// The decimal notation of `n`, with a minus sign when it is negative.
pub open spec fn signed_decimal(n: int) -> Seq<char> {
    if n < 0 { seq!['-'] + decimal((-n) as nat) } else { decimal(n as nat) }
}

/// How a key is written: its number, `true` or `false`, or its text.
pub open spec fn key_text(k: Key) -> Seq<char> {
    match k {
        Key::Int(v) => signed_decimal(v as int),
        Key::Uint(v) => decimal(v as nat),
        Key::Bool(b) => if b { "true"@ } else { "false"@ },
        Key::String(s) => s@,
    }
}

fn push_i64(s: &mut String, v: i64)
    ensures
        final(s)@ == old(s)@ + signed_decimal(v as int),
{
    if v < 0 {
        push_char(s, '-');
        let m: u64 = if v == i64::MIN { 0x8000_0000_0000_0000u64 } else { (-v) as u64 };
        push_decimal(s, m);
        assert(s@ =~= old(s)@ + signed_decimal(v as int));
    } else {
        push_decimal(s, v as u64);
    }
}

impl<'a> StringValue<'a> {
    /// The text, whichever way it is held.
    pub fn as_str(&self) -> (r: &str)
        ensures
            r@ == text_of(*self),
    {
        match self {
            StringValue::Borrowed(b) => b,
            StringValue::Owned(o) => o.as_str(),
        }
    }

    /// An owned copy of the text.
    pub fn as_owned(&self) -> (r: String)
        ensures
            r@ == text_of(*self),
    {
        to_string(self.as_str())
    }
}

impl<'a> PartialEq for StringValue<'a> {
    /// Two string values are equal when their texts are, however held.
    fn eq(&self, other: &Self) -> (r: bool) {
        crate::text::str_eq(self.as_str(), other.as_str())
    }
}

impl<'a> vstd::std_specs::cmp::PartialEqSpecImpl for StringValue<'a> {
    open spec fn obeys_eq_spec() -> bool {
        true
    }

    open spec fn eq_spec(&self, other: &Self) -> bool {
        text_of(*self) == text_of(*other)
    }
}

impl<'a> BytesValue<'a> {
    /// The bytes, whichever way they are held.
    pub fn as_bytes(&self) -> (r: &[u8])
        ensures
            r@ == match *self {
                BytesValue::Borrowed(b) => b@,
                BytesValue::Owned(o) => o@,
            },
    {
        match self {
            BytesValue::Borrowed(b) => b,
            BytesValue::Owned(o) => o.as_slice(),
        }
    }
}

impl Key {
    /// The key as written: its number, `true` or `false`, or its text.
    pub fn text(&self) -> (s: String)
        ensures
            s@ == key_text(*self),
    {
        let mut s = String::new();
        match self {
            Key::Int(v) => push_i64(&mut s, *v),
            Key::Uint(v) => push_decimal(&mut s, *v),
            Key::Bool(b) => push_str(&mut s, if *b { "true" } else { "false" }),
            Key::String(t) => push_str(&mut s, t.as_str()),
        }
        s
    }

    /// The key borrowed for a lookup.
    pub fn as_key_ref(&self) -> (r: KeyRef<'_>)
        ensures
            match (*self, r) {
                (Key::Int(a), KeyRef::Int(b)) => a == b,
                (Key::Uint(a), KeyRef::Uint(b)) => a == b,
                (Key::Bool(a), KeyRef::Bool(b)) => a == b,
                (Key::String(a), KeyRef::String(b)) => a@ == text_of(b),
                _ => false,
            },
    {
        match self {
            Key::Int(v) => KeyRef::Int(*v),
            Key::Uint(v) => KeyRef::Uint(*v),
            Key::Bool(v) => KeyRef::Bool(*v),
            Key::String(v) => KeyRef::String(StringValue::Borrowed(v.as_str())),
        }
    }
}

impl<'a> KeyRef<'a> {
    /// An owned key with the same value.
    pub fn to_key(&self) -> (k: Key)
        ensures
            match (*self, k) {
                (KeyRef::Int(a), Key::Int(b)) => a == b,
                (KeyRef::Uint(a), Key::Uint(b)) => a == b,
                (KeyRef::Bool(a), Key::Bool(b)) => a == b,
                (KeyRef::String(a), Key::String(b)) => text_of(a) == b@,
                _ => false,
            },
    {
        match self {
            KeyRef::Int(v) => Key::Int(*v),
            KeyRef::Uint(v) => Key::Uint(*v),
            KeyRef::Bool(v) => Key::Bool(*v),
            KeyRef::String(v) => Key::String(v.as_owned()),
        }
    }
}

impl From<bool> for Key {
    fn from(v: bool) -> (k: Key) {
        Key::Bool(v)
    }
}

impl vstd::std_specs::convert::FromSpecImpl<bool> for Key {
    open spec fn obeys_from_spec() -> bool {
        true
    }

    open spec fn from_spec(v: bool) -> Key {
        Key::Bool(v)
    }
}

impl From<i64> for Key {
    fn from(v: i64) -> (k: Key) {
        Key::Int(v)
    }
}

impl vstd::std_specs::convert::FromSpecImpl<i64> for Key {
    open spec fn obeys_from_spec() -> bool {
        true
    }

    open spec fn from_spec(v: i64) -> Key {
        Key::Int(v)
    }
}

impl From<u64> for Key {
    fn from(v: u64) -> (k: Key) {
        Key::Uint(v)
    }
}

impl vstd::std_specs::convert::FromSpecImpl<u64> for Key {
    open spec fn obeys_from_spec() -> bool {
        true
    }

    open spec fn from_spec(v: u64) -> Key {
        Key::Uint(v)
    }
}

impl From<String> for Key {
    fn from(v: String) -> (k: Key) {
        Key::String(v)
    }
}

impl vstd::std_specs::convert::FromSpecImpl<String> for Key {
    open spec fn obeys_from_spec() -> bool {
        true
    }

    open spec fn from_spec(v: String) -> Key {
        Key::String(v)
    }
}

/// The type of a value.
#[derive(Clone, Copy, Debug, PartialEq, Eq, Structural)]
pub enum ValueType {
    List,
    Mapping,
    Function,
    Int,
    UInt,
    Float,
    String,
    Bytes,
    Bool,
    Duration,
    Timestamp,
    Object,
    Null,
}

/// The name of a value type.
pub open spec fn value_type_name(t: ValueType) -> Seq<char> {
    match t {
        ValueType::List => "list"@,
        ValueType::Mapping => "map"@,
        ValueType::Function => "function"@,
        ValueType::Int => "int"@,
        ValueType::UInt => "uint"@,
        ValueType::Float => "float"@,
        ValueType::String => "string"@,
        ValueType::Bytes => "bytes"@,
        ValueType::Bool => "bool"@,
        ValueType::Object => "object"@,
        ValueType::Duration => "duration"@,
        ValueType::Timestamp => "timestamp"@,
        ValueType::Null => "null"@,
    }
}

impl ValueType {
    /// The name of the type.
    pub fn as_str(&self) -> (s: &'static str)
        ensures
            s@ == value_type_name(*self),
    {
        match self {
            ValueType::List => "list",
            ValueType::Mapping => "map",
            ValueType::Function => "function",
            ValueType::Int => "int",
            ValueType::UInt => "uint",
            ValueType::Float => "float",
            ValueType::String => "string",
            ValueType::Bytes => "bytes",
            ValueType::Bool => "bool",
            ValueType::Object => "object",
            ValueType::Duration => "duration",
            ValueType::Timestamp => "timestamp",
            ValueType::Null => "null",
        }
    }
}

} // verus!
