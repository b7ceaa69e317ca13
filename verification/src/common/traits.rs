//! The capabilities a type of value may have, as bits of a trait set.

use vstd::prelude::*;
use crate::common::types::integer::Int;

verus! {

/// A set of capabilities, one bit each.
pub type TraitSet = u16;

/// Types with a `+` operator.
pub const ADDER_TYPE: u16 = 1;
/// Types ordered by `<`, `<=`, `>`, `>=`.
pub const COMPARER_TYPE: u16 = 2;
/// Types that support `in`.
pub const CONTAINER_TYPE: u16 = 4;
/// Types with a `/` operator.
pub const DIVIDER_TYPE: u16 = 8;
/// Types whose fields can be tested for presence.
pub const FIELD_TESTER_TYPE: u16 = 16;
/// Types indexed with dynamic values.
pub const INDEXER_TYPE: u16 = 32;
/// Types that comprehensions iterate over.
pub const ITERABLE_TYPE: u16 = 64;
/// Iterators.
pub const ITERATOR_TYPE: u16 = 128;
/// Types with a `matches` method.
pub const MATCHER_TYPE: u16 = 256;
/// Types with a `%` operator.
pub const MODDER_TYPE: u16 = 512;
/// Types with a `*` operator.
pub const MULTIPLIER_TYPE: u16 = 1024;
/// Types negated by `!` or `-`.
pub const NEGATOR_TYPE: u16 = 2048;
/// Types with methods dispatched on the value.
pub const RECEIVER_TYPE: u16 = 4096;
/// Types with a `size()`.
pub const SIZER_TYPE: u16 = 8192;
/// Types with a `-` operator.
pub const SUBTRACTOR_TYPE: u16 = 16384;
/// Types that the two-variable comprehensions iterate over as pairs.
pub const FOLDABLE_TYPE: u16 = 32768;

/// Values that have a size.
pub trait Sizer {
    fn size(&self) -> Int;
}

/// Values that know whether they are the zero value of their type.
pub trait Zeroer {
    fn is_zero_value(&self) -> bool;
}

} // verus!
