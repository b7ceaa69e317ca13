use vstd::prelude::*;
use crate::common::traits::Zeroer;
use crate::common::types::integer::{all_digits, decimal_number, Int};
use crate::text::to_string;
use crate::common::types::{uint_type, Kind, Type};
use crate::{ExecutionError, Operand};
use std::cmp::Ordering;

verus! {

/// A CEL `uint`.
#[derive(Clone, Copy, Debug, PartialEq, Eq, Structural)]
pub struct UInt(pub u64);

impl UInt {
    pub fn into_inner(self) -> (v: u64)
        ensures
            v == self.0,
    {
        self.0
    }

    pub fn inner(&self) -> (v: &u64)
        ensures
            *v == self.0,
    {
        &self.0
    }

    /// The type of the value.
    pub fn get_type(&self) -> (t: Type)
        ensures
            t.kind_spec() == Kind::UInt,
            t.name_spec() == "uint"@,
    {
        uint_type()
    }
}

/// Whether `v` is a value of `u64`.
pub open spec fn fits_u64(v: int) -> bool {
    0 <= v <= u64::MAX
}

/// The result of a uint operator whose exact value is `v`.
pub open spec fn uint_result(op: &'static str, a: u64, b: u64, v: int) -> Result<UInt, ExecutionError> {
    if fits_u64(v) {
        Ok(UInt(v as u64))
    } else {
        Err(ExecutionError::Overflow(op, Operand::UInt(a), Operand::UInt(b)))
    }
}

/// How `a` compares with `b`.
pub open spec fn uint_ordering(a: u64, b: u64) -> Ordering {
    if a < b {
        Ordering::Less
    } else if a == b {
        Ordering::Equal
    } else {
        Ordering::Greater
    }
}

/// How the uint `a` compares with the int `b`, as numbers.
pub open spec fn uint_int_ordering(a: u64, b: i64) -> Ordering {
    if a < b {
        Ordering::Less
    } else if a == b {
        Ordering::Equal
    } else {
        Ordering::Greater
    }
}

/// A nonnegative int as a uint.
pub(crate) fn unsigned_of(v: i64) -> (u: u64)
    requires
        v >= 0,
    ensures
        u == v,
{
    v as u64
}

/// The number the text `s` stands for, as `u64::from_str` reads it: an
/// optional `+` sign followed by decimal digits and nothing else.
pub open spec fn unsigned_decimal_value(s: Seq<char>) -> Option<nat> {
    if s.len() > 0 && s[0] == '+' && all_digits(s.drop_first()) {
        Some(decimal_number(s.drop_first()))
    } else if all_digits(s) {
        Some(decimal_number(s))
    } else {
        None
    }
}

/// Whether `u64::from_str` accepts `s`: an unsigned decimal that fits.
pub open spec fn parses_u64(s: Seq<char>) -> bool {
    unsigned_decimal_value(s) matches Some(v) && v <= u64::MAX
}

/// The message with which `u64::from_str` refuses the text `s`.
pub uninterp spec fn uint_parse_error(s: Seq<char>) -> Seq<char>;

/// `s` read as a `u64`, or the message of its refusal.
///
/// Wraps `str::parse::<u64>` (`u64::from_str`), which the standard library
/// documents as accepting an optional `+` sign followed by decimal digits,
/// and nothing else, of a value that fits; the message is the `Display`
/// text of the error, named here and not stated.
#[verifier::external_body]
fn parse_u64(s: &str) -> (r: Result<u64, String>)
    ensures
        r is Ok <==> parses_u64(s@),
        r matches Ok(v) ==> unsigned_decimal_value(s@) == Some(v as nat),
        r matches Err(m) ==> m@ == uint_parse_error(s@),
{
    match s.parse::<u64>() {
        Ok(v) => Ok(v),
        Err(e) => Err(format!("{}", e)),
    }
}

impl UInt {
    /// `uint(i)` for the int `i`: an error where `i` is negative.
    pub fn from_int(i: &Int) -> (r: Result<UInt, ExecutionError>)
        ensures
            i.0 >= 0 ==> r == Ok::<UInt, ExecutionError>(UInt(i.0 as u64)),
            i.0 < 0 ==> (r matches Err(ExecutionError::FunctionError { function: f, message: m })
                && f@ == "uint"@ && m@ == "unsigned integer overflow"@),
    {
        if i.0 >= 0 {
            Ok(UInt(unsigned_of(i.0)))
        } else {
            Err(ExecutionError::FunctionError { function: to_string("uint"), message: to_string("unsigned integer overflow") })
        }
    }

    /// `uint(s)` for the string `s`: the number it writes in decimal, with
    /// an optional `+`; an error where it writes none, or one that is not a
    /// uint.
    pub fn from_string(s: &str) -> (r: Result<UInt, ExecutionError>)
        ensures
            parses_u64(s@) ==> r == Ok::<UInt, ExecutionError>(UInt(unsigned_decimal_value(s@)->Some_0 as u64)),
            !parses_u64(s@) ==> (r matches Err(ExecutionError::FunctionError { function: f, message: m })
                && f@ == "uint"@ && m@ == "string parse error: "@ + uint_parse_error(s@)),
    {
        match parse_u64(s) {
            Ok(v) => Ok(UInt(v)),
            Err(e) => {
                let mut message = to_string("string parse error: ");
                crate::text::push_str(&mut message, e.as_str());
                Err(ExecutionError::FunctionError { function: to_string("uint"), message })
            },
        }
    }
}

impl UInt {
    /// `self + rhs`; an overflow error where the sum is not a uint.
    pub fn add(&self, rhs: &UInt) -> (r: Result<UInt, ExecutionError>)
        ensures
            r == uint_result("add", self.0, rhs.0, self.0 + rhs.0),
    {
        match self.0.checked_add(rhs.0) {
            Some(v) => Ok(UInt(v)),
            None => Err(ExecutionError::Overflow("add", Operand::UInt(self.0), Operand::UInt(rhs.0))),
        }
    }

    /// `self - rhs`; an overflow error where `rhs` is the larger.
    pub fn sub(&self, rhs: &UInt) -> (r: Result<UInt, ExecutionError>)
        ensures
            r == uint_result("sub", self.0, rhs.0, self.0 - rhs.0),
    {
        match self.0.checked_sub(rhs.0) {
            Some(v) => Ok(UInt(v)),
            None => Err(ExecutionError::Overflow("sub", Operand::UInt(self.0), Operand::UInt(rhs.0))),
        }
    }

    /// `self * rhs`; an overflow error where the product is not a uint.
    pub fn mul(&self, rhs: &UInt) -> (r: Result<UInt, ExecutionError>)
        ensures
            r == uint_result("mul", self.0, rhs.0, self.0 * rhs.0),
    {
        match self.0.checked_mul(rhs.0) {
            Some(v) => Ok(UInt(v)),
            None => Err(ExecutionError::Overflow("mul", Operand::UInt(self.0), Operand::UInt(rhs.0))),
        }
    }

    /// `self / rhs`, rounded down; an error for a zero divisor.
    pub fn div(&self, rhs: &UInt) -> (r: Result<UInt, ExecutionError>)
        ensures
            rhs.0 == 0 ==> r == Err::<UInt, ExecutionError>(ExecutionError::DivisionByZero(Operand::UInt(self.0))),
            rhs.0 != 0 ==> r == Ok::<UInt, ExecutionError>(UInt((self.0 / rhs.0) as u64)),
    {
        if rhs.0 == 0 {
            return Err(ExecutionError::DivisionByZero(Operand::UInt(self.0)));
        }
        Ok(UInt(self.0 / rhs.0))
    }

    /// `self % rhs`; an error for a zero divisor.
    pub fn modulo(&self, rhs: &UInt) -> (r: Result<UInt, ExecutionError>)
        ensures
            rhs.0 == 0 ==> r == Err::<UInt, ExecutionError>(ExecutionError::RemainderByZero(Operand::UInt(self.0))),
            rhs.0 != 0 ==> r == Ok::<UInt, ExecutionError>(UInt((self.0 % rhs.0) as u64)),
    {
        if rhs.0 == 0 {
            return Err(ExecutionError::RemainderByZero(Operand::UInt(self.0)));
        }
        Ok(UInt(self.0 % rhs.0))
    }

    /// How `self` compares with the uint `rhs`.
    pub fn compare(&self, rhs: &UInt) -> (r: Ordering)
        ensures
            r == uint_ordering(self.0, rhs.0),
    {
        if self.0 < rhs.0 {
            Ordering::Less
        } else if self.0 == rhs.0 {
            Ordering::Equal
        } else {
            Ordering::Greater
        }
    }

    /// How `self` compares with the int `rhs`, as numbers: every uint is
    /// above a negative int.
    pub fn compare_int(&self, rhs: &Int) -> (r: Ordering)
        ensures
            r == uint_int_ordering(self.0, rhs.0),
    {
        if rhs.0 < 0 {
            Ordering::Greater
        } else {
            let b = unsigned_of(rhs.0);
            if self.0 < b {
                Ordering::Less
            } else if self.0 == b {
                Ordering::Equal
            } else {
                Ordering::Greater
            }
        }
    }
}

impl Zeroer for UInt {
    /// Zero is the zero value.
    fn is_zero_value(&self) -> (r: bool)
        ensures
            r == (self.0 == 0),
    {
        self.0 == 0
    }
}

impl From<u64> for UInt {
    fn from(v: u64) -> (r: UInt) {
        UInt(v)
    }
}

impl vstd::std_specs::convert::FromSpecImpl<u64> for UInt {
    open spec fn obeys_from_spec() -> bool {
        true
    }

    open spec fn from_spec(v: u64) -> UInt {
        UInt(v)
    }
}

impl From<UInt> for u64 {
    fn from(v: UInt) -> (r: u64) {
        v.0
    }
}

impl vstd::std_specs::convert::FromSpecImpl<UInt> for u64 {
    open spec fn obeys_from_spec() -> bool {
        true
    }

    open spec fn from_spec(v: UInt) -> u64 {
        v.0
    }
}

} // verus!
