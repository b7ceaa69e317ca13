use vstd::prelude::*;
use crate::common::traits::Zeroer;
use crate::common::types::uint::UInt;
use crate::common::types::{int_type, Kind, Type};
use crate::parser::lexer::is_digit;
use crate::text::to_string;
use crate::{ExecutionError, Operand};
use std::cmp::Ordering;

verus! {

/// A CEL `int`.
#[derive(Clone, Copy, Debug, PartialEq, Eq, Structural)]
pub struct Int(pub i64);

impl Int {
    pub fn into_inner(self) -> (v: i64)
        ensures
            v == self.0,
    {
        self.0
    }

    pub fn inner(&self) -> (v: &i64)
        ensures
            *v == self.0,
    {
        &self.0
    }

    /// The type of the value.
    pub fn get_type(&self) -> (t: Type)
        ensures
            t.kind_spec() == Kind::Int,
            t.name_spec() == "int"@,
    {
        int_type()
    }
}

/// The absolute value of `a`.
pub open spec fn abs(a: int) -> int {
    if a < 0 { -a } else { a }
}

/// The quotient of `a` by `b`, rounded toward zero.
pub open spec fn trunc_div(a: int, b: int) -> int {
    if (a < 0) == (b < 0) { abs(a) / abs(b) } else { -(abs(a) / abs(b)) }
}

/// The remainder of `a` by `b` that goes with [`trunc_div`]; it has the
/// sign of `a`.
pub open spec fn trunc_rem(a: int, b: int) -> int {
    if a < 0 { -(abs(a) % abs(b)) } else { abs(a) % abs(b) }
}

/// Whether `v` is a value of `i64`.
pub open spec fn fits_i64(v: int) -> bool {
    i64::MIN <= v <= i64::MAX
}

/// The overflow error of the operator `op` on two ints.
pub open spec fn int_overflow(op: &'static str, a: i64, b: i64) -> ExecutionError {
    ExecutionError::Overflow(op, Operand::Int(a), Operand::Int(b))
}

/// The result of an int operator whose exact value is `v`.
pub open spec fn int_result(op: &'static str, a: i64, b: i64, v: int) -> Result<Int, ExecutionError> {
    if fits_i64(v) { Ok(Int(v as i64)) } else { Err(int_overflow(op, a, b)) }
}

/// The ordering that the sign of `c` stands for.
pub open spec fn ordering_of(c: i8) -> Ordering {
    if c < 0 {
        Ordering::Less
    } else if c == 0 {
        Ordering::Equal
    } else {
        Ordering::Greater
    }
}

/// The ordering that `c`, one of -1, 0 and 1, stands for.
pub fn ordering_from(c: i8) -> (r: Ordering)
    ensures
        r == ordering_of(c),
{
    if c < 0 {
        Ordering::Less
    } else if c == 0 {
        Ordering::Equal
    } else {
        Ordering::Greater
    }
}

/// How `a` compares with `b`.
pub open spec fn int_ordering(a: i64, b: i64) -> Ordering {
    if a < b {
        Ordering::Less
    } else if a == b {
        Ordering::Equal
    } else {
        Ordering::Greater
    }
}

/// How the int `a` compares with the uint `b`, as numbers.
pub open spec fn int_uint_ordering(a: i64, b: u64) -> Ordering {
    if a < b {
        Ordering::Less
    } else if a == b {
        Ordering::Equal
    } else {
        Ordering::Greater
    }
}

/// Integer division and remainder agree: where neither fails, the quotient
/// is an int, the quotient times the divisor plus the remainder is the
/// dividend, and the remainder is smaller than the divisor in size and zero
/// or of the dividend's sign.
pub proof fn lemma_div_modulo(a: i64, b: i64)
    requires
        b != 0,
        !(a == i64::MIN && b == -1),
    ensures
        fits_i64(trunc_div(a as int, b as int)),
        trunc_div(a as int, b as int) * b + trunc_rem(a as int, b as int) == a,
        abs(trunc_rem(a as int, b as int)) < abs(b as int),
        trunc_rem(a as int, b as int) == 0 || (trunc_rem(a as int, b as int) < 0) == (a < 0),
{
    let (x, y) = (abs(a as int), abs(b as int));
    let (q, m) = (x / y, x % y);
    assert(x == q * y + m && 0 <= m < y && 0 <= q <= x) by (nonlinear_arith)
        requires
            x >= 0,
            y > 0,
            q == x / y,
            m == x % y,
    ;
    if y >= 2 {
        assert(2 * q <= x) by (nonlinear_arith)
            requires
                x == q * y + m,
                0 <= m,
                q >= 0,
                y >= 2,
        ;
    }
    if (a < 0) == (b < 0) {
        assert(q * (b as int) == if a < 0 { -(q * y) } else { q * y }) by (nonlinear_arith)
            requires
                y == abs(b as int),
                (a < 0) == (b < 0),
        ;
    } else {
        assert(-q * (b as int) == if a < 0 { -(q * y) } else { q * y }) by (nonlinear_arith)
            requires
                y == abs(b as int),
                (a < 0) != (b < 0),
        ;
    }
}


/// The number the decimal digits `s` stand for.
pub open spec fn decimal_number(s: Seq<char>) -> nat
    decreases s.len(),
{
    if s.len() == 0 {
        0
    } else {
        decimal_number(s.drop_last()) * 10 + ((s.last() as u32 - '0' as u32) as nat)
    }
}

/// Whether `s` is one or more decimal digits.
pub open spec fn all_digits(s: Seq<char>) -> bool {
    s.len() > 0 && forall|k: int| 0 <= k < s.len() ==> is_digit(#[trigger] s[k])
}

/// The integer the text `s` stands for, as `i64::from_str` reads it: an
/// optional `+` or `-` sign followed by decimal digits and nothing else.
pub open spec fn signed_decimal_value(s: Seq<char>) -> Option<int> {
    if s.len() > 0 && s[0] == '-' && all_digits(s.drop_first()) {
        Some(-(decimal_number(s.drop_first()) as int))
    } else if s.len() > 0 && s[0] == '+' && all_digits(s.drop_first()) {
        Some(decimal_number(s.drop_first()) as int)
    } else if all_digits(s) {
        Some(decimal_number(s) as int)
    } else {
        None
    }
}

/// Whether `i64::from_str` accepts `s`: a signed decimal that fits.
pub open spec fn parses_i64(s: Seq<char>) -> bool {
    signed_decimal_value(s) matches Some(v) && fits_i64(v)
}

/// The message with which `i64::from_str` refuses the text `s`.
pub uninterp spec fn int_parse_error(s: Seq<char>) -> Seq<char>;

/// `s` read as an `i64`, or the message of its refusal.
///
/// Wraps `str::parse::<i64>` (`i64::from_str`), which the standard library
/// documents as accepting an optional `+` or `-` sign followed by decimal
/// digits, and nothing else, of a value that fits; the message is the
/// `Display` text of the error, named here and not stated.
#[verifier::external_body]
fn parse_i64(s: &str) -> (r: Result<i64, String>)
    ensures
        r is Ok <==> parses_i64(s@),
        r matches Ok(v) ==> signed_decimal_value(s@) == Some(v as int),
        r matches Err(m) ==> m@ == int_parse_error(s@),
{
    match s.parse::<i64>() {
        Ok(v) => Ok(v),
        Err(e) => Err(format!("{}", e)),
    }
}

impl Int {
    /// `self + rhs`; an overflow error where the sum is not an int.
    pub fn add(&self, rhs: &Int) -> (r: Result<Int, ExecutionError>)
        ensures
            r == int_result("add", self.0, rhs.0, self.0 + rhs.0),
    {
        match self.0.checked_add(rhs.0) {
            Some(v) => Ok(Int(v)),
            None => Err(ExecutionError::Overflow("add", Operand::Int(self.0), Operand::Int(rhs.0))),
        }
    }

    /// `self - rhs`; an overflow error where the difference is not an int.
    pub fn sub(&self, rhs: &Int) -> (r: Result<Int, ExecutionError>)
        ensures
            r == int_result("sub", self.0, rhs.0, self.0 - rhs.0),
    {
        match self.0.checked_sub(rhs.0) {
            Some(v) => Ok(Int(v)),
            None => Err(ExecutionError::Overflow("sub", Operand::Int(self.0), Operand::Int(rhs.0))),
        }
    }

    /// `self * rhs`; an overflow error where the product is not an int.
    pub fn mul(&self, rhs: &Int) -> (r: Result<Int, ExecutionError>)
        ensures
            r == int_result("mul", self.0, rhs.0, self.0 * rhs.0),
    {
        match self.0.checked_mul(rhs.0) {
            Some(v) => Ok(Int(v)),
            None => Err(ExecutionError::Overflow("mul", Operand::Int(self.0), Operand::Int(rhs.0))),
        }
    }

    /// `self / rhs`, rounded toward zero; an error for a zero divisor, and an
    /// overflow error for the one quotient that is not an int.
    pub fn div(&self, rhs: &Int) -> (r: Result<Int, ExecutionError>)
        ensures
            rhs.0 == 0 ==> r == Err::<Int, ExecutionError>(ExecutionError::DivisionByZero(Operand::Int(self.0))),
            rhs.0 != 0 ==> r == int_result("div", self.0, rhs.0, trunc_div(self.0 as int, rhs.0 as int)),
    {
        if rhs.0 == 0 {
            return Err(ExecutionError::DivisionByZero(Operand::Int(self.0)));
        }
        match self.0.checked_div(rhs.0) {
            Some(v) => Ok(Int(v)),
            None => Err(ExecutionError::Overflow("div", Operand::Int(self.0), Operand::Int(rhs.0))),
        }
    }

    /// `self % rhs`, with the sign of `self`; an error for a zero divisor,
    /// and an overflow error for `i64::MIN % -1`.
    pub fn modulo(&self, rhs: &Int) -> (r: Result<Int, ExecutionError>)
        ensures
            rhs.0 == 0 ==> r == Err::<Int, ExecutionError>(ExecutionError::RemainderByZero(Operand::Int(self.0))),
            rhs.0 != 0 && self.0 == i64::MIN && rhs.0 == -1 ==> r == Err::<Int, ExecutionError>(int_overflow("rem", self.0, rhs.0)),
            rhs.0 != 0 && !(self.0 == i64::MIN && rhs.0 == -1) ==> r == Ok::<Int, ExecutionError>(Int(trunc_rem(self.0 as int, rhs.0 as int) as i64)),
            rhs.0 != 0 && !(self.0 == i64::MIN && rhs.0 == -1) ==> fits_i64(trunc_rem(self.0 as int, rhs.0 as int)),
    {
        if rhs.0 == 0 {
            return Err(ExecutionError::RemainderByZero(Operand::Int(self.0)));
        }
        proof {
            let (a, b) = (self.0 as int, rhs.0 as int);
            assert(0 <= abs(a) % abs(b) < abs(b)) by (nonlinear_arith)
                requires
                    b != 0,
                    abs(b) > 0,
            ;
            if a == 0 {
                assert(abs(a) % abs(b) == 0) by (nonlinear_arith)
                    requires
                        abs(a) == 0,
                        abs(b) > 0,
                ;
            }
            assert(a * -1 == -a && b * -1 == -b);
        }
        match self.0.checked_rem(rhs.0) {
            Some(v) => Ok(Int(v)),
            None => Err(ExecutionError::Overflow("rem", Operand::Int(self.0), Operand::Int(rhs.0))),
        }
    }

    /// `-self`.
    pub fn negate(&self) -> (r: Result<Int, ExecutionError>)
        requires
            self.0 != i64::MIN,
        ensures
            r == Ok::<Int, ExecutionError>(Int((-self.0) as i64)),
    {
        Ok(Int(-self.0))
    }

    /// `int(u)` for the uint `u`: an error where `u` is above `i64::MAX`.
    pub fn from_uint(u: &UInt) -> (r: Result<Int, ExecutionError>)
        ensures
            u.0 <= i64::MAX ==> r == Ok::<Int, ExecutionError>(Int(u.0 as i64)),
            u.0 > i64::MAX ==> (r matches Err(ExecutionError::FunctionError { function: f, message: m })
                && f@ == "int"@ && m@ == "integer overflow"@),
    {
        if u.0 <= 0x7fff_ffff_ffff_ffffu64 {
            Ok(Int(u.0 as i64))
        } else {
            Err(ExecutionError::FunctionError { function: to_string("int"), message: to_string("integer overflow") })
        }
    }

    /// `int(s)` for the string `s`: the integer it writes in decimal, with
    /// an optional sign; an error where it writes none, or one that is not
    /// an int.
    pub fn from_string(s: &str) -> (r: Result<Int, ExecutionError>)
        ensures
            parses_i64(s@) ==> r == Ok::<Int, ExecutionError>(Int(signed_decimal_value(s@)->Some_0 as i64)),
            !parses_i64(s@) ==> (r matches Err(ExecutionError::FunctionError { function: f, message: m })
                && f@ == "int"@ && m@ == "string parse error: "@ + int_parse_error(s@)),
    {
        match parse_i64(s) {
            Ok(v) => Ok(Int(v)),
            Err(e) => {
                let mut message = to_string("string parse error: ");
                crate::text::push_str(&mut message, e.as_str());
                Err(ExecutionError::FunctionError { function: to_string("int"), message })
            },
        }
    }

    /// How `self` compares with the int `rhs`.
    pub fn compare(&self, rhs: &Int) -> (r: Ordering)
        ensures
            r == int_ordering(self.0, rhs.0),
    {
        if self.0 < rhs.0 {
            Ordering::Less
        } else if self.0 == rhs.0 {
            Ordering::Equal
        } else {
            Ordering::Greater
        }
    }

    /// How `self` compares with the uint `rhs`, as numbers: a negative int
    /// is below every uint.
    pub fn compare_uint(&self, rhs: &UInt) -> (r: Ordering)
        ensures
            r == int_uint_ordering(self.0, rhs.0),
    {
        if self.0 < 0 {
            Ordering::Less
        } else {
            let a = crate::common::types::uint::unsigned_of(self.0);
            if a < rhs.0 {
                Ordering::Less
            } else if a == rhs.0 {
                Ordering::Equal
            } else {
                Ordering::Greater
            }
        }
    }
}

impl Zeroer for Int {
    /// Zero is the zero value.
    fn is_zero_value(&self) -> (r: bool)
        ensures
            r == (self.0 == 0),
    {
        self.0 == 0
    }
}

impl From<i64> for Int {
    fn from(v: i64) -> (r: Int) {
        Int(v)
    }
}

impl vstd::std_specs::convert::FromSpecImpl<i64> for Int {
    open spec fn obeys_from_spec() -> bool {
        true
    }

    open spec fn from_spec(v: i64) -> Int {
        Int(v)
    }
}

impl From<Int> for i64 {
    fn from(v: Int) -> (r: i64) {
        v.0
    }
}

impl vstd::std_specs::convert::FromSpecImpl<Int> for i64 {
    open spec fn obeys_from_spec() -> bool {
        true
    }

    open spec fn from_spec(v: Int) -> i64 {
        v.0
    }
}

} // verus!
