use cel::common::types::bytes::Bytes;
use cel::common::types::integer::Int;
use cel::common::types::list::DefaultList;
use cel::common::types::string::String as CelString;
use cel::common::types::uint::UInt;
use cel::ExecutionError::{DivisionByZero, Overflow, RemainderByZero};
use cel::{ExecutionError, Operand};
use std::cmp::Ordering::{Equal, Greater, Less};

#[test]
fn test_compare() {
    let one = Int(1);
    let two = Int(2);
    assert_eq!(one.compare(&two), Less);
    assert_eq!(two.compare(&one), Greater);
    assert_eq!(two.compare(&two), Equal);
}

#[test]
fn invalid_int_math() {
    assert_eq!(Int(1).div(&Int(0)), Err(DivisionByZero(Operand::Int(1))));
    assert_eq!(Int(1).modulo(&Int(0)), Err(RemainderByZero(Operand::Int(1))));
    assert_eq!(
        Int(i64::MAX).add(&Int(1)),
        Err(Overflow("add", Operand::Int(i64::MAX), Operand::Int(1)))
    );
    assert_eq!(
        Int(i64::MIN).sub(&Int(1)),
        Err(Overflow("sub", Operand::Int(i64::MIN), Operand::Int(1)))
    );
    assert_eq!(
        Int(i64::MAX).mul(&Int(2)),
        Err(Overflow("mul", Operand::Int(i64::MAX), Operand::Int(2)))
    );
    assert_eq!(
        Int(i64::MIN).div(&Int(-1)),
        Err(Overflow("div", Operand::Int(i64::MIN), Operand::Int(-1)))
    );
    assert_eq!(
        Int(i64::MIN).modulo(&Int(-1)),
        Err(Overflow("rem", Operand::Int(i64::MIN), Operand::Int(-1)))
    );
}

#[test]
fn invalid_uint_math() {
    assert_eq!(UInt(1).div(&UInt(0)), Err(DivisionByZero(Operand::UInt(1))));
    assert_eq!(UInt(1).modulo(&UInt(0)), Err(RemainderByZero(Operand::UInt(1))));
    assert_eq!(
        UInt(u64::MAX).add(&UInt(1)),
        Err(Overflow("add", Operand::UInt(u64::MAX), Operand::UInt(1)))
    );
    assert_eq!(
        UInt(0).sub(&UInt(1)),
        Err(Overflow("sub", Operand::UInt(0), Operand::UInt(1)))
    );
    assert_eq!(
        UInt(u64::MAX).mul(&UInt(2)),
        Err(Overflow("mul", Operand::UInt(u64::MAX), Operand::UInt(2)))
    );
}

#[test]
fn int_operators_compute_exactly() {
    assert_eq!(Int(40).add(&Int(2)), Ok(Int(42)));
    assert_eq!(Int(-40).sub(&Int(2)), Ok(Int(-42)));
    assert_eq!(Int(-6).mul(&Int(7)), Ok(Int(-42)));
    assert_eq!(Int(i64::MIN).div(&Int(1)), Ok(Int(i64::MIN)));
    assert_eq!(Int(5).negate(), Ok(Int(-5)));
    assert_eq!(Int(i64::MAX).negate(), Ok(Int(-i64::MAX)));
}

#[test]
fn division_rounds_toward_zero_and_the_remainder_follows_the_dividend() {
    for (a, b) in [(7i64, 2i64), (-7, 2), (7, -2), (-7, -2), (0, -3), (i64::MIN, 2), (i64::MIN, i64::MAX)] {
        let q = Int(a).div(&Int(b)).unwrap().0;
        let r = Int(a).modulo(&Int(b)).unwrap().0;
        assert_eq!(q as i128 * b as i128 + r as i128, a as i128);
        assert!(r == 0 || (r < 0) == (a < 0));
        assert!((r as i128).abs() < (b as i128).abs());
    }
    assert_eq!(Int(-7).div(&Int(2)), Ok(Int(-3)));
    assert_eq!(Int(-7).modulo(&Int(2)), Ok(Int(-1)));
    assert_eq!(Int(7).modulo(&Int(-2)), Ok(Int(1)));
}

#[test]
fn uint_operators_compute_exactly() {
    assert_eq!(UInt(40).add(&UInt(2)), Ok(UInt(42)));
    assert_eq!(UInt(44).sub(&UInt(2)), Ok(UInt(42)));
    assert_eq!(UInt(6).mul(&UInt(7)), Ok(UInt(42)));
    assert_eq!(UInt(85).div(&UInt(2)), Ok(UInt(42)));
    assert_eq!(UInt(85).modulo(&UInt(2)), Ok(UInt(1)));
}

#[test]
fn ints_and_uints_compare_as_numbers() {
    assert_eq!(Int(1).compare_uint(&UInt(2)), Less);
    assert_eq!(Int(-1).compare_uint(&UInt(0)), Less);
    assert_eq!(Int(2).compare_uint(&UInt(2)), Equal);
    assert_eq!(Int(i64::MAX).compare_uint(&UInt(u64::MAX)), Less);
    assert_eq!(UInt(0).compare_int(&Int(-10)), Greater);
    assert_eq!(UInt(u64::MAX).compare_int(&Int(i64::MAX)), Greater);
    assert_eq!(UInt(3).compare_int(&Int(3)), Equal);
    assert_eq!(UInt(3).compare(&UInt(4)), Less);
}

#[test]
fn strings_and_bytes_concatenate_and_order_lexicographically() {
    let a = CelString::from(String::from("ab"));
    let b = CelString::from(String::from("abc"));
    assert_eq!(a.add(&b).into_inner(), "ababc");
    assert_eq!(a.compare(&b), Less);
    assert_eq!(b.compare(&a), Greater);
    assert_eq!(a.compare(&a), Equal);
    assert_eq!(CelString::from(String::from("é")).compare(&CelString::from(String::from("z"))), Greater);
    let x = Bytes::from(vec![1u8, 2]);
    let y = Bytes::from(vec![1u8, 3]);
    assert_eq!(x.add(&y).into_inner(), vec![1u8, 2, 1, 3]);
    assert_eq!(x.compare(&y), Less);
    assert_eq!(y.compare(&x), Greater);
    assert_eq!(Bytes::from(vec![]).compare(&x), Less);
}

#[test]
fn int_and_uint_convert_where_the_value_fits() {
    assert_eq!(Int::from_uint(&UInt(9223372036854775807)), Ok(Int(i64::MAX)));
    assert!(matches!(
        Int::from_uint(&UInt(9223372036854775808)),
        Err(ExecutionError::FunctionError { ref function, ref message })
            if function == "int" && message == "integer overflow"
    ));
    assert_eq!(UInt::from_int(&Int(0)), Ok(UInt(0)));
    assert_eq!(UInt::from_int(&Int(9223372036854775807)), Ok(UInt(9223372036854775807)));
    assert!(matches!(
        UInt::from_int(&Int(-1)),
        Err(ExecutionError::FunctionError { ref function, ref message })
            if function == "uint" && message == "unsigned integer overflow"
    ));
}

#[test]
fn strings_convert_to_integers_in_decimal() {
    assert_eq!(Int::from_string("10"), Ok(Int(10)));
    assert_eq!(Int::from_string("-9223372036854775808"), Ok(Int(i64::MIN)));
    assert_eq!(Int::from_string("+7"), Ok(Int(7)));
    assert!(matches!(
        Int::from_string("9223372036854775808"),
        Err(ExecutionError::FunctionError { ref function, ref message })
            if function == "int" && message.starts_with("string parse error: ")
    ));
    assert!(Int::from_string("").is_err());
    assert!(Int::from_string(" 1").is_err());
    assert!(Int::from_string("0x10").is_err());
    assert_eq!(UInt::from_string("10"), Ok(UInt(10)));
    assert_eq!(UInt::from_string("18446744073709551615"), Ok(UInt(u64::MAX)));
    assert!(UInt::from_string("18446744073709551616").is_err());
    assert!(matches!(
        UInt::from_string("-1"),
        Err(ExecutionError::FunctionError { ref function, ref message })
            if function == "uint" && message.starts_with("string parse error: ")
    ));
}

#[test]
fn list_access_uint() {
    let list = DefaultList::new(vec![Int(1), Int(2)]);
    assert_eq!(list.get(&Operand::UInt(1)), Ok(&Int(2)));
}

#[test]
fn list_indices_out_of_range_are_errors() {
    let list = DefaultList::new(vec![Int(1), Int(2)]);
    assert_eq!(list.get(&Operand::Int(-1)), Err(ExecutionError::IndexOutOfBounds(Operand::Int(-1))));
    assert_eq!(list.get(&Operand::Int(2)), Err(ExecutionError::IndexOutOfBounds(Operand::Int(2))));
    assert_eq!(list.get(&Operand::UInt(u64::MAX)), Err(ExecutionError::IndexOutOfBounds(Operand::UInt(u64::MAX))));
    assert_eq!(list.get(&Operand::Int(0)), Ok(&Int(1)));
    assert_eq!(list.size(), Int(2));
    assert!(!list.is_zero_value());
    assert!(DefaultList::<Int>::new(vec![]).is_zero_value());
    assert_eq!(DefaultList::new(vec![Int(5), Int(6), Int(7)]).steal(&Operand::UInt(0)), Ok(Int(5)));
    assert_eq!(
        DefaultList::new(vec![Int(5)]).steal(&Operand::Int(1)),
        Err(ExecutionError::IndexOutOfBounds(Operand::Int(1)))
    );
}

#[test]
fn out_of_bound_list_access() {
    let list = DefaultList::<Int>::new(vec![]);
    assert_eq!(list.get(&Operand::Int(10)), Err(ExecutionError::IndexOutOfBounds(Operand::Int(10))));
}

#[test]
fn out_of_bound_list_access_negative() {
    let list = DefaultList::<Int>::new(vec![]);
    assert_eq!(list.get(&Operand::Int(-1)), Err(ExecutionError::IndexOutOfBounds(Operand::Int(-1))));
}
