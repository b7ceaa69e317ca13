use cel::common::traits::Zeroer;
use cel::common::types::bool::Bool;
use cel::common::types::integer::Int;
use cel::common::types::map::{AsKeyRef, Key, KeyRef};
use cel::common::types::null::Null;
use cel::common::types::string::String as CelString;
use cel::common::types::type_val::CelType;
use cel::common::types::uint::UInt;
use cel::common::types::{bool_type, Kind, Type};
use cel::common::traits::{ADDER_TYPE, COMPARER_TYPE, SIZER_TYPE};

#[test]
fn test_from() {
    let value: Bool = true.into();
    let v: bool = value.into();
    assert!(v)
}

#[test]
fn test_type() {
    let value = Bool(true);
    assert_eq!(value.get_type(), bool_type());
    assert_eq!(value.get_type().kind(), Kind::Boolean);
}

#[test]
fn test_str() {
    let string = String::from("cel-rust");
    let text = string.as_ptr();
    let val = CelString::from(string);
    let r = val.inner();
    assert_eq!("cel-rust", r);
    assert!(std::ptr::eq(text, r.as_ptr()));
    assert!(std::ptr::eq(text, r.as_ptr()));
}

#[test]
fn test_clone() {
    let s = {
        let string = String::from("cel-rust");
        let val = CelString::from(string);
        val.clone()
    };
    assert_eq!(s, CelString::from(String::from("cel-rust")));
}

#[test]
fn type_traits_are_bits_of_the_mask() {
    let t = Type::new_list_type(Type::simple_type(Kind::Int, "int"));
    assert_eq!(t.name(), "list");
    assert_eq!(t.kind(), Kind::List);
    assert!(t.has_trait(ADDER_TYPE | SIZER_TYPE));
    assert!(!t.has_trait(COMPARER_TYPE));
    assert!(Type::simple_type(Kind::Error, "error").has_trait(0));
    let m = Type::new_map_type(Type::simple_type(Kind::Dyn, "dyn"), Type::simple_type(Kind::Dyn, "dyn"));
    assert_eq!(m.name(), "map");
    assert_eq!(Type::new_opaque_type("optional_type").kind(), Kind::Opaque);
    assert_eq!(Type::new_struct("a.B".to_string()).name(), "a.B");
}

#[test]
fn wrappers_give_their_values_back() {
    assert_eq!(Int(-3).into_inner(), -3);
    assert_eq!(*UInt(7).inner(), 7);
    assert!(Int(0).is_zero_value());
    assert!(!UInt(1).is_zero_value());
    assert!(Null.is_zero_value());
    assert_eq!(CelType::new_static("int").name(), "int");
    assert_eq!(CelType::new("a.B".to_string()).name(), "a.B");
}

#[test]
fn keys_look_up_by_value() {
    let k = Key::String(CelString::from(String::from("x")));
    assert_eq!(k.as_keyref(), KeyRef::String("x"));
    assert_eq!(Key::Int(Int(4)).as_keyref(), KeyRef::Int(4));
    assert_eq!(UInt(4).as_keyref(), KeyRef::Uint(4));
    assert_eq!(Key::Bool(Bool(true)).into_static().as_keyref(), KeyRef::Bool(true));
}

#[test]
fn type_values_are_equal_by_name() {
    assert_eq!(CelType::new_static("int"), CelType::new("int".to_string()));
    assert_ne!(CelType::new_static("int"), CelType::new_static("uint"));
}
