use cel::common::types::{int_type, optional_type, string_type, Kind, Type};
use cel::env::Env;
use cel::registry::{is_qualified_ident, TypeRegistry};
use cel::DeclarationError;
use std::sync::Arc;

type Op = fn(i64) -> i64;

fn noop(x: i64) -> i64 {
    x
}

fn double(x: i64) -> i64 {
    2 * x
}

fn duplicate(function: &str, id: &str) -> DeclarationError {
    DeclarationError::duplicate_overload(function, id)
}

#[test]
fn a_new_registry_is_empty() {
    let registry = TypeRegistry::default();
    assert!(registry.find_type("int").is_none());
    assert!(registry.find_type("optional_type").is_none());
}

#[test]
fn a_type_is_found_by_its_name() {
    let mut registry = TypeRegistry::default();
    assert_eq!(registry.register(Type::new_opaque_type("my.pkg.Ip")), Ok(()));
    let t = registry.find_type("my.pkg.Ip").unwrap();
    assert_eq!(t.kind(), Kind::Opaque);
    assert_eq!(t.name(), "my.pkg.Ip");
}

#[test]
fn registering_the_same_type_again_is_a_no_op() {
    let mut registry = TypeRegistry::default();
    assert_eq!(registry.register(optional_type()), Ok(()));
    assert_eq!(registry.register(optional_type()), Ok(()));
    assert_eq!(registry.find_type("optional_type"), Some(&optional_type()));
}

#[test]
fn another_type_of_the_same_name_is_a_conflict() {
    let mut registry = TypeRegistry::default();
    registry.register(int_type()).unwrap();
    assert_eq!(
        registry.register(Type::new_opaque_type("int")),
        Err(DeclarationError::type_conflict("int"))
    );
    assert_eq!(registry.find_type("int"), Some(&int_type()));

    registry.register(Type::new_opaque_type("Ip")).unwrap();
    assert_eq!(
        registry.register(Type::simple_type(Kind::Opaque, "Ip")),
        Ok(()),
        "an equal type, however built"
    );
    assert_eq!(
        registry.register(Type::simple_type(Kind::Unspecified, "Ip")),
        Err(DeclarationError::type_conflict("Ip"))
    );
}

#[test]
fn a_name_no_expression_can_refer_to_is_invalid() {
    let mut registry = TypeRegistry::default();
    for name in ["", ".", "a.", ".a", "a..b", "1a", "a-b", "a b", "`a`"] {
        assert_eq!(
            registry.register(Type::new_opaque_type(name)),
            Err(DeclarationError::invalid_type_name(name)),
            "{name:?}"
        );
        assert!(registry.find_type(name).is_none(), "{name:?}");
    }
    for name in ["a", "_a", "a1", "a_b.C", "my.pkg.Type"] {
        assert_eq!(registry.register(Type::new_opaque_type(name)), Ok(()), "{name:?}");
    }
}

#[test]
fn qualified_identifiers_are_dotted_identifiers() {
    assert!(is_qualified_ident("google.protobuf.Duration"));
    assert!(is_qualified_ident("_"));
    assert!(!is_qualified_ident("a.1b"));
    assert!(!is_qualified_ident("a._b.") );
}

#[test]
fn test_env_default() {
    let _: Arc<dyn Send + Sync> = Arc::new(Env::<Op>::default());
}

#[test]
fn add_overload_rejects_a_duplicate_id() {
    let mut env = Env::<Op>::default();
    assert_eq!(env.add_overload("f", "f_int", vec![int_type()], noop), Ok(()));
    // another signature, but the id is taken
    assert_eq!(
        env.add_overload("f", "f_int", vec![string_type()], noop),
        Err(duplicate("f", "f_int"))
    );
}

#[test]
fn add_overload_rejects_a_duplicate_signature() {
    let mut env = Env::<Op>::default();
    assert_eq!(env.add_overload("f", "f_int", vec![int_type()], noop), Ok(()));
    // another id, but the signature is taken
    assert_eq!(
        env.add_overload("f", "other_id", vec![int_type()], noop),
        Err(duplicate("f", "other_id"))
    );
}

#[test]
fn add_member_overload_rejects_a_duplicate_id_or_signature() {
    let mut env = Env::<Op>::default();
    assert_eq!(env.add_member_overload("f", "int_f", int_type(), vec![], noop), Ok(()));
    assert_eq!(
        env.add_member_overload("f", "int_f", string_type(), vec![], noop),
        Err(duplicate("f", "int_f"))
    );
    assert_eq!(
        env.add_member_overload("f", "other_id", int_type(), vec![], noop),
        Err(duplicate("f", "other_id"))
    );
}

#[test]
fn a_global_and_a_member_overload_may_share_a_shape_but_not_an_id() {
    let mut env = Env::<Op>::default();
    assert_eq!(env.add_overload("f", "f_int", vec![int_type()], noop), Ok(()));
    assert_eq!(env.add_member_overload("f", "int_f", int_type(), vec![], noop), Ok(()));
    assert_eq!(
        env.add_member_overload("f", "f_int", string_type(), vec![], noop),
        Err(duplicate("f", "f_int"))
    );
}

#[test]
fn a_rejected_overload_is_not_declared() {
    let mut env = Env::<Op>::default();
    env.add_overload("f", "f_int", vec![int_type()], noop).unwrap();
    assert!(env.add_overload("f", "f_dup", vec![int_type()], noop).is_err());
    assert!(env.add_overload("g", "f_int", vec![int_type()], noop).is_ok());

    assert!(env.find_overload("f", &[int_type()]).is_some());
    assert!(env.has_overload("f") && env.has_overload("g"));
    assert!(!env.has_member_overload("f"));
}

#[test]
fn an_added_overload_is_found_by_its_signature() {
    let mut env = Env::<Op>::default();
    env.add_overload("f", "f_int", vec![int_type()], double).unwrap();
    env.add_overload("f", "f_string", vec![string_type()], noop).unwrap();
    env.add_member_overload("f", "int_f", int_type(), vec![int_type()], noop).unwrap();
    assert_eq!(env.find_overload("f", &[int_type()]).map(|op| op(21)), Some(42));
    assert_eq!(env.find_overload("f", &[string_type()]).map(|op| op(21)), Some(21));
    assert!(env.find_overload("f", &[int_type(), int_type()]).is_none());
    assert!(env.find_member_overload("f", &[int_type(), int_type()]).is_some());
    assert!(env.find_member_overload("f", &[int_type()]).is_none());
    assert!(env.find_overload("g", &[int_type()]).is_none());
}

#[test]
fn environment_types_and_options() {
    let mut env = Env::<Op>::default();
    assert!(env.error_on_duplicate_map_keys());
    env.set_error_on_duplicate_map_keys(false);
    assert!(!env.error_on_duplicate_map_keys());
    assert_eq!(env.add_type(Type::new_opaque_type("Ip")), Ok(()));
    assert_eq!(env.add_type(Type::new_opaque_type("Ip")), Ok(()));
    assert_eq!(
        env.add_type(Type::new_unspecified_type("Ip")),
        Err(DeclarationError::type_conflict("Ip"))
    );
    assert_eq!(env.types().find_type("Ip").map(Type::kind), Some(Kind::Opaque));
}
