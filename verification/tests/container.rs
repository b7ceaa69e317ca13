use cel::checker::container::resolve_candidate_names;

#[test]
fn test_no_container() {
    let candidates = resolve_candidate_names(None, "Foo");
    assert_eq!(candidates, vec!["Foo"]);
}

#[test]
fn test_empty_container() {
    let candidates = resolve_candidate_names(Some(""), "Foo");
    assert_eq!(candidates, vec!["Foo"]);
}

#[test]
fn test_simple_container() {
    let candidates = resolve_candidate_names(Some("a"), "Foo");
    assert_eq!(candidates, vec!["a.Foo", "Foo"]);
}

#[test]
fn test_nested_container() {
    let candidates = resolve_candidate_names(Some("a.b.c"), "R.s");
    assert_eq!(candidates, vec!["a.b.c.R.s", "a.b.R.s", "a.R.s", "R.s"]);
}

#[test]
fn test_proto_container() {
    let candidates = resolve_candidate_names(Some("cel.expr.conformance.proto2"), "TestAllTypes");
    assert_eq!(
        candidates,
        vec![
            "cel.expr.conformance.proto2.TestAllTypes",
            "cel.expr.conformance.TestAllTypes",
            "cel.expr.TestAllTypes",
            "cel.TestAllTypes",
            "TestAllTypes"
        ]
    );
}

#[test]
fn test_absolute_reference() {
    let candidates = resolve_candidate_names(Some("a.b.c"), ".Absolute.Name");
    assert_eq!(candidates, vec!["Absolute.Name"]);
}

#[test]
fn test_qualified_name() {
    let candidates = resolve_candidate_names(Some("pkg"), "sub.Type");
    assert_eq!(candidates, vec!["pkg.sub.Type", "sub.Type"]);
}

#[test]
fn container_with_empty_segments_keeps_them() {
    let candidates = resolve_candidate_names(Some(".a"), "X");
    assert_eq!(candidates, vec![".a.X", ".X", "X"]);
}
