use cel::macros::to_camel_case;

#[test]
fn to_camel_case_single_word() {
    assert_eq!(to_camel_case("matches"), "matches");
}

#[test]
fn to_camel_case_two_words() {
    assert_eq!(to_camel_case("ends_with"), "endsWith");
}

#[test]
fn to_camel_case_three_words() {
    assert_eq!(to_camel_case("day_of_year"), "dayOfYear");
}

#[test]
fn to_camel_case_leading_and_trailing_underscores_dropped() {
    assert_eq!(to_camel_case("_foo_bar_"), "fooBar");
}

#[test]
fn to_camel_case_collapses_repeated_underscores() {
    assert_eq!(to_camel_case("foo__bar"), "fooBar");
}

#[test]
fn to_camel_case_keeps_non_letters() {
    assert_eq!(to_camel_case("get_2nd_item"), "get2ndItem");
    assert_eq!(to_camel_case("___"), "");
}

#[test]
fn camel_case_drops_leading_and_trailing_underscores() {
    assert_eq!(to_camel_case("_foo_bar_"), "fooBar");
    assert_eq!(to_camel_case("__x"), to_camel_case("x"));
}
