use conject_macro::naming::{join, snake_to_pascal, with_number};

#[test]
fn snake_to_pascal_capitalises_each_word() {
    assert_eq!(snake_to_pascal("hello_world"), "HelloWorld");
    assert_eq!(snake_to_pascal("other"), "Other");
    assert_eq!(snake_to_pascal("a_b_c"), "ABC");
}

#[test]
fn snake_to_pascal_drops_empty_words() {
    assert_eq!(snake_to_pascal(""), "");
    assert_eq!(snake_to_pascal("_x"), "X");
    assert_eq!(snake_to_pascal("a__b_"), "AB");
    assert_eq!(snake_to_pascal("___"), "");
}

#[test]
fn snake_to_pascal_keeps_the_rest_of_each_word() {
    assert_eq!(snake_to_pascal("http_Server2"), "HttpServer2");
    assert_eq!(snake_to_pascal("9lives_x"), "9livesX");
}

#[test]
fn with_number_appends_decimal_digits() {
    assert_eq!(with_number("v", 0), "v0");
    assert_eq!(with_number("v", 12), "v12");
    assert_eq!(with_number("__nject_expr_s", 305), "__nject_expr_s305");
}

#[test]
fn join_puts_texts_together() {
    assert_eq!(join("Provider", "Scope"), "ProviderScope");
    assert_eq!(join("", "scope"), "scope");
}
