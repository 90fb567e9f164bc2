use karva::storage::{base_function_name, parse_source};

#[test]
fn test_parse_source_with_line_number() {
    let (file, name) = parse_source("test.py:5::test_foo").expect("parse");
    assert_eq!(file, "test.py");
    assert_eq!(name, "test_foo");
}

#[test]
fn test_parse_source_without_line_number() {
    let (file, name) = parse_source("test.py::test_foo").expect("parse");
    assert_eq!(file, "test.py");
    assert_eq!(name, "test_foo");
}

#[test]
fn test_parse_source_parametrized() {
    let (file, name) = parse_source("test.py:6::test_param(x=1)").expect("parse");
    assert_eq!(file, "test.py");
    assert_eq!(name, "test_param(x=1)");
}

#[test]
fn test_parse_source_invalid() {
    assert!(parse_source("no_separator").is_none());
    assert!(parse_source("::name_only").is_none());
    assert!(parse_source("file::").is_none());
}

#[test]
fn test_base_function_name_simple() {
    assert_eq!(base_function_name("test_foo"), "test_foo");
}

#[test]
fn test_base_function_name_parametrized() {
    assert_eq!(base_function_name("test_foo(x=1)"), "test_foo");
}

#[test]
fn test_base_function_name_numbered() {
    assert_eq!(base_function_name("test_foo-2"), "test_foo");
    assert_eq!(base_function_name("test_foo-13"), "test_foo");
}

#[test]
fn test_base_function_name_inline() {
    assert_eq!(base_function_name("test_foo_inline_5"), "test_foo");
}

#[test]
fn test_base_function_name_inline_multi_digit() {
    assert_eq!(base_function_name("test_foo_inline_15"), "test_foo");
    assert_eq!(base_function_name("test_foo_inline_123"), "test_foo");
}

#[test]
fn test_base_function_name_class_prefix() {
    assert_eq!(base_function_name("TestClass::test_method"), "test_method");
}

#[test]
fn test_base_function_name_named() {
    assert_eq!(base_function_name("test_foo--header"), "test_foo");
    assert_eq!(base_function_name("test_foo--header(x=1)"), "test_foo");
}
