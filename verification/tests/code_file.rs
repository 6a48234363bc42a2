use bf_lab::codegen::code_file::{text_less, AddFuncError};
use bf_lab::codegen::{compile_function, CFunction, CodeFile, CompileOptions};

fn function(src: &str, name: &str) -> CFunction {
    compile_function(src, name, CompileOptions::default()).ok().unwrap()
}

#[test]
fn units_keep_functions_in_name_order() {
    let mut first = CodeFile::new();
    assert!(first.add_bf_func(function("+", "zeta")).is_ok());
    assert!(first.add_bf_func(function(".", "alpha")).is_ok());
    assert!(first.add_bf_func(function("-", "mid")).is_ok());
    let mut second = CodeFile::new();
    assert!(second.add_bf_func(function("-", "mid")).is_ok());
    assert!(second.add_bf_func(function("+", "zeta")).is_ok());
    assert!(second.add_bf_func(function(".", "alpha")).is_ok());
    let text = first.text_lines();
    assert_eq!(text, second.text_lines());
    assert_eq!(text[0], "#include <bfni.h>");
    assert_eq!(text[1], "");
    assert!(text[2].starts_with("bf_bool_t alpha("));
    let mid = text.iter().position(|l| l.starts_with("bf_bool_t mid(")).unwrap();
    let zeta = text.iter().position(|l| l.starts_with("bf_bool_t zeta(")).unwrap();
    assert!(2 < mid && mid < zeta);
    assert_eq!(text[mid - 1], "");
    assert_eq!(text.last().unwrap(), "}");
    let sizes: usize = [(".", "alpha"), ("-", "mid"), ("+", "zeta")]
        .iter()
        .map(|(src, name)| 1 + function(src, name).lines.len())
        .sum();
    assert_eq!(text.len(), 1 + sizes);
}

#[test]
fn units_reject_a_second_function_of_one_name() {
    let mut unit = CodeFile::new();
    assert!(unit.add_bf_func(function("+", "main_fn")).is_ok());
    let before = unit.text_lines();
    match unit.add_bf_func(function("-", "main_fn")) {
        Err(AddFuncError::DuplicateName(name)) => assert_eq!(name, "main_fn"),
        Ok(()) => panic!("duplicate accepted"),
    }
    assert_eq!(unit.text_lines(), before);
    let error = AddFuncError::DuplicateName("main_fn".to_string());
    assert_eq!(error.message(), "duplicate C function name: \"main_fn\"");
}

#[test]
fn empty_unit_is_the_header() {
    assert_eq!(CodeFile::new().text_lines(), vec!["#include <bfni.h>".to_string()]);
}

#[test]
fn dictionary_order_of_names() {
    assert!(text_less("a", "b"));
    assert!(!text_less("b", "a"));
    assert!(text_less("ab", "abc"));
    assert!(!text_less("abc", "ab"));
    assert!(!text_less("same", "same"));
    assert!(text_less("", "x"));
    assert!(text_less("Z", "a"));
}

#[test]
fn functions_compare_by_name() {
    let alpha = function("+", "alpha");
    let beta = function("-", "beta");
    assert!(alpha < beta);
    assert!(!(beta < alpha));
    assert_eq!(alpha.partial_cmp(&beta), Some(std::cmp::Ordering::Less));
    assert_eq!(beta.partial_cmp(&alpha), Some(std::cmp::Ordering::Greater));
    let other_alpha = function(".", "alpha");
    assert_eq!(alpha.partial_cmp(&other_alpha), Some(std::cmp::Ordering::Equal));
    assert!(alpha == other_alpha);
}
