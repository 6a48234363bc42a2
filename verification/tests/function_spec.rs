use bf_lab::function_spec::FunctionSpec;

#[test]
fn parses_multiple_functions_and_unsafe_mode() {
    let functions: Vec<FunctionSpec> = ["hello=hello.bf", "shell=shell.bf"]
        .iter()
        .map(|raw| FunctionSpec::from_str(raw).unwrap())
        .collect();

    assert_eq!(functions.len(), 2);
    assert_eq!(functions[0].name, "hello");
    assert_eq!(functions[0].path, "hello.bf");
    assert_eq!(functions[1].name, "shell");
}

#[test]
fn rejects_malformed_function_specs() {
    assert!(FunctionSpec::from_str("hello.bf").is_err());
}

#[test]
fn function_spec_errors_and_first_equals_sign() {
    assert_eq!(FunctionSpec::from_str("hello.bf").unwrap_err(), "expected NAME=FILE");
    assert_eq!(FunctionSpec::from_str("=a.bf").unwrap_err(), "function name cannot be empty");
    assert_eq!(FunctionSpec::from_str("f=").unwrap_err(), "source path cannot be empty");
    let spec = FunctionSpec::from_str("f=a=b.bf").unwrap();
    assert_eq!((spec.name.as_str(), spec.path.as_str()), ("f", "a=b.bf"));
}

#[test]
fn function_specs_compare_by_fields() {
    let spec = FunctionSpec::from_str("main=prog.bf").unwrap();
    assert_eq!(spec, FunctionSpec { name: "main".to_string(), path: "prog.bf".to_string() });
    assert_ne!(spec, FunctionSpec::from_str("main=other.bf").unwrap());
}
