use wrasm::studio::sig::active_param;

#[test]
fn first_param_after_first_comma() {
    let line = "invoke CreateFileW, rcx";
    assert_eq!(active_param(line, line.len()), Some(("CreateFileW".to_string(), 0)));
}

#[test]
fn third_param_after_two_commas() {
    let line = "invoke CreateFileW, a, b, c";
    assert_eq!(active_param(line, line.len()), Some(("CreateFileW".to_string(), 2)));
}

#[test]
fn on_the_function_name_is_none() {
    let line = "invoke CreateFil";
    assert_eq!(active_param(line, line.len()), None);
}

#[test]
fn brackets_do_not_count_as_separators() {
    // The comma inside [rax + rbx*2] must not advance the parameter index.
    let line = "invoke Foo, [rax + rbx], next";
    // cursor right after the bracketed arg's comma -> second param (index 1).
    assert_eq!(active_param(line, line.len()), Some(("Foo".to_string(), 1)));
}

#[test]
fn non_invoke_line_is_none() {
    assert_eq!(active_param("mov rax, 1", 9), None);
}
