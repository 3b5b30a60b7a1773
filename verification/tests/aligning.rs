use cargo_align::align_string;

#[test]
fn dont_insert_newline() {
    assert_eq!(align_string("").unwrap(), "");
}

#[test]
fn dont_remove_newline() {
    assert_eq!(align_string("\n").unwrap(), "\n");
}

#[test]
fn parsing_ignores_trailing_garbage() {
    assert_eq!(align_string(r#"align_by "="1"#).unwrap(), r#"align_by "="1"#);
}

#[test]
fn standard_example() {
    assert_eq!(
        align_string("    align_by \"=\"\n1   = 222\n111 = 2\n").unwrap(),
        "    align_by \"=\"\n1   = 222\n111 = 2\n"
    );
}

#[test]
fn standard_example_from_ragged_lines() {
    assert_eq!(
        align_string("    align_by \"=\"\n1 = 222\n111 = 2\n").unwrap(),
        "    align_by \"=\"\n1   = 222\n111 = 2\n"
    );
}

#[test]
fn collapse_spaces() {
    assert_eq!(
        align_string("    align_by \"=\"\n1   = 222\n111 = 2\n").unwrap(),
        "    align_by \"=\"\n1   = 222\n111 = 2\n"
    );
}

#[test]
fn collapse_wide_spaces() {
    assert_eq!(
        align_string("    align_by \"=\"\n1      =   222\n111 =  2\n").unwrap(),
        "    align_by \"=\"\n1   = 222\n111 = 2\n"
    );
}

#[test]
fn standard_example_double_parsing() {
    assert_eq!(
        align_string("    align_by \"= ;\"\n1   = 222;\n111 = 2  ;\n").unwrap(),
        "    align_by \"= ;\"\n1   = 222;\n111 = 2  ;\n"
    );
}

#[test]
fn double_parsing_from_ragged_lines() {
    assert_eq!(
        align_string("    align_by \"= ;\"\n1 = 222;\n111 = 2;\n").unwrap(),
        "    align_by \"= ;\"\n1   = 222;\n111 = 2  ;\n"
    );
}

#[test]
fn alignment_statements_dont_align_each_other() {
    assert_eq!(
        align_string("    align_by \"=\"\n    align_by \"=\"\n1=1\n").unwrap(),
        "    align_by \"=\"\n    align_by \"=\"\n1=1\n"
    );
}

#[test]
fn spaces_are_expanded() {
    assert_eq!(
        align_string("    align_by \"=\"\n1 =1\n22=2\n").unwrap(),
        "    align_by \"=\"\n1 =1\n22=2\n"
    );
}

#[test]
fn spaces_are_expanded_from_ragged_lines() {
    assert_eq!(
        align_string("    align_by \"=\"\n1=1\n22=2\n").unwrap(),
        "    align_by \"=\"\n1 =1\n22=2\n"
    );
}
