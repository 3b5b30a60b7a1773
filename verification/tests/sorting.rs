use cargo_align::align_string;

#[test]
fn equal_length_sort() {
    assert_eq!(
        align_string("    align_by sort \"=\"\n1=1\n2=2\n").unwrap(),
        "    align_by sort \"=\"\n1=1\n2=2\n"
    );
}

#[test]
fn equal_length_sort_from_unsorted_lines() {
    assert_eq!(
        align_string("    align_by sort \"=\"\n2=2\n1=1\n").unwrap(),
        "    align_by sort \"=\"\n1=1\n2=2\n"
    );
}

#[test]
fn align_and_sort() {
    assert_eq!(
        align_string("    align_by sort \"=\"\n1 =1\n22=2\n").unwrap(),
        "    align_by sort \"=\"\n1 =1\n22=2\n"
    );
}

#[test]
fn align_and_sort_from_unsorted_lines() {
    assert_eq!(
        align_string("    align_by sort \"=\"\n22=2\n1=1\n").unwrap(),
        "    align_by sort \"=\"\n1 =1\n22=2\n"
    );
}

#[test]
fn sort_align_and_ignore_align_statements() {
    assert_eq!(
        align_string("    align_by sort \"=\"\n    align_by sort \"=\"\n1 =1\n22=2\n").unwrap(),
        "    align_by sort \"=\"\n    align_by sort \"=\"\n1 =1\n22=2\n"
    );
}

#[test]
fn sort_align_and_ignore_align_statements_from_unsorted_lines() {
    assert_eq!(
        align_string("    align_by sort \"=\"\n    align_by sort \"=\"\n22=2\n1=1\n").unwrap(),
        "    align_by sort \"=\"\n    align_by sort \"=\"\n1 =1\n22=2\n"
    );
}
