use cargo_align::lines::lines_of;

fn lines(s: &str) -> Vec<String> {
    let chars: Vec<char> = s.chars().collect();
    lines_of(&chars).iter().map(|l| l.iter().collect()).collect()
}

#[test]
fn lines_end_at_line_feeds() {
    assert_eq!(lines(""), Vec::<String>::new());
    assert_eq!(lines("a"), vec!["a"]);
    assert_eq!(lines("a\n"), vec!["a"]);
    assert_eq!(lines("a\nb"), vec!["a", "b"]);
    assert_eq!(lines("a\n\nb\n"), vec!["a", "", "b"]);
    assert_eq!(lines("\n"), vec![""]);
    assert_eq!(lines("\n\n"), vec!["", ""]);
}

#[test]
fn a_carriage_return_before_a_line_feed_goes_with_it() {
    assert_eq!(lines("a\r\nb\r\n"), vec!["a", "b"]);
    assert_eq!(lines("a\r\r\nb"), vec!["a\r", "b"]);
    assert_eq!(lines("\r\n"), vec![""]);
}

#[test]
fn a_lone_carriage_return_ends_no_line() {
    assert_eq!(lines("a\rb"), vec!["a\rb"]);
    assert_eq!(lines("a\r"), vec!["a\r"]);
    assert_eq!(lines("a\nb\r"), vec!["a", "b\r"]);
}

#[test]
fn lines_are_split_as_the_standard_library_splits_them() {
    for s in ["", "a", "a\n", "a\nb", "\n", "\n\n", "a\r\nb\r\n", "a\r\r\nb", "a\rb", "a\r", "x\n\r\ny\r"] {
        let std: Vec<String> = s.lines().map(str::to_owned).collect();
        assert_eq!(lines(s), std, "{:?}", s);
    }
}
