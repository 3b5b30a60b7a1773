use cargo_align::text::{
    chars_of, copy_range, find_text, is_blank_char, join_with_spaces, matches_here, split_blank,
    squeeze_blanks, string_of, width_of, width_of_char, width_upto,
};

fn chars(s: &str) -> Vec<char> {
    s.chars().collect()
}

#[test]
fn chars_and_strings_convert_both_ways() {
    assert_eq!(chars_of("a=ß"), vec!['a', '=', 'ß']);
    assert_eq!(chars_of(""), Vec::<char>::new());
    assert_eq!(string_of(&['a', '=', 'ß']), "a=ß");
    assert_eq!(string_of(&[]), "");
}

#[test]
fn width_is_measured_in_utf8_bytes() {
    assert_eq!(width_of_char('a'), 1);
    assert_eq!(width_of_char('\u{7f}'), 1);
    assert_eq!(width_of_char('\u{80}'), 2);
    assert_eq!(width_of_char('ß'), 2);
    assert_eq!(width_of_char('\u{7ff}'), 2);
    assert_eq!(width_of_char('\u{800}'), 3);
    assert_eq!(width_of_char('€'), 3);
    assert_eq!(width_of_char('\u{ffff}'), 3);
    assert_eq!(width_of_char('\u{10000}'), 4);
    assert_eq!(width_of_char('😀'), 4);
    assert_eq!(width_of(&chars("aß€😀")), 10);
    assert_eq!(width_of(&chars("")), 0);
    assert_eq!(width_upto(&chars("aß€😀"), 2), 3);
    assert_eq!(width_upto(&chars("aß€😀"), 0), 0);
    for s in ["", "abc", "aß€😀", "\t \n"] {
        assert_eq!(width_of(&chars(s)), s.len());
    }
}

#[test]
fn blanks_are_the_ascii_whitespace() {
    for c in [' ', '\t', '\n', '\u{c}', '\r'] {
        assert!(is_blank_char(c));
    }
    for c in ['a', '\u{b}', '\u{a0}', '\u{2003}', '=', '\0'] {
        assert!(!is_blank_char(c));
    }
    for c in (0u8..=127).map(char::from) {
        assert_eq!(is_blank_char(c), c.is_ascii_whitespace());
    }
}

#[test]
fn matching_at_an_index() {
    let s = chars("abcabc");
    assert!(matches_here(&s, &chars("abc"), 0));
    assert!(matches_here(&s, &chars("abc"), 3));
    assert!(!matches_here(&s, &chars("abc"), 1));
    assert!(!matches_here(&s, &chars("abc"), 4));
    assert!(!matches_here(&s, &chars("abc"), 7));
    assert!(matches_here(&s, &chars(""), 6));
    assert!(!matches_here(&s, &chars(""), 7));
    assert!(!matches_here(&chars("ab"), &chars("abc"), 0));
}

#[test]
fn finding_the_first_occurrence() {
    assert_eq!(find_text(&chars("a = b = c"), &chars("=")), Some(2));
    assert_eq!(find_text(&chars("aab"), &chars("ab")), Some(1));
    assert_eq!(find_text(&chars("abc"), &chars("abc")), Some(0));
    assert_eq!(find_text(&chars("abc"), &chars("abcd")), None);
    assert_eq!(find_text(&chars("abc"), &chars("x")), None);
    assert_eq!(find_text(&chars("abc"), &chars("")), Some(0));
    assert_eq!(find_text(&chars(""), &chars("")), Some(0));
    assert_eq!(find_text(&chars(""), &chars("a")), None);
    assert_eq!(find_text(&chars("ßß=ß"), &chars("=")), Some(2));
}

#[test]
fn tokens_are_runs_of_non_blanks() {
    let toks = |s: &str| -> Vec<String> {
        split_blank(&chars(s)).iter().map(|t| t.iter().collect()).collect()
    };
    assert_eq!(toks(""), Vec::<String>::new());
    assert_eq!(toks("  \t "), Vec::<String>::new());
    assert_eq!(toks("a"), vec!["a"]);
    assert_eq!(toks(" a  b\tc "), vec!["a", "b", "c"]);
    assert_eq!(toks("= ;"), vec!["=", ";"]);
    assert_eq!(toks("a\u{a0}b"), vec!["a\u{a0}b"]);
    assert_eq!(toks("a\u{c}b\rc"), vec!["a", "b", "c"]);
    for s in ["", " a  b\tc ", "x", "  ", "a\u{a0}b  c"] {
        let std: Vec<String> = s.split_ascii_whitespace().map(str::to_owned).collect();
        assert_eq!(toks(s), std);
    }
}

#[test]
fn joining_puts_one_space_between_parts() {
    assert_eq!(join_with_spaces(&vec![]), chars(""));
    assert_eq!(join_with_spaces(&vec![chars("a")]), chars("a"));
    assert_eq!(join_with_spaces(&vec![chars("a"), chars("b"), chars("c")]), chars("a b c"));
}

#[test]
fn squeezing_collapses_whitespace() {
    assert_eq!(squeeze_blanks(&chars("  1   =\t222  ")), chars("1 = 222"));
    assert_eq!(squeeze_blanks(&chars("1=1")), chars("1=1"));
    assert_eq!(squeeze_blanks(&chars("")), chars(""));
    assert_eq!(squeeze_blanks(&chars(" \t ")), chars(""));
    assert_eq!(squeeze_blanks(&chars("a=b\u{a0}")), chars("a=b\u{a0}"));
}

#[test]
fn copying_a_range() {
    assert_eq!(copy_range(&chars("abcdef"), 2, 4), chars("cd"));
    assert_eq!(copy_range(&chars("abcdef"), 0, 6), chars("abcdef"));
    assert_eq!(copy_range(&chars("abcdef"), 3, 3), chars(""));
}
