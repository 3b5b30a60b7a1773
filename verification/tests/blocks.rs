use cargo_align::block::{collect_block, split_cells};
use cargo_align::columns::{align_rows, append_all, append_spaces, column_widths};
use cargo_align::seperate_str_on_alignments;
use cargo_align::sort::{lex_le_chars, sort_lines};

fn chars(s: &str) -> Vec<char> {
    s.chars().collect()
}

fn all_chars(v: &[&str]) -> Vec<Vec<char>> {
    v.iter().map(|s| chars(s)).collect()
}

fn strings(v: &[Vec<char>]) -> Vec<String> {
    v.iter().map(|s| s.iter().collect()).collect()
}

fn owned(v: &[&str]) -> Vec<String> {
    v.iter().map(|s| s.to_string()).collect()
}

#[test]
fn no_delimiter_gives_the_text_and_the_marker() {
    assert_eq!(seperate_str_on_alignments("a = b".to_string(), &[]), Some(owned(&["a = b", "\n"])));
    assert_eq!(seperate_str_on_alignments("".to_string(), &[]), Some(owned(&["", "\n"])));
}

#[test]
fn a_row_is_cut_at_the_first_occurrence_of_each_delimiter() {
    assert_eq!(
        seperate_str_on_alignments("1 = 222".to_string(), &owned(&["="])),
        Some(owned(&["1 ", "=", " 222", "\n"]))
    );
    assert_eq!(
        seperate_str_on_alignments("a = b = c;".to_string(), &owned(&["=", ";"])),
        Some(owned(&["a ", "=", " b = c", ";", "", "\n"]))
    );
    assert_eq!(
        seperate_str_on_alignments("a = b = c".to_string(), &owned(&["=", "="])),
        Some(owned(&["a ", "=", " b ", "=", " c", "\n"]))
    );
    assert_eq!(
        seperate_str_on_alignments("=x".to_string(), &owned(&["="])),
        Some(owned(&["", "=", "x", "\n"]))
    );
    assert_eq!(
        seperate_str_on_alignments("aab".to_string(), &owned(&["ab"])),
        Some(owned(&["a", "ab", "", "\n"]))
    );
    assert_eq!(
        seperate_str_on_alignments("ab".to_string(), &owned(&[""])),
        Some(owned(&["", "", "ab", "\n"]))
    );
}

#[test]
fn a_missing_delimiter_gives_no_row() {
    assert_eq!(seperate_str_on_alignments("1 = 222".to_string(), &owned(&[";"])), None);
    assert_eq!(seperate_str_on_alignments("1 = 222".to_string(), &owned(&["=", "="])), None);
    assert_eq!(seperate_str_on_alignments("; =".to_string(), &owned(&["=", ";"])), None);
    assert_eq!(seperate_str_on_alignments("".to_string(), &owned(&["="])), None);
    assert_eq!(split_cells(&chars("abc"), &all_chars(&["x"])), None);
}

#[test]
fn rows_are_split_as_by_split_once() {
    let cases = [("1 = 222", "="), ("a==b", "=="), ("no", "="), ("x->y->z", "->")];
    for (text, delim) in cases {
        let expected = text
            .split_once(delim)
            .map(|(a, b)| owned(&[a, delim, b, "\n"]));
        assert_eq!(seperate_str_on_alignments(text.to_string(), &owned(&[delim])), expected);
    }
}

#[test]
fn a_block_ends_before_the_first_line_that_cannot_join() {
    let lines = all_chars(&["x", "1 = 2", "33=4", "no delimiter", "5 = 6"]);
    let delims = all_chars(&["="]);
    let rows = collect_block(&lines, 1, &delims);
    assert_eq!(rows.len(), 2);
    assert_eq!(strings(&rows[0]), owned(&["1 ", "=", " 2", "\n"]));
    assert_eq!(strings(&rows[1]), owned(&["33", "=", "4", "\n"]));
    assert_eq!(collect_block(&lines, 3, &delims).len(), 0);
    assert_eq!(collect_block(&lines, 4, &delims).len(), 1);
    assert_eq!(collect_block(&lines, 5, &delims).len(), 0);
}

#[test]
fn a_block_ends_before_a_line_with_the_marker() {
    let lines = all_chars(&["1=2", "align_by = \"=\"", "3=4"]);
    let rows = collect_block(&lines, 0, &all_chars(&["="]));
    assert_eq!(rows.len(), 1);
}

#[test]
fn block_lines_have_their_whitespace_collapsed() {
    let lines = all_chars(&["  1 \t =    2  "]);
    let rows = collect_block(&lines, 0, &all_chars(&["="]));
    assert_eq!(strings(&rows[0]), owned(&["1 ", "=", " 2", "\n"]));
}

#[test]
fn columns_are_as_wide_as_their_widest_cell() {
    let rows = vec![all_chars(&["1 ", "=", " 222", "\n"]), all_chars(&["111 ", "=", " 2", "\n"])];
    assert_eq!(column_widths(&rows, 2), vec![4, 1]);
    assert_eq!(column_widths(&rows, 0), Vec::<usize>::new());
    let wide = vec![all_chars(&["ß", "=", "", "\n"]), all_chars(&["ab", "=", "", "\n"])];
    assert_eq!(column_widths(&wide, 2), vec![2, 1]);
}

#[test]
fn all_cells_but_the_last_two_are_padded() {
    let rows = vec![all_chars(&["1 ", "=", " 222", "\n"]), all_chars(&["111 ", "=", " 2", "\n"])];
    assert_eq!(strings(&align_rows(&rows)), owned(&["1   = 222\n", "111 = 2\n"]));
    let two = vec![all_chars(&["a", "=", "b", ";", "", "\n"]), all_chars(&["aaa", "=", "bbb", ";", "cc", "\n"])];
    assert_eq!(strings(&align_rows(&two)), owned(&["a  =b  ;\n", "aaa=bbb;cc\n"]));
    let bare = vec![all_chars(&["a", "\n"]), all_chars(&["bbb", "\n"])];
    assert_eq!(strings(&align_rows(&bare)), owned(&["a\n", "bbb\n"]));
}

#[test]
fn padding_counts_bytes() {
    let rows = vec![all_chars(&["ß", "=", "1", "\n"]), all_chars(&["abc", "=", "2", "\n"])];
    assert_eq!(strings(&align_rows(&rows)), owned(&["ß =1\n", "abc=2\n"]));
}

#[test]
fn appending_spaces_and_lines() {
    let mut out = chars("ab");
    append_spaces(&mut out, 3);
    assert_eq!(out, chars("ab   "));
    append_spaces(&mut out, 0);
    assert_eq!(out, chars("ab   "));
    append_all(&mut out, &all_chars(&["x\n", "", "yz"]));
    assert_eq!(out, chars("ab   x\nyz"));
}

#[test]
fn the_order_of_lines_is_lexicographic() {
    let le = |a: &str, b: &str| lex_le_chars(&chars(a), &chars(b));
    assert!(le("", ""));
    assert!(le("", "a"));
    assert!(!le("a", ""));
    assert!(le("a", "a"));
    assert!(le("a", "ab"));
    assert!(!le("ab", "a"));
    assert!(le("ab", "b"));
    assert!(le("Z", "a"));
    assert!(le("1 =1", "22=2"));
    assert!(le(" ", "0"));
    assert!(le("z", "ß"));
    assert!(!le("ß", "z"));
    for a in ["", "a", "ab", "b", "ß", "€", "😀", " "] {
        for b in ["", "a", "ab", "b", "ß", "€", "😀", " "] {
            assert_eq!(le(a, b), a <= b, "{:?} {:?}", a, b);
        }
    }
}

#[test]
fn sorting_orders_the_lines() {
    let mut lines = all_chars(&["22=2\n", "1 =1\n", "3 =0\n", "1 =1\n", ""]);
    sort_lines(&mut lines);
    assert_eq!(strings(&lines), owned(&["", "1 =1\n", "1 =1\n", "22=2\n", "3 =0\n"]));
    let mut none: Vec<Vec<char>> = vec![];
    sort_lines(&mut none);
    assert!(none.is_empty());
    let mut words = all_chars(&["pear", "apple", "fig", "Apple", "apple pie", "fig"]);
    let mut expected = strings(&words);
    expected.sort();
    sort_lines(&mut words);
    assert_eq!(strings(&words), expected);
}
