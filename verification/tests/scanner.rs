use cargo_align::directive::{line_has_marker, scan_directive};
use cargo_align::quote::find_closing_quote;
use cargo_align::{extract_quote, AlignmentError, Directive, InvalidAlignmentStatement, Mode};

fn chars(s: &str) -> Vec<char> {
    s.chars().collect()
}

fn scan(line: &str) -> Result<Option<Directive>, AlignmentError> {
    scan_directive(&chars(line), 7)
}

fn list(line: &str) -> (Mode, String) {
    match scan(line) {
        Ok(Some(Directive::DelimiterSpec { mode, raw_literal })) => {
            (mode, raw_literal.iter().collect())
        }
        other => panic!("no delimiter list: {:?}", other),
    }
}

fn fault(line: &str) -> (usize, usize, InvalidAlignmentStatement) {
    match scan(line) {
        Err(AlignmentError::InvalidAlignmentStatement(l, c, reason)) => (l, c, reason),
        other => panic!("no fault: {:?}", other),
    }
}

#[test]
fn modes_sort_or_not() {
    assert!(!Mode::Normal.sort());
    assert!(Mode::Sort.sort());
    assert!(!Mode::Regex.sort());
    assert!(Mode::RegexSort.sort());
    assert!(!Mode::Normal.regex());
    assert!(!Mode::Sort.regex());
    assert!(Mode::Regex.regex());
    assert!(Mode::RegexSort.regex());
}

#[test]
fn lines_without_the_marker_are_plain() {
    assert!(matches!(scan(""), Ok(None)));
    assert!(matches!(scan("1 = 222"), Ok(None)));
    assert!(matches!(scan("align_b \"=\""), Ok(None)));
    assert!(matches!(scan("ALIGN_BY \"=\""), Ok(None)));
    assert!(!line_has_marker(&chars("align by")));
    assert!(line_has_marker(&chars("xalign_byx")));
}

#[test]
fn keywords_are_recognized() {
    assert!(matches!(scan("align_by cancel_file"), Ok(Some(Directive::Cancel))));
    assert!(matches!(scan("// align_by pause"), Ok(Some(Directive::Pause))));
    assert!(matches!(scan("# align_by resume now"), Ok(Some(Directive::Resume))));
    assert!(matches!(scan("align_by cancel_filexyz"), Ok(Some(Directive::Cancel))));
    assert!(matches!(scan("align_by paused"), Ok(Some(Directive::Pause))));
}

#[test]
fn delimiter_lists_are_read_with_their_mode() {
    assert_eq!(list("align_by \"=\""), (Mode::Normal, "=".to_string()));
    assert_eq!(list("    // align_by \"= ;\" trailing"), (Mode::Normal, "= ;".to_string()));
    assert_eq!(list("align_by sort \"=\""), (Mode::Sort, "=".to_string()));
    assert_eq!(list("align_by regex \"=\""), (Mode::Regex, "=".to_string()));
    assert_eq!(list("align_by regex sort \"=\""), (Mode::RegexSort, "=".to_string()));
    assert_eq!(list("align_by \"\""), (Mode::Normal, "".to_string()));
    assert_eq!(list("align_by \"a\\\"b\" c"), (Mode::Normal, "a\\\"b".to_string()));
    assert_eq!(list("align_by \"=\"1"), (Mode::Normal, "=".to_string()));
}

#[test]
fn only_the_first_marker_counts() {
    assert!(matches!(scan("align_by pause align_by cancel_file"), Ok(Some(Directive::Pause))));
    assert_eq!(
        fault("align_by x align_by cancel_file"),
        (7, 9, InvalidAlignmentStatement::MissingQuote)
    );
}

#[test]
fn a_marker_without_its_space_is_a_fault() {
    assert_eq!(fault("align_by"), (7, 8, InvalidAlignmentStatement::MissingSpace));
    assert_eq!(fault("align_by\"=\""), (7, 8, InvalidAlignmentStatement::MissingSpace));
    assert_eq!(fault("  align_by\t\"=\""), (7, 10, InvalidAlignmentStatement::MissingSpace));
    assert_eq!(fault("ß align_by"), (7, 11, InvalidAlignmentStatement::MissingSpace));
}

#[test]
fn a_list_without_its_quote_is_a_fault() {
    assert_eq!(fault("align_by "), (7, 9, InvalidAlignmentStatement::MissingQuote));
    assert_eq!(fault("align_by  \"=\""), (7, 9, InvalidAlignmentStatement::MissingQuote));
    assert_eq!(fault("align_by ="), (7, 9, InvalidAlignmentStatement::MissingQuote));
    assert_eq!(fault("align_by sort ="), (7, 14, InvalidAlignmentStatement::MissingQuote));
    assert_eq!(fault("align_by regex ="), (7, 15, InvalidAlignmentStatement::MissingQuote));
    assert_eq!(fault("align_by regex sort ="), (7, 20, InvalidAlignmentStatement::MissingQuote));
    assert_eq!(fault("align_by sort"), (7, 9, InvalidAlignmentStatement::MissingQuote));
    assert_eq!(fault("€ align_by sort ="), (7, 18, InvalidAlignmentStatement::MissingQuote));
}

#[test]
fn a_list_without_its_closing_quote_is_a_fault() {
    assert_eq!(fault("align_by \""), (7, 10, InvalidAlignmentStatement::UnclosedQuotes));
    assert_eq!(fault("align_by \"="), (7, 10, InvalidAlignmentStatement::UnclosedQuotes));
    assert_eq!(fault("align_by \"a\\\""), (7, 10, InvalidAlignmentStatement::UnclosedQuotes));
    assert_eq!(fault("align_by sort \"="), (7, 15, InvalidAlignmentStatement::UnclosedQuotes));
}

#[test]
fn fault_constructors() {
    assert_eq!(
        AlignmentError::unexpected_eof(1, 2),
        AlignmentError::InvalidAlignmentStatement(1, 2, InvalidAlignmentStatement::UnexpectedEOF)
    );
    assert_eq!(
        AlignmentError::missing_space(3, 4),
        AlignmentError::InvalidAlignmentStatement(3, 4, InvalidAlignmentStatement::MissingSpace)
    );
    assert_eq!(
        AlignmentError::unclosed_quotes(5, 6),
        AlignmentError::InvalidAlignmentStatement(5, 6, InvalidAlignmentStatement::UnclosedQuotes)
    );
    assert_eq!(
        AlignmentError::missing_quote(7, 8),
        AlignmentError::InvalidAlignmentStatement(7, 8, InvalidAlignmentStatement::MissingQuote)
    );
}

#[test]
fn reasons_in_words() {
    assert_eq!(InvalidAlignmentStatement::UnexpectedEOF.to_string(), "unexpected end-of-file");
    assert_eq!(InvalidAlignmentStatement::MissingSpace.to_string(), "missing space");
    assert_eq!(InvalidAlignmentStatement::UnclosedQuotes.to_string(), "unclosed quote");
    assert_eq!(InvalidAlignmentStatement::MissingQuote.to_string(), "missing quote");
    assert!(!InvalidAlignmentStatement::UnexpectedEOF.is_in_list());
    assert!(!InvalidAlignmentStatement::MissingSpace.is_in_list());
    assert!(InvalidAlignmentStatement::UnclosedQuotes.is_in_list());
    assert!(InvalidAlignmentStatement::MissingQuote.is_in_list());
}

#[test]
fn closing_quotes_and_escapes() {
    assert_eq!(find_closing_quote(&chars("ab\"cd\""), 0), Some(2));
    assert_eq!(find_closing_quote(&chars("ab\"cd\""), 3), Some(5));
    assert_eq!(find_closing_quote(&chars("ab\\\"cd"), 0), None);
    assert_eq!(find_closing_quote(&chars("ab\\\\\"cd"), 0), Some(4));
    assert_eq!(find_closing_quote(&chars(""), 0), None);
    assert_eq!(find_closing_quote(&chars("\""), 1), None);
}

#[test]
fn a_backslash_escapes_itself() {
    assert_eq!(extract_quote("a\\\\\"b"), "a\\\\");
    assert_eq!(extract_quote("\\\\\\\"b\"c"), "\\\\\\\"b");
    assert_eq!(extract_quote("no quote"), "no quote");
    assert_eq!(extract_quote("hello \\\"world\\\"!\""), "hello \\\"world\\\"!");
}

#[test]
fn outcomes_in_words() {
    assert_eq!(AlignmentError::FileCanceled.to_string(), "FileCanceled");
    assert_eq!(
        AlignmentError::missing_space(0, 8).to_string(),
        "InvalidAlignmentStatement(0, 8, missing space)"
    );
    assert_eq!(
        AlignmentError::unclosed_quotes(12, 340).to_string(),
        "InvalidAlignmentStatement(12, 340, unclosed quote)"
    );
    assert_eq!(
        AlignmentError::missing_quote(1000, 9).to_string(),
        "InvalidAlignmentStatement(1000, 9, missing quote)"
    );
    assert_eq!(
        AlignmentError::unexpected_eof(usize::MAX, 10).to_string(),
        format!("InvalidAlignmentStatement({}, 10, unexpected end-of-file)", usize::MAX)
    );
}
