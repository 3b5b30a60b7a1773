use cargo_align::newline::count_newlines;
use cargo_align::{detect_newline_style, NewlineCount, NewlineStyle};

#[test]
fn terminators_as_strings() {
    assert_eq!(NewlineStyle::CR.to_string(), "\r");
    assert_eq!(NewlineStyle::LF.to_string(), "\n");
    assert_eq!(NewlineStyle::CRLF.to_string(), "\r\n");
    assert_eq!(NewlineStyle::CR.to_chars(), vec!['\r']);
    assert_eq!(NewlineStyle::LF.to_chars(), vec!['\n']);
    assert_eq!(NewlineStyle::CRLF.to_chars(), vec!['\r', '\n']);
}

#[test]
fn the_strict_majority_wins() {
    assert_eq!(NewlineCount::new(3, 2, 1).max(), NewlineStyle::CR);
    assert_eq!(NewlineCount::new(1, 3, 2).max(), NewlineStyle::LF);
    assert_eq!(NewlineCount::new(1, 2, 3).max(), NewlineStyle::CRLF);
}

#[test]
fn ties_and_no_evidence_give_line_feed() {
    assert_eq!(NewlineCount::new(0, 0, 0).max(), NewlineStyle::LF);
    assert_eq!(NewlineCount::new(2, 2, 1).max(), NewlineStyle::LF);
    assert_eq!(NewlineCount::new(2, 1, 2).max(), NewlineStyle::LF);
    assert_eq!(NewlineCount::new(1, 2, 2).max(), NewlineStyle::LF);
    assert_eq!(NewlineCount::new(5, 5, 5).max(), NewlineStyle::LF);
}

#[test]
fn tallies_add_up() {
    let sum = NewlineCount::new(1, 2, 3) + NewlineCount::new(10, 20, 30);
    assert_eq!((sum.cr, sum.lf, sum.crlf), (11, 22, 33));
}

#[test]
fn pairs_are_tallied() {
    let tally = |s: &str| {
        let chars: Vec<char> = s.chars().collect();
        let t = count_newlines(&chars);
        (t.cr, t.lf, t.crlf)
    };
    assert_eq!(tally(""), (0, 0, 0));
    assert_eq!(tally("\n"), (0, 1, 0));
    assert_eq!(tally("\n\n"), (0, 2, 0));
    assert_eq!(tally("\r"), (0, 0, 0));
    assert_eq!(tally("\r\n"), (0, 0, 1));
    assert_eq!(tally("\nx\ry"), (1, 1, 0));
    assert_eq!(tally("\n\rx\ry"), (2, 1, 0));
    assert_eq!(tally("a\nb"), (0, 1, 0));
    assert_eq!(tally("a\nb\n"), (0, 2, 0));
    assert_eq!(tally("a\n\nb"), (0, 2, 0));
    assert_eq!(tally("a\rb"), (1, 0, 0));
    assert_eq!(tally("a\rb\r"), (1, 0, 0));
    assert_eq!(tally("a\r\nb"), (0, 0, 1));
    assert_eq!(tally("a\r\nb\r\n"), (0, 0, 2));
    assert_eq!(tally("a\r\nb\nc"), (0, 1, 1));
    assert_eq!(tally("\r\r\n\n\n"), (1, 2, 1));
}

#[test]
fn detection_on_documents() {
    assert_eq!(detect_newline_style(""), NewlineStyle::LF);
    assert_eq!(detect_newline_style("no terminator"), NewlineStyle::LF);
    assert_eq!(detect_newline_style("a\nb\nc\n"), NewlineStyle::LF);
    assert_eq!(detect_newline_style("a\r\nb\r\nc\r\n"), NewlineStyle::CRLF);
    assert_eq!(detect_newline_style("a\r\nb\r\nc"), NewlineStyle::CRLF);
    assert_eq!(detect_newline_style("a\r\nb"), NewlineStyle::CRLF);
    assert_eq!(detect_newline_style("a\r\nb\n"), NewlineStyle::LF);
    assert_eq!(detect_newline_style("a\r\nb\r\nc\n"), NewlineStyle::CRLF);
    assert_eq!(detect_newline_style("a\rb\rc\r"), NewlineStyle::CR);
    assert_eq!(detect_newline_style("a\rb\rc"), NewlineStyle::CR);
    assert_eq!(detect_newline_style("a\rb\nc"), NewlineStyle::LF);
    assert_eq!(detect_newline_style("\n"), NewlineStyle::LF);
    assert_eq!(detect_newline_style("\nx\ry"), NewlineStyle::LF);
    assert_eq!(detect_newline_style("\nx\r\ny\r\nz"), NewlineStyle::CRLF);
    assert_eq!(detect_newline_style("\nx\r\ny"), NewlineStyle::LF);
    assert_eq!(detect_newline_style("a\rb\rc\n"), NewlineStyle::CR);
    assert_eq!(detect_newline_style("a\r"), NewlineStyle::LF);
}
