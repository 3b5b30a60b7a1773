use cargo_align::engine::{align_chars, ends_with_chars, run_lines};
use cargo_align::{
    align_string, AlignmentError, Document, EngineState, InvalidAlignmentStatement, NewlineStyle,
};

fn chars(s: &str) -> Vec<char> {
    s.chars().collect()
}

fn aligned(s: &str) -> String {
    align_string(s).unwrap()
}

#[test]
fn a_document_without_directives_is_kept() {
    for doc in ["", "\n", "a", "a\n", "a\n\nb", "  x = 1\ny   =  2\n", "tab\there\n", "ß = €\n"] {
        assert_eq!(aligned(doc), doc);
    }
}

#[test]
fn the_literal_examples() {
    assert_eq!(aligned("align_by \"=\"\n1 = 222\n111 = 2"), "align_by \"=\"\n1   = 222\n111 = 2");
    assert_eq!(aligned("align_by sort \"=\"\n22=2\n1=1"), "align_by sort \"=\"\n1 =1\n22=2");
}

#[test]
fn the_trailing_terminator_is_kept_or_left_out_as_in_the_document() {
    assert_eq!(aligned("align_by \"=\"\na=1\nbbb=2\n"), "align_by \"=\"\na  =1\nbbb=2\n");
    assert_eq!(aligned("align_by \"=\"\na=1\nbbb=2"), "align_by \"=\"\na  =1\nbbb=2");
    assert_eq!(aligned("align_by \"=\"\n"), "align_by \"=\"\n");
    assert_eq!(aligned("align_by \"=\""), "align_by \"=\"");
    assert_eq!(aligned("x\nalign_by sort \"=\"\nb=1\na=2"), "x\nalign_by sort \"=\"\na=2\nb=1");
}

#[test]
fn every_delimiter_is_a_column() {
    assert_eq!(
        aligned("// align_by \"= ;\"\nlet a = 1; // one\nlet bbb = 22; // two\nend\n"),
        "// align_by \"= ;\"\nlet a   = 1 ; // one\nlet bbb = 22; // two\nend\n"
    );
    assert_eq!(
        aligned("align_by \": ,\"\na: 1, x\nbb: 22, y\n"),
        "align_by \": ,\"\na : 1 , x\nbb: 22, y\n"
    );
}

#[test]
fn a_line_that_lacks_a_delimiter_ends_the_block_and_is_kept() {
    assert_eq!(
        aligned("align_by \"=\"\na=1\nbbb=2\nno   delimiter\nc=3\ndddd=4\n"),
        "align_by \"=\"\na  =1\nbbb=2\nno   delimiter\nc=3\ndddd=4\n"
    );
    assert_eq!(
        aligned("align_by \"= ;\"\na=1;\nbbb=2\ncc=3;\n"),
        "align_by \"= ;\"\na=1;\nbbb=2\ncc=3;\n"
    );
    assert_eq!(aligned("align_by \"=\"\nnone\na=1\nbb=2\n"), "align_by \"=\"\nnone\na=1\nbb=2\n");
}

#[test]
fn a_directive_ends_the_block_before_it() {
    assert_eq!(
        aligned("align_by \"=\"\na=1\nbbb=2\nalign_by \":\"\nc=3:4\ndddd=4:5\n"),
        "align_by \"=\"\na  =1\nbbb=2\nalign_by \":\"\nc=3   :4\ndddd=4:5\n"
    );
}

#[test]
fn an_empty_delimiter_list_does_nothing() {
    assert_eq!(aligned("align_by \"\"\na    =    1\n"), "align_by \"\"\na    =    1\n");
    assert_eq!(aligned("align_by \"  \t \"\na    =    1\n"), "align_by \"  \t \"\na    =    1\n");
}

#[test]
fn regex_modes_match_literally() {
    assert_eq!(aligned("align_by regex \".\"\na.1\nbbb.2\nc=3\n"), "align_by regex \".\"\na  .1\nbbb.2\nc=3\n");
    assert_eq!(
        aligned("align_by regex sort \".\"\nbbb.2\na.1\nc=3\n"),
        "align_by regex sort \".\"\na  .1\nbbb.2\nc=3\n"
    );
}

#[test]
fn delimiters_with_escaped_quotes() {
    assert_eq!(
        aligned("align_by \"\\\"\"\na\\\"1\nbbb\\\"2\n"),
        "align_by \"\\\"\"\na  \\\"1\nbbb\\\"2\n"
    );
}

#[test]
fn pause_switches_alignment_off_and_resume_on() {
    assert_eq!(
        aligned("align_by pause\nalign_by \"=\"\na=1\nbbb=2\nalign_by resume\nalign_by \"=\"\na=1\nbbb=2\n"),
        "align_by pause\nalign_by \"=\"\na=1\nbbb=2\nalign_by resume\nalign_by \"=\"\na  =1\nbbb=2\n"
    );
    assert_eq!(aligned("align_by resume\nalign_by \"=\"\na=1\nbbb=2\n"), "align_by resume\nalign_by \"=\"\na  =1\nbbb=2\n");
    assert_eq!(
        aligned("align_by pause\nalign_by pause\nalign_by \"=\"\na=1\nbbb=2\n"),
        "align_by pause\nalign_by pause\nalign_by \"=\"\na=1\nbbb=2\n"
    );
}

#[test]
fn a_faulty_list_is_passed_over_while_alignment_is_off() {
    assert_eq!(aligned("align_by pause\nalign_by =\nalign_by \"x\n"), "align_by pause\nalign_by =\nalign_by \"x\n");
    assert_eq!(
        align_string("align_by pause\nalign_by resume\nalign_by =\n"),
        Err(AlignmentError::InvalidAlignmentStatement(2, 9, InvalidAlignmentStatement::MissingQuote))
    );
    assert_eq!(
        align_string("align_by pause\nalign_by\n"),
        Err(AlignmentError::InvalidAlignmentStatement(1, 8, InvalidAlignmentStatement::MissingSpace))
    );
}

#[test]
fn cancellation_wins_over_everything_before_it() {
    assert_eq!(align_string("align_by cancel_file"), Err(AlignmentError::FileCanceled));
    assert_eq!(
        align_string("align_by \"=\"\na=1\nbbb=2\n// align_by cancel_file\nmore\n"),
        Err(AlignmentError::FileCanceled)
    );
    assert_eq!(
        align_string("align_by pause\nalign_by cancel_file\n"),
        Err(AlignmentError::FileCanceled)
    );
    assert_eq!(
        align_string("align_by cancel_file\nalign_by\n"),
        Err(AlignmentError::FileCanceled)
    );
}

#[test]
fn a_fault_before_the_cancellation_comes_first() {
    assert_eq!(
        align_string("align_by\nalign_by cancel_file\n"),
        Err(AlignmentError::InvalidAlignmentStatement(0, 8, InvalidAlignmentStatement::MissingSpace))
    );
}

#[test]
fn faults_carry_line_and_byte_column() {
    assert_eq!(
        align_string("ok\n\n  align_by\"=\"\n"),
        Err(AlignmentError::InvalidAlignmentStatement(2, 10, InvalidAlignmentStatement::MissingSpace))
    );
    assert_eq!(
        align_string("align_by \"=\"\na=1\nbb=2\n// align_by sort =\n"),
        Err(AlignmentError::InvalidAlignmentStatement(3, 17, InvalidAlignmentStatement::MissingQuote))
    );
    assert_eq!(
        align_string("é\r\nß align_by \"=\r\n"),
        Err(AlignmentError::InvalidAlignmentStatement(1, 13, InvalidAlignmentStatement::UnclosedQuotes))
    );
    assert_eq!(
        align_string("align_by \"a\\\"\n"),
        Err(AlignmentError::InvalidAlignmentStatement(0, 10, InvalidAlignmentStatement::UnclosedQuotes))
    );
}

#[test]
fn lines_are_ended_by_the_dominant_terminator() {
    assert_eq!(aligned("a\r\nb\r\n"), "a\r\nb\r\n");
    assert_eq!(aligned("a\r\nb\r\nc"), "a\r\nb\r\nc");
    assert_eq!(aligned("a\r\nb"), "a\r\nb");
    assert_eq!(aligned("a\rb\rc"), "a\rb\rc");
    assert_eq!(aligned("a\rb\rc\r"), "a\rb\rc\r\r");
    assert_eq!(aligned("\nx\ry"), "\nx\ry");
    assert_eq!(aligned("\n"), "\n");
    assert_eq!(aligned("\r\n"), "\r\n");
    assert_eq!(aligned("a\r"), "a\r");
}

#[test]
fn other_terminators_give_way_to_the_dominant_one() {
    assert_eq!(aligned("a\r\nb\nc\r\n"), "a\r\nb\r\nc\r\n");
    assert_eq!(aligned("a\r\nb\n"), "a\nb\n");
    assert_eq!(aligned("a\nb\nc\r\n"), "a\nb\nc\n");
    assert_eq!(aligned("a\rb\rc\nd"), "a\rb\rc\rd");
    assert_eq!(aligned("a\rb\rc\n"), "a\rb\rc");
    assert_eq!(aligned("\r\n\r\na\n"), "\r\n\r\na");
    assert_eq!(aligned("a\nb\nc\r\n"), "a\nb\nc\n");
}

#[test]
fn the_last_line_keeps_or_lacks_its_terminator_under_every_terminator() {
    assert_eq!(
        aligned("align_by \"=\"\r\na=1\r\nbbb=2\r\n"),
        "align_by \"=\"\r\na  =1\nbbb=2\n"
    );
    assert_eq!(
        aligned("align_by \"=\"\r\na=1\r\nbbb=2"),
        "align_by \"=\"\r\na  =1\nbbb=2"
    );
    assert_eq!(
        aligned("align_by \"=\"\r\na=1\r\nbbb=2\r\nend"),
        "align_by \"=\"\r\na  =1\nbbb=2\nend"
    );
}

#[test]
fn rows_end_in_a_line_feed_whatever_the_terminator() {
    assert_eq!(
        aligned("align_by \"=\"\r\na=1\r\nbbb=2\r\nend\r\n"),
        "align_by \"=\"\r\na  =1\nbbb=2\nend\r\n"
    );
}

#[test]
fn widths_count_bytes() {
    assert_eq!(aligned("align_by \"=\"\nß=1\nabc=2\n"), "align_by \"=\"\nß =1\nabc=2\n");
}

#[test]
fn ends_are_told() {
    assert!(ends_with_chars(&chars("abc\n"), &chars("\n")));
    assert!(ends_with_chars(&chars("abc\r\n"), &chars("\r\n")));
    assert!(!ends_with_chars(&chars("abc\n"), &chars("\r\n")));
    assert!(!ends_with_chars(&chars(""), &chars("\n")));
    assert!(ends_with_chars(&chars(""), &chars("")));
}

#[test]
fn the_pass_over_lines() {
    let lines = vec![chars("align_by \"=\""), chars("a=1"), chars("bbb=2")];
    assert_eq!(run_lines(&lines, &chars("\r\n")), Ok(chars("align_by \"=\"\r\na  =1\nbbb=2\n")));
    assert_eq!(run_lines(&vec![], &chars("\n")), Ok(chars("")));
    assert_eq!(
        run_lines(&vec![chars("x"), chars("align_by cancel_file")], &chars("\n")),
        Err(AlignmentError::FileCanceled)
    );
    assert_eq!(align_chars(&chars("a=1\n")), Ok(chars("a=1\n")));
}

#[test]
fn only_the_first_occurrence_of_a_delimiter_splits() {
    assert_eq!(
        aligned("align_by \"=\"\na = b = c\naaaa = b\n"),
        "align_by \"=\"\na    = b = c\naaaa = b\n"
    );
    assert_eq!(
        aligned("align_by \"= =\"\na = b = c\naaaa = bbbb = c\n"),
        "align_by \"= =\"\na    = b    = c\naaaa = bbbb = c\n"
    );
}

#[test]
fn empty_cells_are_padded_too() {
    assert_eq!(aligned("align_by \"=\"\n=1\nabc=2\n"), "align_by \"=\"\n   =1\nabc=2\n");
    assert_eq!(aligned("align_by \"= =\"\na==b\nc=dd=e\n"), "align_by \"= =\"\na=  =b\nc=dd=e\n");
}

#[test]
fn tabs_and_runs_of_spaces_collapse_in_a_block() {
    assert_eq!(
        aligned("align_by \"=\"\n\tx\t\t=  1\n  yyy =\t2  \n"),
        "align_by \"=\"\nx   = 1\nyyy = 2\n"
    );
}

#[test]
fn lines_above_the_directive_are_not_touched() {
    assert_eq!(
        aligned("a   =  1\nbbb = 2\nalign_by \"=\"\nc=3\ndd=4\n"),
        "a   =  1\nbbb = 2\nalign_by \"=\"\nc =3\ndd=4\n"
    );
}

#[test]
fn delimiters_may_be_any_text_without_blanks() {
    assert_eq!(
        aligned("align_by \"→ //\"\na → b // one\nlong → longer // two\n"),
        "align_by \"→ //\"\na    → b      // one\nlong → longer // two\n"
    );
    assert_eq!(
        aligned("align_by \"=>\"\nSome(x) => 1,\nNone => 2,\n"),
        "align_by \"=>\"\nSome(x) => 1,\nNone    => 2,\n"
    );
}

#[test]
fn sorting_comes_after_padding() {
    assert_eq!(
        aligned("align_by sort \"=\"\nb=1\naa=2\na=3\nb=1\n"),
        "align_by sort \"=\"\na =3\naa=2\nb =1\nb =1\n"
    );
}

#[test]
fn a_block_of_one_line_is_collapsed() {
    assert_eq!(aligned("align_by \"=\"\n  a   =   1  \n"), "align_by \"=\"\na = 1\n");
}

#[test]
fn an_empty_line_ends_a_block() {
    assert_eq!(
        aligned("align_by \"=\"\na=1\n\nbbb=2\n"),
        "align_by \"=\"\na=1\n\nbbb=2\n"
    );
}

#[test]
fn the_engine_steps_from_line_to_line() {
    let lines = vec![
        chars("x = 1"),
        chars("align_by pause"),
        chars("align_by resume"),
        chars("align_by \"=\""),
        chars("a=1"),
        chars("bbb=2"),
        chars("end"),
    ];
    let nl = chars("\n");
    let mut state = EngineState::new();
    assert!(!state.paused);
    assert_eq!(state.cursor, 0);
    assert!(state.output.is_empty());
    assert_eq!(state.step(&lines, &nl), Ok(()));
    assert_eq!((state.paused, state.cursor), (false, 1));
    assert_eq!(state.output, chars("x = 1\n"));
    assert_eq!(state.step(&lines, &nl), Ok(()));
    assert_eq!((state.paused, state.cursor), (true, 2));
    assert_eq!(state.step(&lines, &nl), Ok(()));
    assert_eq!((state.paused, state.cursor), (false, 3));
    assert_eq!(state.step(&lines, &nl), Ok(()));
    assert_eq!((state.paused, state.cursor), (false, 6));
    assert_eq!(
        state.output,
        chars("x = 1\nalign_by pause\nalign_by resume\nalign_by \"=\"\na  =1\nbbb=2\n")
    );
    assert_eq!(state.step(&lines, &nl), Ok(()));
    assert_eq!((state.paused, state.cursor), (false, 7));
}

#[test]
fn a_step_that_fails_leaves_the_state_alone() {
    let lines = vec![chars("a"), chars("align_by cancel_file"), chars("align_by")];
    let nl = chars("\n");
    let mut state = EngineState::new();
    assert_eq!(state.step(&lines, &nl), Ok(()));
    assert_eq!(state.step(&lines, &nl), Err(AlignmentError::FileCanceled));
    assert_eq!((state.paused, state.cursor), (false, 1));
    assert_eq!(state.output, chars("a\n"));
    state.cursor = 2;
    assert_eq!(
        state.step(&lines, &nl),
        Err(AlignmentError::InvalidAlignmentStatement(2, 8, InvalidAlignmentStatement::MissingSpace))
    );
    assert_eq!((state.paused, state.cursor), (false, 2));
    assert_eq!(state.output, chars("a\n"));
}

#[test]
fn a_document_is_its_lines_its_terminator_and_its_end() {
    let doc = Document::read(&chars("a\r\nalign_by \"=\"\r\nx=1\r\nyy=2\r\n"));
    assert_eq!(doc.style, NewlineStyle::CRLF);
    assert!(doc.terminated);
    assert_eq!(doc.lines, vec![chars("a"), chars("align_by \"=\""), chars("x=1"), chars("yy=2")]);
    assert_eq!(doc.aligned(), Ok(chars("a\r\nalign_by \"=\"\r\nx =1\nyy=2\n")));
    let doc = Document::read(&chars("a\nb"));
    assert_eq!(doc.style, NewlineStyle::LF);
    assert!(!doc.terminated);
    assert_eq!(doc.lines, vec![chars("a"), chars("b")]);
    assert_eq!(doc.aligned(), Ok(chars("a\nb")));
    let doc = Document::read(&chars(""));
    assert_eq!(doc.style, NewlineStyle::LF);
    assert!(!doc.terminated);
    assert!(doc.lines.is_empty());
    assert_eq!(doc.aligned(), Ok(chars("")));
    let doc = Document::read(&chars("a\rb\rc"));
    assert_eq!(doc.style, NewlineStyle::CR);
    assert!(!doc.terminated);
    assert_eq!(doc.aligned(), Ok(chars("a\rb\rc")));
    let doc = Document::read(&chars("a\rb\rc\n"));
    assert_eq!(doc.style, NewlineStyle::CR);
    assert!(!doc.terminated);
    assert_eq!(doc.lines, vec![chars("a\rb\rc")]);
    assert_eq!(doc.aligned(), Ok(chars("a\rb\rc")));
    let doc = Document::read(&chars("a\rb\rc\r"));
    assert_eq!(doc.style, NewlineStyle::CR);
    assert!(doc.terminated);
    assert_eq!(doc.aligned(), Ok(chars("a\rb\rc\r\r")));
    let doc = Document::read(&chars("a\r\nb\r\nc\n"));
    assert_eq!(doc.style, NewlineStyle::CRLF);
    assert!(!doc.terminated);
    assert_eq!(doc.aligned(), Ok(chars("a\r\nb\r\nc")));
}
