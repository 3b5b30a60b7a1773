use cargo_align::{align_string, detect_newline_style};
use cargo_align::block::collect_block;
use cargo_align::columns::align_rows;
use cargo_align::text::width_of;

const DOCUMENTS: [&str; 14] = [
    "",
    "plain\ntext\n",
    "align_by \"=\"\n1 = 222\n111 = 2\n",
    "align_by \"=\"\n1 = 222\n111 = 2",
    "align_by sort \"=\"\n22=2\n1=1\n3 = 3\n",
    "// align_by \"= ;\"\nlet a = 1; // one\nlet bbb = 22; // two\nend\n",
    "align_by \"=\"\n=1\na=2\n   bb  =  3\n\nalign_by \"=\"\nx=1\n",
    "align_by \"= =\"\na==b\nc=dd=e\n",
    "align_by pause\nalign_by \"=\"\na=1\nbbb=2\nalign_by resume\nalign_by \"=\"\na=1\nbbb=2\n",
    "align_by \"ab\"\naab\nxxxxab\n",
    "align_by \"=\"\nß=1\nabc=2\n\talign_by regex sort \",\"\nzz , 1\n  a,2\n",
    "align_by \"  \"\na    =    1\n",
    "a\rb\nalign_by \"=\"\nx\r=1\nyy=2\nz\r",
    "align_by pause\nalign_by =\nalign_by resume\n\n",
];

#[test]
fn a_carriage_return_in_a_line_is_a_blank_like_others() {
    assert_eq!(
        align_string("a\rb\nalign_by \"=\"\nx\r=1\nyy=2\nz\r").unwrap(),
        "a\rb\nalign_by \"=\"\nx =1\nyy=2\nz\r"
    );
}

#[test]
fn aligning_twice_is_aligning_once() {
    for doc in DOCUMENTS {
        let once = align_string(doc).unwrap();
        let twice = align_string(&once).unwrap();
        assert_eq!(twice, once, "{:?}", doc);
    }
}

#[test]
fn the_trailing_line_feed_is_neither_added_nor_removed() {
    for doc in DOCUMENTS {
        let out = align_string(doc).unwrap();
        assert_eq!(out.ends_with('\n'), doc.ends_with('\n'), "{:?}", doc);
        let cut = doc.strip_suffix('\n').unwrap_or(doc);
        let out_cut = align_string(cut).unwrap();
        assert_eq!(out_cut.ends_with('\n'), cut.ends_with('\n'), "{:?}", cut);
    }
}

#[test]
fn alignment_changes_whitespace_only() {
    for doc in DOCUMENTS {
        let out = align_string(doc).unwrap();
        let strip = |s: &str| -> String { s.chars().filter(|c| !c.is_ascii_whitespace()).collect() };
        let sorts = doc.contains("sort");
        if !sorts {
            assert_eq!(strip(&out), strip(doc), "{:?}", doc);
        }
        assert_eq!(out.lines().count(), doc.lines().count());
    }
}

#[test]
fn padded_columns_are_uniform_and_as_wide_as_the_widest_cell() {
    let lines: Vec<Vec<char>> = ["a = 1 ; x", "bbbb = 22 ; y", "cc = 333 ; zzz"]
        .iter()
        .map(|s| s.chars().collect())
        .collect();
    let delims: Vec<Vec<char>> = vec![vec!['='], vec![';']];
    let rows = collect_block(&lines, 0, &delims);
    assert_eq!(rows.len(), 3);
    let out = align_rows(&rows);
    let texts: Vec<String> = out.iter().map(|l| l.iter().collect()).collect();
    assert_eq!(texts, vec!["a    = 1   ; x\n", "bbbb = 22  ; y\n", "cc   = 333 ; zzz\n"]);
    for column in 0..4 {
        let widest = rows.iter().map(|r| width_of(&r[column])).max().unwrap();
        let mut offsets = Vec::new();
        for (row, line) in rows.iter().zip(out.iter()) {
            let before: usize = (0..column)
                .map(|j| rows.iter().map(|r| width_of(&r[j])).max().unwrap())
                .sum();
            let cell: String = line.iter().skip(before).take(widest).collect();
            let unpadded: String = row[column].iter().collect();
            assert_eq!(cell.trim_end_matches(' '), unpadded.trim_end_matches(' '));
            assert_eq!(cell.len(), widest);
            offsets.push(before);
        }
        assert!(offsets.windows(2).all(|w| w[0] == w[1]));
    }
}

#[test]
fn sorted_blocks_are_in_order_and_hold_the_same_lines() {
    let doc = "align_by sort \"=\"\npear = 1\napple = 22\nfig = 3\napple = 22\nzero\n";
    let out = align_string(doc).unwrap();
    let lines: Vec<&str> = out.lines().collect();
    assert_eq!(lines, vec!["align_by sort \"=\"", "apple = 22", "apple = 22", "fig   = 3", "pear  = 1", "zero"]);
    assert!(lines[1..5].windows(2).all(|w| w[0] <= w[1]));
}

#[test]
fn unsorted_blocks_keep_the_order_of_their_lines() {
    let doc = "align_by \"=\"\npear = 1\napple = 22\nfig = 3\n";
    let out = align_string(doc).unwrap();
    let lines: Vec<&str> = out.lines().collect();
    assert_eq!(lines, vec!["align_by \"=\"", "pear  = 1", "apple = 22", "fig   = 3"]);
}

#[test]
fn documents_whose_terminators_are_of_one_kind_are_kept() {
    let uniform = [
        "",
        "a",
        "a\n",
        "a\nb",
        "\n\na\n",
        "a\r\n",
        "a\r\nb",
        "a\r\nb\r\nc\r\n",
        "\r\n\r\n",
        "a\rb",
        "a\rb\rc",
        "\nx\ry",
        "a\r",
        "\r",
        "x = 1\r\ny   =  2\r\n",
    ];
    for doc in uniform {
        assert_eq!(align_string(doc).unwrap(), doc, "{:?}", doc);
    }
}

#[test]
fn a_document_that_ends_with_its_dominant_carriage_return_gets_one_more() {
    assert_eq!(align_string("a\rb\rc\r").unwrap(), "a\rb\rc\r\r");
    assert_eq!(align_string("a\rb\r").unwrap(), "a\rb\r\r");
    assert_eq!(align_string("a\r").unwrap(), "a\r");
}

#[test]
fn documents_with_terminators_of_two_kinds_are_changed() {
    assert_eq!(align_string("a\r\nb\n").unwrap(), "a\nb\n");
    assert_eq!(align_string("a\r\nb\r\nc\nd").unwrap(), "a\r\nb\r\nc\r\nd");
    assert_eq!(align_string("a\rb\rc\nd").unwrap(), "a\rb\rc\rd");
}

#[test]
fn terminators_of_two_kinds_become_line_feeds_where_line_feed_is_dominant() {
    assert_eq!(
        align_string("a\r\nb\nalign_by \"=\"\nx=1\nyy=2\n").unwrap(),
        "a\nb\nalign_by \"=\"\nx =1\nyy=2\n"
    );
    assert_eq!(
        align_string("a\r\nb\nalign_by sort \"=\"\nyy=2\r\nx=1").unwrap(),
        "a\nb\nalign_by sort \"=\"\nx =1\nyy=2"
    );
}

#[test]
fn aligning_twice_is_aligning_once_where_the_terminator_stays() {
    let documents = [
        "x\r\ny\r\nz\r\nalign_by \"=\"\r\na=1\r\nbbb=2\r\nend\r\n",
        "x\r\ny\r\nz\r\nalign_by \"=\"\r\na=1\r\nbbb=2\r\nend",
        "align_by pause\r\nalign_by \"=\"\r\na=1\r\nbb=2\r\n",
        "align_by \"=\"\r\nno delimiter\r\n",
        "align_by \"=\" and more\ra=1\rbbb=2",
        "a\rb\nalign_by \"=\"\nx\r=1\nyy=2\nz\r",
        "a\r\nb\nalign_by \"=\"\nx=1\nyy=2\n",
        "a\r\nb\nalign_by sort \"=\"\nyy=2\r\nx=1",
        "\nx\ry",
        "a\nb\r",
    ];
    for doc in documents {
        let once = align_string(doc).unwrap();
        assert_eq!(detect_newline_style(&once), detect_newline_style(doc), "{:?}", doc);
        let twice = align_string(&once).unwrap();
        assert_eq!(twice, once, "{:?}", doc);
    }
}

#[test]
fn the_last_terminator_is_kept_where_the_last_line_is_echoed() {
    let documents = [
        "a\r\nb\r\n",
        "a\r\nb",
        "align_by \"=\"\r\na=1\r\nbb=2\r\nend\r\n",
        "align_by \"=\"\r\na=1\r\nbb=2\r\nend",
        "a\rb\rc\r",
        "a\rb\rc",
        "align_by \"=\"\na=1\nbb=2\n",
        "align_by \"=\"\na=1\nbb=2",
    ];
    for doc in documents {
        let out = align_string(doc).unwrap();
        let nl = detect_newline_style(doc).to_string();
        assert_eq!(out.ends_with(&nl), doc.ends_with(&nl), "{:?}", doc);
    }
}

#[test]
fn a_line_feed_of_another_kind_at_the_end_is_taken_off() {
    assert_eq!(align_string("a\rb\rc\n").unwrap(), "a\rb\rc");
    assert_eq!(align_string("\r\n\r\na\n").unwrap(), "\r\n\r\na");
    assert_eq!(align_string("a\r\nb\r\nc\r\n\n").unwrap(), "a\r\nb\r\nc\r\n");
    assert_eq!(align_string("a\rb\rc\r\r\n").unwrap(), "a\rb\rc\r");
}

#[test]
fn a_last_row_ends_in_a_line_feed_and_not_in_another_terminator() {
    let out = align_string("align_by \"=\"\r\na=1\r\nbb=2\r\n").unwrap();
    assert_eq!(out, "align_by \"=\"\r\na =1\nbb=2\n");
    assert!(!out.ends_with("\r\n"));
    let out = align_string("align_by \"=\"\r\na=1\r\nbb=2").unwrap();
    assert_eq!(out, "align_by \"=\"\r\na =1\nbb=2");
}

#[test]
fn rows_end_in_a_line_feed_under_every_terminator() {
    assert_eq!(align_string("align_by \"=\"\r\na=1\r\n").unwrap(), "align_by \"=\"\r\na=1\n");
    assert_eq!(
        align_string("w\rx\ry\rz\ralign_by \"=\"\na=1\nbb=2\n").unwrap(),
        "w\rx\ry\rz\ralign_by \"=\"\ra =1\nbb=2"
    );
}
