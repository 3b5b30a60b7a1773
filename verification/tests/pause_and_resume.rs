use cargo_align::align_string;

#[test]
fn pause_and_resume() {
    let text = [
        "    align_by \"=\"",
        "1 =11",
        "11=1",
        "    align_by pause",
        "    align_by \"=\"",
        "1 =11",
        "11=1",
        "    align_by resume",
        "    align_by \"=\"",
        "1 =11",
        "11=1",
        "",
    ]
    .join("\n");
    assert_eq!(align_string(&text).unwrap(), text);
}

#[test]
fn pause_and_resume_from_ragged_lines() {
    let input = [
        "    align_by \"=\"",
        "1=11",
        "11=1",
        "    align_by pause",
        "    align_by \"=\"",
        "1=11",
        "11=1",
        "    align_by resume",
        "    align_by \"=\"",
        "1=11",
        "11=1",
        "",
    ]
    .join("\n");
    let expected = [
        "    align_by \"=\"",
        "1 =11",
        "11=1",
        "    align_by pause",
        "    align_by \"=\"",
        "1=11",
        "11=1",
        "    align_by resume",
        "    align_by \"=\"",
        "1 =11",
        "11=1",
        "",
    ]
    .join("\n");
    assert_eq!(align_string(&input).unwrap(), expected);
}
