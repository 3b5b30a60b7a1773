use cargo_align::{
    align_file, report, Event, ExitStatus, FileOutcome, InvalidAlignmentStatement, Tally,
};

#[test]
fn a_file_is_written_only_where_its_content_changes() {
    assert_eq!(
        align_file(&"align_by \"=\"\na=1\nbbb=2\n".to_string()),
        FileOutcome::Aligned("align_by \"=\"\na  =1\nbbb=2\n".to_string())
    );
    assert_eq!(align_file(&"align_by \"=\"\na  =1\nbbb=2\n".to_string()), FileOutcome::Unchanged);
    assert_eq!(align_file(&"".to_string()), FileOutcome::Unchanged);
    assert_eq!(align_file(&"no directive\n".to_string()), FileOutcome::Unchanged);
    assert_eq!(
        align_file(&"a\r\nb\n".to_string()),
        FileOutcome::Aligned("a\nb\n".to_string())
    );
}

#[test]
fn canceled_and_malformed_files_are_not_written() {
    assert_eq!(
        align_file(&"align_by \"=\"\na=1\nbbb=2\nalign_by cancel_file\n".to_string()),
        FileOutcome::Canceled
    );
    assert_eq!(
        align_file(&"x\n align_by\n".to_string()),
        FileOutcome::Malformed(1, 9, InvalidAlignmentStatement::MissingSpace)
    );
}

#[test]
fn a_tally_counts_each_event() {
    let mut tally = Tally::new();
    for event in [
        Event::Failed,
        Event::Unchanged,
        Event::Aligned,
        Event::ReadError,
        Event::WriteError,
        Event::Canceled,
    ] {
        assert_eq!(tally.get(event), 0);
    }
    tally.record(Event::Aligned);
    tally.record(Event::Aligned);
    tally.record(Event::Canceled);
    assert_eq!(tally.get(Event::Aligned), 2);
    assert_eq!(tally.get(Event::Canceled), 1);
    assert_eq!(tally.get(Event::Failed), 0);
    assert_eq!(tally.aligned, 2);
    tally.unchanged = usize::MAX;
    tally.record(Event::Unchanged);
    assert_eq!(tally.get(Event::Unchanged), usize::MAX);
}

#[test]
fn the_report_leaves_out_what_did_not_happen() {
    let mut tally = Tally::new();
    assert_eq!(report(&tally), vec![]);
    tally.record(Event::Canceled);
    tally.record(Event::Failed);
    tally.record(Event::Canceled);
    tally.record(Event::Aligned);
    assert_eq!(report(&tally), vec![(Event::Failed, 1), (Event::Aligned, 1), (Event::Canceled, 2)]);
    tally.record(Event::WriteError);
    tally.record(Event::ReadError);
    tally.record(Event::Unchanged);
    assert_eq!(
        report(&tally),
        vec![
            (Event::Failed, 1),
            (Event::Unchanged, 1),
            (Event::Aligned, 1),
            (Event::ReadError, 1),
            (Event::WriteError, 1),
            (Event::Canceled, 2)
        ]
    );
}

#[test]
fn failures_degrade_the_exit_status() {
    let mut tally = Tally::new();
    assert_eq!(tally.exit_status(), ExitStatus::Success);
    tally.record(Event::Unchanged);
    tally.record(Event::Aligned);
    tally.record(Event::Canceled);
    assert_eq!(tally.exit_status(), ExitStatus::Success);
    tally.record(Event::Failed);
    assert_eq!(tally.exit_status(), ExitStatus::Usage);
    tally.record(Event::ReadError);
    assert_eq!(tally.exit_status(), ExitStatus::IoError);
    let mut other = Tally::new();
    other.record(Event::WriteError);
    assert_eq!(other.exit_status(), ExitStatus::IoError);
}
