use snaffler_cluster::snaffler_record::{
    build_line, contains_file_marker, AccessMode, ExtractionError, SnafflerRecord, TriageLevel,
};

const GOOD_LINE: &str = "[corp\\alice@host1] 2024-01-02 03:04:05Z [File] {Red}<R1|R|x|share|2024-01-02 03:04:05Z>(/data/a.txt) password=123";

#[test]
fn well_formed_line_extracts() {
    let rec = SnafflerRecord::from_str(GOOD_LINE).unwrap();
    assert_eq!(rec.triage_level, TriageLevel::Red);
    assert_eq!(rec.rule, "R1");
    assert_eq!(rec.filepath, "/data/a.txt");
    assert_eq!(rec.match_context, "password=123");
}

#[test]
fn all_triage_levels_extract() {
    for (name, level) in [
        ("Green", TriageLevel::Green),
        ("Yellow", TriageLevel::Yellow),
        ("Red", TriageLevel::Red),
        ("Black", TriageLevel::Black),
    ] {
        let line = format!(
            "[corp\\alice@host1] 2024-01-02 03:04:05Z [File] {{{}}}<R1|RW||share|2024-01-02 03:04:05Z>(/d/a.txt) ctx",
            name
        );
        let rec = SnafflerRecord::from_str(&line).unwrap();
        assert_eq!(rec.triage_level, level);
    }
}

#[test]
fn empty_context_extracts() {
    let line = "[a\\b@c] 2024-01-02 03:04:05Z [File] {Green}<R|R|x|y|2024-01-02 03:04:05Z>(/p) ";
    let rec = SnafflerRecord::from_str(line).unwrap();
    assert_eq!(rec.match_context, "");
    assert_eq!(rec.filepath, "/p");
}

#[test]
fn filepath_may_contain_paren_and_space() {
    let line = "[a\\b@c] 2024-01-02 03:04:05Z [File] {Green}<R|R|x|y|2024-01-02 03:04:05Z>(/p (v1) dir/f.txt) ctx";
    let rec = SnafflerRecord::from_str(line).unwrap();
    assert_eq!(rec.filepath, "/p (v1) dir/f.txt");
    assert_eq!(rec.match_context, "ctx");
}

#[test]
fn missing_bracket_segment_fails() {
    let line = "2024-01-02 03:04:05Z [File] {Red}<R1|R|x|y|2024-01-02 03:04:05Z>(/d) ctx";
    assert!(SnafflerRecord::from_str(line).is_err());
}

#[test]
fn corrupted_timestamp_fails() {
    let line = "[a\\b@c] 2024-01-0X 03:04:05Z [File] {Red}<R1|R|x|y|2024-01-02 03:04:05Z>(/d) ctx";
    assert!(SnafflerRecord::from_str(line).is_err());
}

#[test]
fn missing_file_tag_fails() {
    let line = "[a\\b@c] 2024-01-02 03:04:05Z [Dir] {Red}<R1|R|x|y|2024-01-02 03:04:05Z>(/d) ctx";
    assert!(SnafflerRecord::from_str(line).is_err());
}

#[test]
fn unknown_triage_level_fails() {
    let line = "[a\\b@c] 2024-01-02 03:04:05Z [File] {Purple}<R1|R|x|y|2024-01-02 03:04:05Z>(/d) ctx";
    assert!(SnafflerRecord::from_str(line).is_err());
}

#[test]
fn bad_access_mode_fails() {
    let line = "[a\\b@c] 2024-01-02 03:04:05Z [File] {Red}<R1|W|x|y|2024-01-02 03:04:05Z>(/d) ctx";
    assert!(SnafflerRecord::from_str(line).is_err());
}

#[test]
fn empty_rule_extracts() {
    let line = "[a\\b@c] 2024-01-02 03:04:05Z [File] {Red}<|R|x|y|2024-01-02 03:04:05Z>(/d) ctx";
    let rec = SnafflerRecord::from_str(line).unwrap();
    assert_eq!(rec.rule, "");
    assert_eq!(rec.filepath, "/d");
    assert_eq!(rec.match_context, "ctx");
}

#[test]
fn empty_rule_round_trips() {
    let line = build_line(
        "a",
        "b",
        "c",
        "2024-01-02 03:04:05",
        TriageLevel::Green,
        "",
        AccessMode::Read,
        "x",
        "y",
        "2024-01-02 03:04:05",
        "/d",
        "ctx",
    );
    let rec = SnafflerRecord::from_str(&line).unwrap();
    assert_eq!(rec.rule, "");
    assert_eq!(rec.match_context, "ctx");
}

#[test]
fn missing_filepath_segment_fails() {
    let line = "[a\\b@c] 2024-01-02 03:04:05Z [File] {Red}<R1|R|x|y|2024-01-02 03:04:05Z> ctx";
    assert!(SnafflerRecord::from_str(line).is_err());
}

#[test]
fn missing_second_timestamp_fails() {
    let line = "[a\\b@c] 2024-01-02 03:04:05Z [File] {Red}<R1|R|x|y>(/d) ctx";
    assert!(SnafflerRecord::from_str(line).is_err());
}

#[test]
fn blank_and_unrelated_lines_fail() {
    assert!(SnafflerRecord::from_str("").is_err());
    assert!(SnafflerRecord::from_str("totally unrelated text").is_err());
}

#[test]
fn failure_is_reported_as_no_match() {
    assert_eq!(
        SnafflerRecord::from_str("not a finding"),
        Err(ExtractionError::NoMatch)
    );
}

#[test]
fn round_trip_of_built_line() {
    let line = build_line(
        "corp",
        "bob",
        "host9",
        "2023-12-31 23:59:59",
        TriageLevel::Black,
        "KeepPassGreen",
        AccessMode::ReadWrite,
        "",
        "C$",
        "2024-01-01 00:00:00",
        "/srv/share/secrets.kdbx",
        "user=admin password=hunter2",
    );
    let rec = SnafflerRecord::from_str(&line).unwrap();
    assert_eq!(rec.triage_level, TriageLevel::Black);
    assert_eq!(rec.rule, "KeepPassGreen");
    assert_eq!(rec.filepath, "/srv/share/secrets.kdbx");
    assert_eq!(rec.match_context, "user=admin password=hunter2");
}

#[test]
fn built_line_has_expected_text() {
    let line = build_line(
        "corp",
        "alice",
        "host1",
        "2024-01-02 03:04:05",
        TriageLevel::Red,
        "R1",
        AccessMode::Read,
        "x",
        "share",
        "2024-01-02 03:04:05",
        "/data/a.txt",
        "password=123",
    );
    assert_eq!(line, GOOD_LINE);
}

#[test]
fn marker_detection() {
    assert!(contains_file_marker("could not parse [File] here"));
    assert!(contains_file_marker("[File]"));
    assert!(!contains_file_marker("no marker here"));
    assert!(!contains_file_marker("[Fil e]"));
    assert!(!contains_file_marker(""));
}
