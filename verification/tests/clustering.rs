use snaffler_cluster::cluster::group_similar_snaffler_records;
use snaffler_cluster::log::process_lines;
use snaffler_cluster::snaffler_record::{SnafflerRecord, TriageLevel};
use snaffler_cluster::timer::Timer;

fn rec(context: &str) -> SnafflerRecord {
    SnafflerRecord {
        triage_level: TriageLevel::Red,
        rule: "R1".to_string(),
        filepath: "/data/a.txt".to_string(),
        match_context: context.to_string(),
    }
}

#[test]
fn empty_input_gives_empty_result() {
    let groups = group_similar_snaffler_records(Vec::new());
    assert!(groups.is_empty());
}

#[test]
fn single_record_gives_single_group() {
    let groups = group_similar_snaffler_records(vec![rec("only one")]);
    assert_eq!(groups.len(), 1);
    assert_eq!(groups[0].len(), 1);
    assert_eq!(groups[0][0].match_context, "only one");
}

#[test]
fn identical_pair_lands_in_one_group() {
    // against a singleton group the sample is exhaustive, so the second
    // record is accepted whatever the randomness draws
    let groups = group_similar_snaffler_records(vec![rec("password=123"), rec("password=123")]);
    assert_eq!(groups.len(), 1);
    assert_eq!(groups[0].len(), 2);
}

#[test]
fn near_duplicates_cluster_and_outlier_separates() {
    let groups = group_similar_snaffler_records(vec![
        rec("password=123"),
        rec("password=124"),
        rec("totally different text"),
    ]);
    assert_eq!(groups.len(), 2);
    assert_eq!(groups[0].len(), 2);
    assert_eq!(groups[0][0].match_context, "password=123");
    assert_eq!(groups[0][1].match_context, "password=124");
    assert_eq!(groups[1].len(), 1);
    assert_eq!(groups[1][0].match_context, "totally different text");
}

#[test]
fn identical_records_gather_and_unique_records_stand_alone() {
    let groups = group_similar_snaffler_records(vec![
        rec("password=123"),
        rec("password=123"),
        rec("password=123"),
        rec("alpha beta gamma delta"),
        rec("zzzzzzzzzzzzzzzzzzzzzz"),
    ]);
    assert_eq!(groups.len(), 3);
    assert_eq!(groups[0].len(), 3);
    assert_eq!(groups[1].len(), 1);
    assert_eq!(groups[2].len(), 1);
    assert_eq!(groups[1][0].match_context, "alpha beta gamma delta");
    assert_eq!(groups[2][0].match_context, "zzzzzzzzzzzzzzzzzzzzzz");
}

#[test]
fn larger_group_is_tried_first() {
    // "aaaaaaaaaa" and "aaaaaabbbb" are dissimilar (distance 4 of 10);
    // "aaaaaaaabb" is similar to both (distance 2 of 10), so both groups
    // would accept it, and the larger one must win the search
    let groups = group_similar_snaffler_records(vec![
        rec("aaaaaaaaaa"),
        rec("aaaaaaaaaa"),
        rec("aaaaaabbbb"),
        rec("aaaaaaaabb"),
    ]);
    assert_eq!(groups.len(), 2);
    assert_eq!(groups[0].len(), 3);
    assert_eq!(groups[1].len(), 1);
    assert_eq!(groups[0][2].match_context, "aaaaaaaabb");
}

#[test]
fn every_record_lands_in_exactly_one_group() {
    let contexts = [
        "password=123",
        "password=124",
        "api_key=abcdef",
        "password=125",
        "totally different text",
    ];
    let input: Vec<SnafflerRecord> = contexts.iter().map(|c| rec(c)).collect();
    let groups = group_similar_snaffler_records(input);
    let mut seen: Vec<String> = Vec::new();
    for g in &groups {
        assert!(!g.is_empty());
        for r in g {
            seen.push(r.match_context.clone());
        }
    }
    assert_eq!(seen.len(), contexts.len());
    for c in contexts {
        assert_eq!(seen.iter().filter(|s| s.as_str() == c).count(), 1);
    }
}

#[test]
fn process_lines_extracts_and_flags() {
    let lines: Vec<String> = vec![
        "[corp\\alice@host1] 2024-01-02 03:04:05Z [File] {Red}<R1|R|x|y|2024-01-02 03:04:05Z>(/d/a.txt) password=123".to_string(),
        "some unrelated log line".to_string(),
        "broken [File] line that should warn".to_string(),
        "[corp\\alice@host1] 2024-01-02 03:04:05Z [File] {Green}<R2|RW|x|y|2024-01-02 03:04:05Z>(/d/b.txt) password=124".to_string(),
        "".to_string(),
    ];
    let out = process_lines(&lines);
    assert_eq!(out.records.len(), 2);
    assert_eq!(out.records[0].match_context, "password=123");
    assert_eq!(out.records[0].rule, "R1");
    assert_eq!(out.records[1].triage_level, TriageLevel::Green);
    assert_eq!(out.unparsed_file_lines, vec![2]);
}

#[test]
fn process_lines_of_empty_log() {
    let out = process_lines(&Vec::new());
    assert!(out.records.is_empty());
    assert!(out.unparsed_file_lines.is_empty());
}

#[test]
fn timer_keeps_its_label() {
    let t = Timer::new("load_snaffler_log");
    assert_eq!(t.label, "load_snaffler_log");
    let _ms = t.elapsed_millis();
}
