//! End-to-end exercises of the build pipeline: reading sources, merging,
//! encoding, decoding, indexing, and querying.

use academic_journals::cli::Cli;
use academic_journals::codec::{decode_dataset, encode_dataset};
use academic_journals::error::DataError;
use academic_journals::index::build_indexes;
use academic_journals::merge::merge_sources;
use academic_journals::reader::parse_source;
use academic_journals::{get_abbreviation, get_full_name, resolve};

fn source(name: &str, text: &str) -> (String, String) {
    (name.to_string(), text.to_string())
}

#[test]
fn end_to_end_single_record() {
    let sources = vec![source("demo", "Journal of Rust Studies, J. Rust Stud.")];
    let merged = merge_sources(&sources).expect("merge should succeed");
    let blob = encode_dataset(&merged);
    let dataset = decode_dataset(&blob).expect("decode should succeed");
    let idx = build_indexes(&dataset);
    assert_eq!(
        get_abbreviation(&idx, "Journal of Rust Studies"),
        Some("J. Rust Stud.".to_string())
    );
    assert_eq!(
        get_full_name(&idx, "J. Rust Stud."),
        Some("Journal of Rust Studies".to_string())
    );
}

#[test]
fn precedence_later_source_wins() {
    let sources = vec![source("a", "X,x1"), source("b", "X,x2")];
    let merged = merge_sources(&sources).expect("merge should succeed");
    let idx = build_indexes(&merged);
    assert_eq!(get_abbreviation(&idx, "X"), Some("x2".to_string()));
}

#[test]
fn duplicate_name_within_one_source_later_row_wins() {
    let sources = vec![source("a", "X,x1\nX,x2")];
    let merged = merge_sources(&sources).expect("merge should succeed");
    assert_eq!(merged.len(), 2);
    let idx = build_indexes(&merged);
    assert_eq!(get_abbreviation(&idx, "X"), Some("x2".to_string()));
}

#[test]
fn abbreviation_collision_later_record_wins() {
    let sources = vec![source("a", "A,z\nB,z")];
    let merged = merge_sources(&sources).expect("merge should succeed");
    let idx = build_indexes(&merged);
    assert_eq!(get_full_name(&idx, "z"), Some("B".to_string()));
}

#[test]
fn slot_order_first_present_slot_answers() {
    let sources = vec![source("a", "Journal of Testing,,ABC")];
    let merged = merge_sources(&sources).expect("merge should succeed");
    let idx = build_indexes(&merged);
    assert_eq!(get_abbreviation(&idx, "Journal of Testing"), Some("ABC".to_string()));
}

#[test]
fn all_slots_index_back_to_the_name() {
    let sources = vec![source("a", "N,a1,a2,a3")];
    let merged = merge_sources(&sources).expect("merge should succeed");
    let idx = build_indexes(&merged);
    assert_eq!(get_abbreviation(&idx, "N"), Some("a1".to_string()));
    assert_eq!(get_full_name(&idx, "a1"), Some("N".to_string()));
    assert_eq!(get_full_name(&idx, "a2"), Some("N".to_string()));
    assert_eq!(get_full_name(&idx, "a3"), Some("N".to_string()));
}

#[test]
fn unknown_keys_answer_none() {
    let sources = vec![source("a", "A,b")];
    let merged = merge_sources(&sources).expect("merge should succeed");
    let idx = build_indexes(&merged);
    assert_eq!(get_full_name(&idx, "ZZZZ"), None);
    assert_eq!(get_abbreviation(&idx, "ZZZZ"), None);
}

#[test]
fn record_without_abbreviations_answers_none() {
    let sources = vec![source("a", "Lonely Journal")];
    let merged = merge_sources(&sources).expect("merge should succeed");
    let idx = build_indexes(&merged);
    assert_eq!(get_abbreviation(&idx, "Lonely Journal"), None);
}

#[test]
fn lookups_are_case_sensitive_and_exact() {
    let sources = vec![source("a", "Alpha,al")];
    let merged = merge_sources(&sources).expect("merge should succeed");
    let idx = build_indexes(&merged);
    assert_eq!(get_abbreviation(&idx, "alpha"), None);
    assert_eq!(get_abbreviation(&idx, "Alpha "), None);
    assert_eq!(get_full_name(&idx, "AL"), None);
}

#[test]
fn index_build_is_idempotent_on_queries() {
    let sources = vec![source("a", "A,a1\nB,b1,b2\nC")];
    let merged = merge_sources(&sources).expect("merge should succeed");
    let idx1 = build_indexes(&merged);
    let idx2 = build_indexes(&merged);
    for key in ["A", "B", "C", "a1", "b2", "missing"] {
        assert_eq!(get_abbreviation(&idx1, key), get_abbreviation(&idx2, key));
        assert_eq!(get_full_name(&idx1, key), get_full_name(&idx2, key));
    }
}

#[test]
fn resolve_follows_the_mode_flag() {
    let sources = vec![source("a", "Journal of Rust Studies, J. Rust Stud.")];
    let merged = merge_sources(&sources).expect("merge should succeed");
    let idx = build_indexes(&merged);
    let by_name = Cli { input: "Journal of Rust Studies".to_string(), abbreviation: true };
    assert_eq!(resolve(&by_name, &idx), Some("J. Rust Stud.".to_string()));
    let by_abbr = Cli { input: "J. Rust Stud.".to_string(), abbreviation: false };
    assert_eq!(resolve(&by_abbr, &idx), Some("Journal of Rust Studies".to_string()));
    let miss = Cli { input: "nope".to_string(), abbreviation: false };
    assert_eq!(resolve(&miss, &idx), None);
}

#[test]
fn merge_reports_failing_source_and_row() {
    let sources = vec![
        source("good", "A,b"),
        source("bad", "B,x\n,oops"),
        source("later", "C,d"),
    ];
    match merge_sources(&sources) {
        Err(DataError::MalformedRecord { source, row }) => {
            assert_eq!(source, "bad");
            assert_eq!(row, 2);
        }
        other => panic!("expected a malformed-record failure, got {:?}", other),
    }
}

#[test]
fn merge_concatenates_in_source_order() {
    let sources = vec![source("a", "A,a1\nB,b1"), source("b", "C,c1")];
    let merged = merge_sources(&sources).expect("merge should succeed");
    assert_eq!(merged.len(), 3);
    assert_eq!(merged[0].name, "A");
    assert_eq!(merged[1].name, "B");
    assert_eq!(merged[2].name, "C");
}

#[test]
fn empty_source_list_merges_to_empty_dataset() {
    let sources: Vec<(String, String)> = Vec::new();
    let merged = merge_sources(&sources).expect("merge should succeed");
    assert_eq!(merged.len(), 0);
    let idx = build_indexes(&merged);
    assert_eq!(get_full_name(&idx, "anything"), None);
}

#[test]
fn parse_trims_padding_whitespace() {
    let records = parse_source("  Padded Journal  ,  P. J.  ").expect("parse should succeed");
    assert_eq!(records.len(), 1);
    assert_eq!(records[0].name, "Padded Journal");
    assert_eq!(records[0].abbr_1.as_deref(), Some("P. J."));
    assert_eq!(records[0].abbr_2, None);
    assert_eq!(records[0].abbr_3, None);
}

#[test]
fn parse_handles_crlf_line_endings() {
    let records = parse_source("A,a\r\nB,b\r\n").expect("parse should succeed");
    assert_eq!(records.len(), 2);
    assert_eq!(records[0].name, "A");
    assert_eq!(records[0].abbr_1.as_deref(), Some("a"));
    assert_eq!(records[1].name, "B");
    assert_eq!(records[1].abbr_1.as_deref(), Some("b"));
}
