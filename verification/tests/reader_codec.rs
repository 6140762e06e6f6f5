//! The source reader's row handling and the codec's round trip and failure
//! behavior, exercised on concrete values.

use academic_journals::codec::{decode_dataset, encode_dataset};
use academic_journals::error::DataError;
use academic_journals::journal::Journal;
use academic_journals::merge::{source_file_names, SourceOrder};
use academic_journals::reader::parse_source;

fn record(
    name: &str,
    abbr_1: Option<&str>,
    abbr_2: Option<&str>,
    abbr_3: Option<&str>,
) -> Journal {
    Journal {
        name: name.to_string(),
        abbr_1: abbr_1.map(str::to_string),
        abbr_2: abbr_2.map(str::to_string),
        abbr_3: abbr_3.map(str::to_string),
    }
}

fn same_record(a: &Journal, b: &Journal) -> bool {
    a.name == b.name && a.abbr_1 == b.abbr_1 && a.abbr_2 == b.abbr_2 && a.abbr_3 == b.abbr_3
}

#[test]
fn malformed_row_fails_the_whole_read() {
    let err = parse_source("A,a\nB,b\n,missing-name\nC,c").expect_err("parse must fail");
    assert_eq!(err.row, 3);
}

#[test]
fn too_many_columns_is_malformed() {
    let err = parse_source("a,b,c,d,e").expect_err("parse must fail");
    assert_eq!(err.row, 1);
}

#[test]
fn four_columns_fill_all_slots() {
    let records = parse_source("a,b,c,d").expect("parse should succeed");
    assert_eq!(records.len(), 1);
    assert_eq!(records[0].abbr_1.as_deref(), Some("b"));
    assert_eq!(records[0].abbr_2.as_deref(), Some("c"));
    assert_eq!(records[0].abbr_3.as_deref(), Some("d"));
}

#[test]
fn whitespace_only_name_is_malformed() {
    let err = parse_source("   ,x").expect_err("parse must fail");
    assert_eq!(err.row, 1);
}

#[test]
fn blank_rows_are_skipped_but_still_numbered() {
    let records = parse_source("A,a\n\n   \nB,b\n").expect("parse should succeed");
    assert_eq!(records.len(), 2);
    let err = parse_source("A,a\n\n,x").expect_err("parse must fail");
    assert_eq!(err.row, 3);
}

#[test]
fn empty_text_reads_as_empty_dataset() {
    let records = parse_source("").expect("parse should succeed");
    assert_eq!(records.len(), 0);
}

#[test]
fn empty_value_is_an_absent_abbreviation() {
    let records = parse_source("A, ,x,").expect("parse should succeed");
    assert_eq!(records[0].abbr_1, None);
    assert_eq!(records[0].abbr_2.as_deref(), Some("x"));
    assert_eq!(records[0].abbr_3, None);
}

#[test]
fn codec_round_trip_preserves_records_and_absent_slots() {
    let dataset = vec![
        record("Journal of Rust Studies", Some("J. Rust Stud."), None, None),
        record("Nameless Quarterly", None, None, None),
        record("Full House", Some("F. H."), Some("FH"), Some("fh")),
        record("Gaps", None, Some("middle"), None),
    ];
    let blob = encode_dataset(&dataset);
    let back = decode_dataset(&blob).expect("decode should succeed");
    assert_eq!(back.len(), dataset.len());
    for (a, b) in dataset.iter().zip(back.iter()) {
        assert!(same_record(a, b));
    }
}

#[test]
fn codec_round_trip_preserves_unicode_names() {
    let dataset = vec![record("Журнал Омега Ω", Some("Ж. Ω."), None, None)];
    let blob = encode_dataset(&dataset);
    let back = decode_dataset(&blob).expect("decode should succeed");
    assert!(same_record(&dataset[0], &back[0]));
}

#[test]
fn codec_round_trip_of_empty_dataset() {
    let dataset: Vec<Journal> = Vec::new();
    let blob = encode_dataset(&dataset);
    assert_eq!(blob.len(), 8);
    let back = decode_dataset(&blob).expect("decode should succeed");
    assert_eq!(back.len(), 0);
}

#[test]
fn decode_rejects_truncated_and_trailing_bytes() {
    assert!(matches!(decode_dataset(&vec![1u8, 2, 3]), Err(DataError::DecodeFailure)));
    let mut blob = encode_dataset(&vec![record("A", Some("a"), None, None)]);
    blob.push(0);
    assert!(matches!(decode_dataset(&blob), Err(DataError::DecodeFailure)));
    let short: Vec<u8> = encode_dataset(&vec![record("A", None, None, None)])
        .into_iter()
        .take(10)
        .collect();
    assert!(matches!(decode_dataset(&short), Err(DataError::DecodeFailure)));
}

#[test]
fn decode_rejects_a_lying_record_count() {
    let mut blob: Vec<u8> = vec![9, 0, 0, 0, 0, 0, 0, 0];
    blob.extend_from_slice(&[0, 0, 0, 0, 0, 0, 0, 0]);
    assert!(matches!(decode_dataset(&blob), Err(DataError::DecodeFailure)));
}

#[test]
fn dotted_order_lists_its_eleven_sources() {
    let names = source_file_names(SourceOrder::Dotted);
    assert_eq!(names.len(), 11);
    assert_eq!(names[0], "journal_abbreviations_general.csv");
    assert_eq!(names[3], "journal_abbreviations_ieee.csv");
    assert_eq!(names[10], "journal_abbreviations_webofscience-dots.csv");
}

#[test]
fn dotless_order_lists_its_three_sources() {
    let names = source_file_names(SourceOrder::Dotless);
    assert_eq!(names.len(), 3);
    assert_eq!(names[0], "journal_abbreviations_entrez.csv");
    assert_eq!(names[1], "journal_abbreviations_medicus.csv");
    assert_eq!(names[2], "journal_abbreviations_webofscience-dotless.csv");
}
