use source_map_mappings::codec::accumulate_delta;
use source_map_mappings::parse_mappings;
use source_map_mappings::{Error, Mapping, OriginalLocation};

#[test]
fn parse_empty_mappings() {
    let mut mappings = parse_mappings(&[]).expect("should parse OK");
    assert!(mappings.by_generated_location().is_empty());
    assert!(mappings.by_original_location().is_empty());
}

#[test]
fn invalid_mappings() {
    assert!(parse_mappings(b"...").is_err());
}

#[test]
fn invalid_mappings_error_kind() {
    assert_eq!(parse_mappings(b"...").unwrap_err(), Error::VlqInvalidBase64);
}

#[test]
fn truncated_vlq_reports_eof() {
    // 'g' has the continuation bit set, so the value never ends.
    assert_eq!(parse_mappings(b"g").unwrap_err(), Error::VlqUnexpectedEof);
}

#[test]
fn vlq_overflow_reported() {
    // Fourteen digits shift past the 64th bit, which the codec rejects.
    assert_eq!(
        parse_mappings(b"gggggggggggggB").unwrap_err(),
        Error::VlqOverflow
    );
}

#[test]
fn negative_total_rejected() {
    // A generated-column delta of -1 from a total of 0.
    assert_eq!(
        parse_mappings(b"D").unwrap_err(),
        Error::UnexpectedNegativeNumber
    );
}

#[test]
fn too_big_total_rejected() {
    // A single delta of 2^32 exceeds the unsigned 32-bit maximum.
    assert_eq!(
        parse_mappings(b"ggggggI").unwrap_err(),
        Error::UnexpectedlyBigNumber
    );
}

#[test]
fn accumulated_total_overflow_rejected() {
    // A column of u32::MAX is fine; adding 1 more in the next segment is not.
    let max_col = parse_mappings(b"+/////H").expect("u32::MAX is still in range");
    assert_eq!(max_col.by_generated_location()[0].generated_column, u32::MAX);
    assert_eq!(
        parse_mappings(b"+/////H,C").unwrap_err(),
        Error::UnexpectedlyBigNumber
    );
}

#[test]
fn accumulate_delta_range_checks() {
    assert_eq!(accumulate_delta(0, -1), Err(Error::UnexpectedNegativeNumber));
    assert_eq!(accumulate_delta(5, -3), Ok(2));
    assert_eq!(accumulate_delta(u32::MAX, 0), Ok(u32::MAX));
    assert_eq!(accumulate_delta(u32::MAX, 1), Err(Error::UnexpectedlyBigNumber));
    assert_eq!(accumulate_delta(0, 1 << 32), Err(Error::UnexpectedlyBigNumber));
    assert_eq!(accumulate_delta(0, i64::MAX), Err(Error::UnexpectedlyBigNumber));
    assert_eq!(accumulate_delta(0, i64::MIN), Err(Error::UnexpectedNegativeNumber));
}

#[test]
fn parse_records_and_running_totals() {
    // Line 0: one 4-field segment. Two empty lines. Line 2: a 4-field
    // segment (whose original column continues from the earlier total)
    // and a 1-field segment.
    let mappings = parse_mappings(b"CAAC;;EACE,C").expect("should parse OK");
    let records = mappings.by_generated_location();
    assert_eq!(records.len(), 3);
    assert_eq!(
        records[0],
        Mapping {
            generated_line: 0,
            generated_column: 1,
            last_generated_column: None,
            original: Some(OriginalLocation {
                source: 0,
                original_line: 0,
                original_column: 1,
                name: None,
            }),
        }
    );
    assert_eq!(
        records[1],
        Mapping {
            generated_line: 2,
            generated_column: 2,
            last_generated_column: None,
            original: Some(OriginalLocation {
                source: 0,
                original_line: 1,
                original_column: 3,
                name: None,
            }),
        }
    );
    assert_eq!(
        records[2],
        Mapping {
            generated_line: 2,
            generated_column: 3,
            last_generated_column: None,
            original: None,
        }
    );
}

#[test]
fn parse_name_field() {
    // A 5-field segment carries a name index.
    let mappings = parse_mappings(b"CAACA").expect("should parse OK");
    let records = mappings.by_generated_location();
    assert_eq!(records.len(), 1);
    assert_eq!(records[0].original.as_ref().unwrap().name, Some(0));
}

#[test]
fn equal_generated_locations_with_original_sort_first() {
    // Two records at generated (0, 0): the first has no original
    // information, the second does. The one with original information
    // must come first in by-generated order.
    let mappings = parse_mappings(b"A,AAAA").expect("should parse OK");
    let records = mappings.by_generated_location();
    assert_eq!(records.len(), 2);
    assert!(records[0].original.is_some());
    assert!(records[1].original.is_none());
}

#[test]
fn column_spans_derived_once() {
    let mut mappings = parse_mappings(b"CAAC;;EACE,C").expect("should parse OK");
    mappings.compute_column_spans();
    let records = mappings.by_generated_location();
    // Last record of line 0 spans to the end of its line.
    assert_eq!(records[0].last_generated_column, None);
    // The first record of line 2 spans up to its successor's column.
    assert_eq!(records[1].last_generated_column, Some(3));
    // The last record of line 2 spans to the end of its line.
    assert_eq!(records[2].last_generated_column, None);
}

#[test]
fn column_spans_idempotent() {
    let mut mappings = parse_mappings(b"CAAC;;EACE,C").expect("should parse OK");
    mappings.compute_column_spans();
    let once = mappings.by_generated_location().clone();
    mappings.compute_column_spans();
    assert_eq!(once, *mappings.by_generated_location());
}

#[test]
fn by_original_location_idempotent() {
    let mut mappings = parse_mappings(b"CAAC;;EACE,C").expect("should parse OK");
    let once = mappings.by_original_location().clone();
    let again = mappings.by_original_location().clone();
    assert_eq!(once, again);
}

#[test]
fn by_original_location_filters_and_sorts() {
    let mut mappings = parse_mappings(b"CAAC;;EACE,C").expect("should parse OK");
    let by_original = mappings.by_original_location();
    assert_eq!(by_original.len(), 2);
    let first = by_original[0].original.as_ref().unwrap();
    let second = by_original[1].original.as_ref().unwrap();
    assert_eq!((first.original_line, first.original_column), (0, 1));
    assert_eq!((second.original_line, second.original_column), (1, 3));
}

#[test]
fn by_original_derivation_also_derives_spans() {
    let mut mappings = parse_mappings(b"CAAC;;EACE,C").expect("should parse OK");
    let _ = mappings.by_original_location();
    // Spans were derived as part of the by-original derivation.
    assert_eq!(
        mappings.by_generated_location()[1].last_generated_column,
        Some(3)
    );
}
