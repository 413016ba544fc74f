use source_map_mappings::comparators::{ByGeneratedLocation, ComparatorFunction};
use source_map_mappings::parse_mappings;
use source_map_mappings::{
    byte_to_bias, mapping_to_parts, AllGeneratedLocationsFor, Bias, Mapping, OriginalLocation,
};

fn collect(mut run: AllGeneratedLocationsFor) -> Vec<Mapping> {
    let mut out = Vec::new();
    while let Some(m) = run.next() {
        out.push(m);
    }
    out
}

#[test]
fn bias_default_is_greatest_lower_bound() {
    assert_eq!(Bias::default(), Bias::GreatestLowerBound);
}

#[test]
fn bias_discriminants_decode() {
    assert_eq!(byte_to_bias(1), Bias::GreatestLowerBound);
    assert_eq!(byte_to_bias(2), Bias::LeastUpperBound);
}

#[test]
fn mapping_flattens_into_parts() {
    let full = Mapping {
        generated_line: 3,
        generated_column: 4,
        last_generated_column: Some(9),
        original: Some(OriginalLocation {
            source: 1,
            original_line: 2,
            original_column: 5,
            name: Some(7),
        }),
    };
    assert_eq!(
        mapping_to_parts(&full),
        (3, 4, true, 9, true, 1, 2, 5, true, 7)
    );
    let bare = Mapping {
        generated_line: 3,
        generated_column: 4,
        last_generated_column: None,
        original: None,
    };
    assert_eq!(
        mapping_to_parts(&bare),
        (3, 4, false, 0, false, 0, 0, 0, false, 0)
    );
}

#[test]
fn original_location_for_exact_match() {
    let mappings = parse_mappings(b"CAAC;;EACE,C").expect("should parse OK");
    for bias in [Bias::GreatestLowerBound, Bias::LeastUpperBound] {
        let m = mappings.original_location_for(2, 2, bias).unwrap();
        assert_eq!(m.generated_line, 2);
        assert_eq!(m.generated_column, 2);
        let original = m.original.unwrap();
        assert_eq!(original.original_line, 1);
        assert_eq!(original.original_column, 3);
    }
}

#[test]
fn original_location_for_biased_miss() {
    let mappings = parse_mappings(b"CAAC;;EACE,C").expect("should parse OK");
    // (1, 0) falls between the record at (0, 1) and the record at (2, 2).
    let glb = mappings
        .original_location_for(1, 0, Bias::GreatestLowerBound)
        .unwrap();
    assert_eq!((glb.generated_line, glb.generated_column), (0, 1));
    let lub = mappings
        .original_location_for(1, 0, Bias::LeastUpperBound)
        .unwrap();
    assert_eq!((lub.generated_line, lub.generated_column), (2, 2));
}

#[test]
fn original_location_for_before_first() {
    let mappings = parse_mappings(b"CAAC;;EACE,C").expect("should parse OK");
    // (0, 0) is before the first record at (0, 1).
    assert!(mappings
        .original_location_for(0, 0, Bias::GreatestLowerBound)
        .is_none());
    let lub = mappings
        .original_location_for(0, 0, Bias::LeastUpperBound)
        .unwrap();
    assert_eq!((lub.generated_line, lub.generated_column), (0, 1));
}

#[test]
fn original_location_for_past_last() {
    let mappings = parse_mappings(b"CAAC;;EACE,C").expect("should parse OK");
    assert!(mappings
        .original_location_for(9, 9, Bias::LeastUpperBound)
        .is_none());
    let glb = mappings
        .original_location_for(9, 9, Bias::GreatestLowerBound)
        .unwrap();
    assert_eq!((glb.generated_line, glb.generated_column), (2, 3));
}

#[test]
fn original_location_for_empty_index() {
    let mappings = parse_mappings(&[]).expect("should parse OK");
    assert!(mappings
        .original_location_for(0, 0, Bias::GreatestLowerBound)
        .is_none());
    assert!(mappings
        .original_location_for(0, 0, Bias::LeastUpperBound)
        .is_none());
}

#[test]
fn generated_location_for_exact_and_biased() {
    let mut mappings = parse_mappings(b"CAAC;;EACE,C").expect("should parse OK");
    let exact = mappings
        .generated_location_for(0, 0, 1, Bias::GreatestLowerBound)
        .unwrap();
    assert_eq!((exact.generated_line, exact.generated_column), (0, 1));
    // (0, 0, 0) is before the first original location (0, 0, 1).
    assert!(mappings
        .generated_location_for(0, 0, 0, Bias::GreatestLowerBound)
        .is_none());
    let lub = mappings
        .generated_location_for(0, 0, 0, Bias::LeastUpperBound)
        .unwrap();
    assert_eq!((lub.generated_line, lub.generated_column), (0, 1));
    // (0, 2, 0) is past the last original location (0, 1, 3).
    assert!(mappings
        .generated_location_for(0, 2, 0, Bias::LeastUpperBound)
        .is_none());
    let glb = mappings
        .generated_location_for(0, 2, 0, Bias::GreatestLowerBound)
        .unwrap();
    assert_eq!((glb.generated_line, glb.generated_column), (2, 2));
}

#[test]
fn all_generated_locations_for_whole_line() {
    // Three records, all on original line 1 of source 0, columns 0, 0, 1.
    let mut mappings = parse_mappings(b"AACA,CAAA,CAAC").expect("should parse OK");
    let results = collect(mappings.all_generated_locations_for(0, 1, None));
    assert_eq!(results.len(), 3);
    for m in &results {
        let original = m.original.as_ref().unwrap();
        assert_eq!(original.source, 0);
        assert_eq!(original.original_line, 1);
    }
    let columns: Vec<u32> = results.iter().map(|m| m.generated_column).collect();
    assert_eq!(columns, vec![0, 1, 2]);
}

#[test]
fn all_generated_locations_for_exact_column() {
    let mut mappings = parse_mappings(b"AACA,CAAA,CAAC").expect("should parse OK");
    let results = collect(mappings.all_generated_locations_for(0, 1, Some(0)));
    assert_eq!(results.len(), 2);
    for m in &results {
        let original = m.original.as_ref().unwrap();
        assert_eq!(original.source, 0);
        assert_eq!(original.original_line, 1);
        assert_eq!(original.original_column, 0);
    }
    let results = collect(mappings.all_generated_locations_for(0, 1, Some(1)));
    assert_eq!(results.len(), 1);
    assert_eq!(results[0].generated_column, 2);
}

#[test]
fn all_generated_locations_for_fuzzy_line() {
    // No record sits on original line 0, so the query re-anchors to the
    // first line at or after it, line 1.
    let mut mappings = parse_mappings(b"AACA,CAAA,CAAC").expect("should parse OK");
    let results = collect(mappings.all_generated_locations_for(0, 0, None));
    assert_eq!(results.len(), 3);
    for m in &results {
        assert_eq!(m.original.as_ref().unwrap().original_line, 1);
    }
}

#[test]
fn all_generated_locations_for_no_match() {
    let mut mappings = parse_mappings(b"AACA,CAAA,CAAC").expect("should parse OK");
    assert!(collect(mappings.all_generated_locations_for(0, 2, None)).is_empty());
    assert!(collect(mappings.all_generated_locations_for(1, 1, None)).is_empty());
}

#[test]
fn result_run_is_forward_only() {
    let mut mappings = parse_mappings(b"AACA,CAAA,CAAC").expect("should parse OK");
    let mut run = mappings.all_generated_locations_for(0, 1, None);
    assert!(run.next().is_some());
    assert!(run.next().is_some());
    assert!(run.next().is_some());
    assert!(run.next().is_none());
    // Exhausted for good: the run does not restart.
    assert!(run.next().is_none());
}

fn assert_sorted_by_generated(records: &[Mapping]) {
    for pair in records.windows(2) {
        let ord = <ByGeneratedLocation as ComparatorFunction>::compare(&pair[0], &pair[1]);
        assert!(ord != std::cmp::Ordering::Greater);
    }
}

#[test]
fn arbitrary_delta_streams_never_panic() {
    // A deterministic xorshift stream drives both the deltas and the
    // shape of each generated string, covering the full signed 64-bit
    // delta range.
    let mut state: u64 = 0x1234_5678_9abc_def0;
    let mut next = move || {
        state ^= state << 13;
        state ^= state >> 7;
        state ^= state << 17;
        state
    };
    for _ in 0..200 {
        let mut text: Vec<u8> = Vec::new();
        let pieces = next() % 8;
        for _ in 0..pieces {
            match next() % 4 {
                0 => text.push(b';'),
                1 => text.push(b','),
                _ => {
                    let fields = match next() % 3 {
                        0 => 1,
                        1 => 4,
                        _ => 5,
                    };
                    for _ in 0..fields {
                        let delta = next() as i64;
                        let delta = if delta == i64::MIN { i64::MAX } else { delta };
                        vlq::encode(delta, &mut text).expect("writing to a Vec cannot fail");
                    }
                },
            }
        }
        match parse_mappings(&text) {
            Ok(mappings) => assert_sorted_by_generated(mappings.by_generated_location()),
            Err(_) => {},
        }
    }
}

#[test]
fn small_positive_delta_streams_parse() {
    // Streams of small non-negative deltas always stay in range, so
    // parsing must succeed.
    let mut state: u64 = 0x0dd0_1235_4567_89ab;
    let mut next = move || {
        state ^= state << 13;
        state ^= state >> 7;
        state ^= state << 17;
        state
    };
    for _ in 0..100 {
        let mut text: Vec<u8> = Vec::new();
        let pieces = next() % 10;
        for _ in 0..pieces {
            match next() % 4 {
                0 => text.push(b';'),
                1 => text.push(b','),
                _ => {
                    // Keep each piece a segment of its own, so its field
                    // count stays one of the three the grammar allows.
                    match text.last() {
                        Some(b';') | Some(b',') | None => {},
                        Some(_) => text.push(b','),
                    }
                    let fields = match next() % 3 {
                        0 => 1,
                        1 => 4,
                        _ => 5,
                    };
                    for _ in 0..fields {
                        let delta = (next() % 6) as i64;
                        vlq::encode(delta, &mut text).expect("writing to a Vec cannot fail");
                    }
                },
            }
        }
        let mappings = parse_mappings(&text).expect("small positive deltas should parse OK");
        assert_sorted_by_generated(mappings.by_generated_location());
    }
}
