//! The mapping parser.
//!
//! The input is split into generated lines by `;` and into segments by `,`;
//! each segment holds 1, 4, or 5 VLQ deltas with no separator between
//! them. Five running totals accumulate the deltas; the generated column
//! resets at every line boundary while the other four persist across
//! lines. The model of the grammar is `spec_parse_mappings`, and parsing
//! returns exactly the records of the model, sorted by generated location.

use vstd::prelude::*;
use vstd::seq_lib::group_to_multiset_ensures;

use crate::codec::{read_relative_vlq, spec_read_rel};
use crate::comparators::{generated_leq, lemma_generated_total_ordering, ByGeneratedLocation};
use crate::sort::quick_sort;
use crate::{spans_unset, Error, Mapping, Mappings, OriginalLocation};

verus! {

/// The byte value of `;`, which separates generated lines.
pub const LINE_SEPARATOR: u8 = 59;

/// The byte value of `,`, which separates segments within a line.
pub const SEGMENT_SEPARATOR: u8 = 44;

/// Whether the byte separates mappings: a line boundary or a segment
/// boundary.
fn is_mapping_separator(byte: u8) -> (r: bool)
    ensures
        r == (byte == LINE_SEPARATOR || byte == SEGMENT_SEPARATOR),
{
    byte == LINE_SEPARATOR || byte == SEGMENT_SEPARATOR
}

/// Whether position `pos` no longer belongs to the current segment: the
/// input ended or a separator byte follows.
pub open spec fn at_separator_or_end(input: Seq<u8>, pos: int) -> bool {
    pos >= input.len() || input[pos] == LINE_SEPARATOR || input[pos] == SEGMENT_SEPARATOR
}

/// What parsing one segment leaves behind: the record it emits, the new
/// running totals, and the position after its digits.
pub struct SegmentStep {
    /// The emitted record.
    pub mapping: Mapping,
    /// The generated-column total after the segment.
    pub generated_column: u32,
    /// The source-index total after the segment.
    pub source: u32,
    /// The original-line total after the segment.
    pub original_line: u32,
    /// The original-column total after the segment.
    pub original_column: u32,
    /// The name-index total after the segment.
    pub name: u32,
    /// The position after the segment's digits.
    pub new_pos: int,
}

/// The model of one segment starting at `pos` (which is not a separator):
/// a generated-column delta, optionally a source / original-line /
/// original-column group, and optionally a name delta. Each group's
/// presence is decided by whether a separator or the end of input follows.
pub open spec fn spec_parse_segment(
    input: Seq<u8>,
    pos: int,
    generated_line: u32,
    generated_column: u32,
    source: u32,
    original_line: u32,
    original_column: u32,
    name: u32,
) -> Result<SegmentStep, Error> {
    match spec_read_rel(input, pos, generated_column) {
        Err(e) => Err(e),
        Ok((gc, p1)) => if at_separator_or_end(input, p1) {
            Ok(
                SegmentStep {
                    mapping: Mapping {
                        generated_line,
                        generated_column: gc,
                        last_generated_column: None,
                        original: None,
                    },
                    generated_column: gc,
                    source,
                    original_line,
                    original_column,
                    name,
                    new_pos: p1,
                },
            )
        } else {
            match spec_read_rel(input, p1, source) {
                Err(e) => Err(e),
                Ok((src, p2)) => match spec_read_rel(input, p2, original_line) {
                    Err(e) => Err(e),
                    Ok((ol, p3)) => match spec_read_rel(input, p3, original_column) {
                        Err(e) => Err(e),
                        Ok((oc, p4)) => if at_separator_or_end(input, p4) {
                            Ok(
                                SegmentStep {
                                    mapping: Mapping {
                                        generated_line,
                                        generated_column: gc,
                                        last_generated_column: None,
                                        original: Some(
                                            OriginalLocation {
                                                source: src,
                                                original_line: ol,
                                                original_column: oc,
                                                name: None,
                                            },
                                        ),
                                    },
                                    generated_column: gc,
                                    source: src,
                                    original_line: ol,
                                    original_column: oc,
                                    name,
                                    new_pos: p4,
                                },
                            )
                        } else {
                            match spec_read_rel(input, p4, name) {
                                Err(e) => Err(e),
                                Ok((nm, p5)) => Ok(
                                    SegmentStep {
                                        mapping: Mapping {
                                            generated_line,
                                            generated_column: gc,
                                            last_generated_column: None,
                                            original: Some(
                                                OriginalLocation {
                                                    source: src,
                                                    original_line: ol,
                                                    original_column: oc,
                                                    name: Some(nm),
                                                },
                                            ),
                                        },
                                        generated_column: gc,
                                        source: src,
                                        original_line: ol,
                                        original_column: oc,
                                        name: nm,
                                        new_pos: p5,
                                    },
                                ),
                            }
                        },
                    },
                },
            }
        },
    }
}

/// The model of the rest of the input from `pos` on, given the running
/// totals and the records already emitted: the records of the whole input
/// in input order, or the first error.
pub open spec fn spec_parse_rest(
    input: Seq<u8>,
    pos: int,
    generated_line: u32,
    generated_column: u32,
    source: u32,
    original_line: u32,
    original_column: u32,
    name: u32,
    acc: Seq<Mapping>,
) -> Result<Seq<Mapping>, Error>
    decreases input.len() - pos,
{
    if pos < 0 || pos >= input.len() {
        Ok(acc)
    } else if input[pos] == LINE_SEPARATOR {
        if generated_line == u32::MAX {
            Err(Error::UnexpectedlyBigNumber)
        } else {
            spec_parse_rest(
                input,
                pos + 1,
                (generated_line + 1) as u32,
                0u32,
                source,
                original_line,
                original_column,
                name,
                acc,
            )
        }
    } else if input[pos] == SEGMENT_SEPARATOR {
        spec_parse_rest(
            input,
            pos + 1,
            generated_line,
            generated_column,
            source,
            original_line,
            original_column,
            name,
            acc,
        )
    } else {
        match spec_parse_segment(
            input,
            pos,
            generated_line,
            generated_column,
            source,
            original_line,
            original_column,
            name,
        ) {
            Err(e) => Err(e),
            Ok(seg) => spec_parse_rest(
                input,
                seg.new_pos,
                generated_line,
                seg.generated_column,
                seg.source,
                seg.original_line,
                seg.original_column,
                seg.name,
                acc.push(seg.mapping),
            ),
        }
    }
}

/// The model of the whole parse: all totals start at zero and no records
/// have been emitted.
pub open spec fn spec_parse_mappings(input: Seq<u8>) -> Result<Seq<Mapping>, Error> {
    spec_parse_rest(input, 0, 0u32, 0u32, 0u32, 0u32, 0u32, 0u32, Seq::empty())
}

/// Parse one segment at `pos`, updating the running totals in place,
/// exactly as `spec_parse_segment` describes.
fn parse_segment(
    input: &[u8],
    pos: usize,
    generated_line: u32,
    generated_column: &mut u32,
    source: &mut u32,
    original_line: &mut u32,
    original_column: &mut u32,
    name: &mut u32,
) -> (r: Result<(Mapping, usize), Error>)
    requires
        pos < input@.len(),
    ensures
        match spec_parse_segment(
            input@,
            pos as int,
            generated_line,
            *old(generated_column),
            *old(source),
            *old(original_line),
            *old(original_column),
            *old(name),
        ) {
            Ok(seg) => {
                &&& r matches Ok(p) && p.0 == seg.mapping && p.1 == seg.new_pos
                &&& *final(generated_column) == seg.generated_column
                &&& *final(source) == seg.source
                &&& *final(original_line) == seg.original_line
                &&& *final(original_column) == seg.original_column
                &&& *final(name) == seg.name
                &&& pos < seg.new_pos <= input@.len()
            },
            Err(e) => r == Err::<(Mapping, usize), Error>(e),
        },
{
    let p1 = match read_relative_vlq(generated_column, input, pos) {
        Ok(n) => n,
        Err(e) => {
            return Err(e);
        },
    };
    let gc = *generated_column;
    if p1 >= input.len() || is_mapping_separator(input[p1]) {
        Ok(
            (
                Mapping {
                    generated_line,
                    generated_column: gc,
                    last_generated_column: None,
                    original: None,
                },
                p1,
            ),
        )
    } else {
        let p2 = match read_relative_vlq(source, input, p1) {
            Ok(n) => n,
            Err(e) => {
                return Err(e);
            },
        };
        let p3 = match read_relative_vlq(original_line, input, p2) {
            Ok(n) => n,
            Err(e) => {
                return Err(e);
            },
        };
        let p4 = match read_relative_vlq(original_column, input, p3) {
            Ok(n) => n,
            Err(e) => {
                return Err(e);
            },
        };
        if p4 >= input.len() || is_mapping_separator(input[p4]) {
            Ok(
                (
                    Mapping {
                        generated_line,
                        generated_column: gc,
                        last_generated_column: None,
                        original: Some(
                            OriginalLocation {
                                source: *source,
                                original_line: *original_line,
                                original_column: *original_column,
                                name: None,
                            },
                        ),
                    },
                    p4,
                ),
            )
        } else {
            let p5 = match read_relative_vlq(name, input, p4) {
                Ok(n) => n,
                Err(e) => {
                    return Err(e);
                },
            };
            Ok(
                (
                    Mapping {
                        generated_line,
                        generated_column: gc,
                        last_generated_column: None,
                        original: Some(
                            OriginalLocation {
                                source: *source,
                                original_line: *original_line,
                                original_column: *original_column,
                                name: Some(*name),
                            },
                        ),
                    },
                    p5,
                ),
            )
        }
    }
}

/// A sequence drawn from the same records as one whose spans are all
/// absent has all its spans absent too.
proof fn lemma_spans_unset_permutation(a: Seq<Mapping>, b: Seq<Mapping>)
    requires
        a.to_multiset() == b.to_multiset(),
        spans_unset(a),
    ensures
        spans_unset(b),
{
    broadcast use group_to_multiset_ensures;

    assert forall|i: int| 0 <= i < b.len() implies #[trigger] b[i].last_generated_column is None by {
        assert(b.contains(b[i]));
        assert(b.to_multiset().count(b[i]) > 0);
        assert(a.contains(b[i]));
        let j = choose|j: int| 0 <= j < a.len() && #[trigger] a[j] == b[i];
        assert(a[j].last_generated_column is None);
    }
}

/// Parse a source map's `"mappings"` string into a queryable `Mappings`
/// structure. Parsing succeeds exactly when the model of the grammar
/// does, and the records are those of the model, sorted by generated
/// location; on failure the model's error is returned and no partial
/// index is produced.
pub fn parse_mappings(input: &[u8]) -> (r: Result<Mappings, Error>)
    ensures
        match spec_parse_mappings(input@) {
            Ok(records) => {
                &&& r matches Ok(m)
                &&& m.wf()
                &&& m.by_generated_seq() == records.sort_by(generated_leq())
                &&& m.by_original_seq() is None
                &&& !m.spans_computed()
            },
            Err(e) => r == Err::<Mappings, Error>(e),
        },
{
    let mut generated_line: u32 = 0;
    let mut generated_column: u32 = 0;
    let mut source: u32 = 0;
    let mut original_line: u32 = 0;
    let mut original_column: u32 = 0;
    let mut name: u32 = 0;

    // `input.len() / 2` is an upper bound on how many records the string
    // can hold: each one takes at least one byte, plus a separator.
    let mut by_generated: Vec<Mapping> = Vec::with_capacity(input.len() / 2);

    let mut pos: usize = 0;
    while pos < input.len()
        invariant
            pos <= input@.len(),
            spec_parse_rest(
                input@,
                pos as int,
                generated_line,
                generated_column,
                source,
                original_line,
                original_column,
                name,
                by_generated@,
            ) == spec_parse_mappings(input@),
            spans_unset(by_generated@),
        decreases input@.len() - pos,
    {
        let byte = input[pos];
        if byte == LINE_SEPARATOR {
            if generated_line == u32::MAX {
                return Err(Error::UnexpectedlyBigNumber);
            }
            generated_line = generated_line + 1;
            generated_column = 0;
            pos = pos + 1;
        } else if byte == SEGMENT_SEPARATOR {
            pos = pos + 1;
        } else {
            match parse_segment(
                input,
                pos,
                generated_line,
                &mut generated_column,
                &mut source,
                &mut original_line,
                &mut original_column,
                &mut name,
            ) {
                Ok((mapping, new_pos)) => {
                    by_generated.push(mapping);
                    pos = new_pos;
                },
                Err(e) => {
                    return Err(e);
                },
            }
        }
    }
    let ghost records = by_generated@;
    proof {
        lemma_generated_total_ordering();
        records.lemma_sort_by_ensures(generated_leq());
    }
    quick_sort::<ByGeneratedLocation>(&mut by_generated);
    proof {
        lemma_spans_unset_permutation(records, by_generated@);
    }
    Ok(Mappings::from_sorted(by_generated))
}

} // verus!
