//! Laws that hold of every index the library builds: the ordering of the
//! by-generated view, the column-span invariant, idempotence of the
//! derivations, exactness of point queries, the bias behaviour at the
//! lower boundary, and containment for fuzzy queries.

use vstd::prelude::*;
use vstd::relations::sorted_by;

use crate::comparators::{generated_leq, lemma_generated_total_ordering, original_leq};
use crate::{
    all_generated_locations_for_spec, expected_span, generated_key_eq, generated_key_lt,
    generated_key_pred, lemma_lower_bound_index, lemma_with_spans_exact, lower_bound_index,
    matches_anchor, original_key_eq, original_key_lt, original_key_pred,
    original_location_for_spec, spans_exact, take_matching, with_spans, Bias, Mapping, Mappings,
};

verus! {

/// The by-generated view of a well-formed index is sorted ascending by
/// `(generated_line, generated_column)`, and among records at the same
/// generated location, those carrying original information precede those
/// without.
pub proof fn lemma_by_generated_sorted(m: Mappings)
    requires
        m.wf(),
    ensures
        sorted_by(m.by_generated_seq(), generated_leq()),
        forall|i: int, j: int|
            #![trigger m.by_generated_seq()[i], m.by_generated_seq()[j]]
            0 <= i < j < m.by_generated_seq().len() && m.by_generated_seq()[i].generated_line
                == m.by_generated_seq()[j].generated_line && m.by_generated_seq()[i].generated_column
                == m.by_generated_seq()[j].generated_column && m.by_generated_seq()[j].original
                is Some ==> m.by_generated_seq()[i].original is Some,
{
    let s = m.by_generated_seq();
    assert forall|i: int, j: int|
        0 <= i < j < s.len() && (#[trigger] s[i]).generated_line == (#[trigger] s[j]).generated_line
            && s[i].generated_column == s[j].generated_column && s[j].original is Some implies s[i].original
        is Some by {
        assert((generated_leq())(s[i], s[j]));
    }
}

/// The column-span invariant of a derived index: every record whose
/// successor in by-generated order sits on the same generated line spans
/// up to that successor's column, and the last record of each generated
/// line spans to the end of the line.
pub proof fn lemma_column_span_invariant(m: Mappings)
    requires
        m.wf(),
        m.spans_computed(),
    ensures
        forall|i: int|
            #![trigger m.by_generated_seq()[i]]
            0 <= i < m.by_generated_seq().len() - 1 && m.by_generated_seq()[i].generated_line
                == m.by_generated_seq()[i + 1].generated_line
                ==> m.by_generated_seq()[i].last_generated_column == Some(
                m.by_generated_seq()[i + 1].generated_column,
            ),
        forall|i: int|
            #![trigger m.by_generated_seq()[i]]
            0 <= i < m.by_generated_seq().len() && (i == m.by_generated_seq().len() - 1
                || m.by_generated_seq()[i].generated_line != m.by_generated_seq()[i
                + 1].generated_line) ==> m.by_generated_seq()[i].last_generated_column is None,
{
    let s = m.by_generated_seq();
    assert(spans_exact(s));
    assert forall|i: int|
        0 <= i < s.len() - 1 && (#[trigger] s[i]).generated_line == s[i
            + 1].generated_line implies s[i].last_generated_column == Some(
        s[i + 1].generated_column,
    ) by {
        assert(s[i].last_generated_column == expected_span(s, i));
    }
    assert forall|i: int|
        0 <= i < s.len() && (i == s.len() - 1 || (#[trigger] s[i]).generated_line != s[i
            + 1].generated_line) implies s[i].last_generated_column is None by {
        assert(s[i].last_generated_column == expected_span(s, i));
    }
}

/// Span derivation is idempotent at the level of the model: deriving the
/// spans of an already-derived sequence changes nothing. Together with
/// the caching contracts of `compute_column_spans` and
/// `by_original_location`, repeating either derivation yields identical
/// results to performing it once.
pub proof fn lemma_span_derivation_idempotent(s: Seq<Mapping>)
    ensures
        with_spans(with_spans(s)) == with_spans(s),
{
    let t = with_spans(s);
    assert forall|i: int| 0 <= i < t.len() implies #[trigger] t[i].last_generated_column
        == expected_span(t, i) by {
        assert(t[i].last_generated_column == expected_span(s, i));
        if i + 1 < t.len() {
            assert(t[i + 1].generated_line == s[i + 1].generated_line);
            assert(t[i + 1].generated_column == s[i + 1].generated_column);
        }
    }
    lemma_with_spans_exact(t);
}

/// Exactness of point queries: a record whose generated location occurs
/// exactly once in the by-generated sequence is returned, under either
/// bias, by a query for its own generated location.
pub proof fn lemma_original_location_for_exact(s: Seq<Mapping>, i: int, bias: Bias)
    requires
        sorted_by(s, generated_leq()),
        0 <= i < s.len(),
        forall|j: int|
            0 <= j < s.len() && generated_key_eq(
                #[trigger] s[j],
                s[i].generated_line,
                s[i].generated_column,
            ) ==> j == i,
    ensures
        original_location_for_spec(s, s[i].generated_line, s[i].generated_column, bias) == Some(
            s[i],
        ),
{
    lemma_generated_total_ordering();
    let line = s[i].generated_line;
    let column = s[i].generated_column;
    let p = generated_key_pred(line, column);
    assert forall|j: int| 0 <= j < i implies p(#[trigger] s[j]) by {
        assert((generated_leq())(s[j], s[i]));
        assert(!generated_key_eq(s[j], line, column));
    }
    assert forall|j: int| i <= j < s.len() implies !p(#[trigger] s[j]) by {
        if j > i {
            assert((generated_leq())(s[i], s[j]));
            assert(!generated_key_eq(s[j], line, column));
        }
    }
    lemma_lower_bound_index(s, p, i);
}

/// Bias behaviour below the first record: a query for a generated
/// location strictly before the first record returns nothing with
/// `GreatestLowerBound` and the first record with `LeastUpperBound`.
pub proof fn lemma_bias_at_lower_boundary(s: Seq<Mapping>, line: u32, column: u32)
    requires
        sorted_by(s, generated_leq()),
        s.len() > 0,
        !generated_key_lt(s[0], line, column),
        !generated_key_eq(s[0], line, column),
    ensures
        original_location_for_spec(s, line, column, Bias::GreatestLowerBound) is None,
        original_location_for_spec(s, line, column, Bias::LeastUpperBound) == Some(s[0]),
{
    let p = generated_key_pred(line, column);
    assert forall|j: int| 0 <= j < s.len() implies !p(#[trigger] s[j]) by {
        if j > 0 {
            assert((generated_leq())(s[0], s[j]));
        }
    }
    lemma_lower_bound_index(s, p, 0);
}

/// On an empty index every point query returns nothing.
pub proof fn lemma_query_empty(line: u32, column: u32, bias: Bias)
    ensures
        original_location_for_spec(Seq::empty(), line, column, bias) is None,
{
}

/// Every record of a fuzzy run agrees with the anchor it was taken for.
proof fn lemma_take_matching_members(
    s: Seq<Mapping>,
    j: int,
    source: u32,
    line: u32,
    column: Option<u32>,
)
    ensures
        forall|k: int|
            0 <= k < take_matching(s, j, source, line, column).len() ==> matches_anchor(
                #[trigger] take_matching(s, j, source, line, column)[k],
                source,
                line,
                column,
            ),
    decreases s.len() - j,
{
    if j < 0 || j >= s.len() {
    } else if matches_anchor(s[j], source, line, column) {
        lemma_take_matching_members(s, j + 1, source, line, column);
        let run = take_matching(s, j, source, line, column);
        let rest = take_matching(s, j + 1, source, line, column);
        assert forall|k: int| 0 <= k < run.len() implies matches_anchor(
            #[trigger] run[k],
            source,
            line,
            column,
        ) by {
            if k == 0 {
                assert(run[0] == s[j]);
            } else {
                assert(run[k] == rest[k - 1]);
            }
        }
    } else {
    }
}

/// Fuzzy containment: every record of a fuzzy query's result carries the
/// queried source; all of them sit on one original line; and when a
/// column was queried, they all sit on the queried line and share one
/// column.
pub proof fn lemma_fuzzy_containment(
    s: Seq<Mapping>,
    source: u32,
    original_line: u32,
    original_column: Option<u32>,
)
    ensures
        ({
            let r = all_generated_locations_for_spec(s, source, original_line, original_column);
            &&& forall|k: int|
                0 <= k < r.len() ==> ((#[trigger] r[k]).original matches Some(o) && o.source
                    == source)
            &&& forall|k: int, l: int|
                0 <= k < r.len() && 0 <= l < r.len() ==> (#[trigger] r[k]).original.unwrap().original_line
                    == (#[trigger] r[l]).original.unwrap().original_line
            &&& (original_column is Some ==> forall|k: int|
                0 <= k < r.len() ==> (#[trigger] r[k]).original.unwrap().original_line
                    == original_line)
        }),
{
    let query_column = match original_column {
        Some(c) => c,
        None => 0u32,
    };
    let i = lower_bound_index(s, original_key_pred(source, original_line, query_column));
    if i < s.len() {
        let anchor = s[i].original;
        let line = match original_column {
            Some(_) => original_line,
            None => anchor.unwrap().original_line,
        };
        let column = match original_column {
            Some(_) => Some(anchor.unwrap().original_column),
            None => None,
        };
        lemma_take_matching_members(s, i, source, line, column);
    }
}

/// The records of `s` whose original key is strictly before the queried
/// key form a prefix when `s` is sorted by original location, and the
/// lower bound index is the length of that prefix.
proof fn lemma_lower_bound_split_original(s: Seq<Mapping>, source: u32, line: u32, column: u32)
    requires
        sorted_by(s, original_leq()),
    ensures
        ({
            let i = lower_bound_index(s, original_key_pred(source, line, column));
            &&& 0 <= i <= s.len()
            &&& forall|j: int|
                0 <= j < i ==> original_key_lt(#[trigger] s[j], source, line, column)
            &&& forall|j: int|
                i <= j < s.len() ==> !original_key_lt(#[trigger] s[j], source, line, column)
        }),
    decreases s.len(),
{
    let p = original_key_pred(source, line, column);
    if s.len() == 0 {
    } else if p(s[0]) {
        let rest = s.drop_first();
        assert forall|x: int, y: int| 0 <= x < y < rest.len() implies #[trigger] (original_leq())(
            rest[x],
            rest[y],
        ) by {
            assert(rest[x] == s[x + 1]);
            assert(rest[y] == s[y + 1]);
            assert((original_leq())(s[x + 1], s[y + 1]));
        }
        lemma_lower_bound_split_original(rest, source, line, column);
        let i = lower_bound_index(s, p);
        assert(i == 1 + lower_bound_index(rest, p));
        assert forall|j: int| 0 <= j < i implies original_key_lt(
            #[trigger] s[j],
            source,
            line,
            column,
        ) by {
            if j > 0 {
                assert(rest[j - 1] == s[j]);
            }
        }
        assert forall|j: int| i <= j < s.len() implies !original_key_lt(
            #[trigger] s[j],
            source,
            line,
            column,
        ) by {
            assert(rest[j - 1] == s[j]);
        }
    } else {
        assert forall|j: int| 0 <= j < s.len() implies !original_key_lt(
            #[trigger] s[j],
            source,
            line,
            column,
        ) by {
            if j > 0 {
                assert((original_leq())(s[0], s[j]));
            }
        }
    }
}

/// Fuzzy whole-line exactness: when some record sits on the queried
/// `(source, line)`, every record of the column-less fuzzy run for that
/// query carries exactly that source and line, and the run is not empty.
pub proof fn lemma_fuzzy_line_exact(s: Seq<Mapping>, source: u32, original_line: u32)
    requires
        sorted_by(s, original_leq()),
        forall|k: int| 0 <= k < s.len() ==> (#[trigger] s[k]).original is Some,
        exists|j: int|
            0 <= j < s.len() && (#[trigger] s[j]).original.unwrap().source == source
                && s[j].original.unwrap().original_line == original_line,
    ensures
        ({
            let r = all_generated_locations_for_spec(s, source, original_line, None);
            &&& r.len() > 0
            &&& forall|k: int|
                0 <= k < r.len() ==> ((#[trigger] r[k]).original matches Some(o) && o.source
                    == source && o.original_line == original_line)
        }),
{
    let j = choose|j: int|
        0 <= j < s.len() && (#[trigger] s[j]).original.unwrap().source == source
            && s[j].original.unwrap().original_line == original_line;
    lemma_lower_bound_split_original(s, source, original_line, 0u32);
    let i = lower_bound_index(s, original_key_pred(source, original_line, 0u32));
    assert(!original_key_lt(s[j], source, original_line, 0u32));
    assert(i <= j);
    if i < j {
        assert((original_leq())(s[i], s[j]));
    }
    assert(s[i].original.unwrap().source == source && s[i].original.unwrap().original_line
        == original_line);
    let anchor = s[i].original;
    lemma_take_matching_members(s, i, source, anchor.unwrap().original_line, None);
    assert(matches_anchor(s[i], source, anchor.unwrap().original_line, None));
    assert(take_matching(s, i, source, anchor.unwrap().original_line, None)[0] == s[i]);
}

/// Fuzzy exactness: when a record with exactly the queried
/// `(source, line, column)` exists, every record of the fuzzy run for
/// that query matches it exactly, and the run is not empty.
pub proof fn lemma_fuzzy_exact_column(s: Seq<Mapping>, source: u32, original_line: u32, c: u32)
    requires
        sorted_by(s, original_leq()),
        forall|k: int| 0 <= k < s.len() ==> (#[trigger] s[k]).original is Some,
        exists|j: int| 0 <= j < s.len() && original_key_eq(#[trigger] s[j], source, original_line, c),
    ensures
        ({
            let r = all_generated_locations_for_spec(s, source, original_line, Some(c));
            &&& r.len() > 0
            &&& forall|k: int|
                0 <= k < r.len() ==> ((#[trigger] r[k]).original matches Some(o) && o.source
                    == source && o.original_line == original_line && o.original_column == c)
        }),
{
    let j = choose|j: int|
        0 <= j < s.len() && original_key_eq(#[trigger] s[j], source, original_line, c);
    lemma_lower_bound_split_original(s, source, original_line, c);
    let i = lower_bound_index(s, original_key_pred(source, original_line, c));
    assert(!original_key_lt(s[j], source, original_line, c));
    assert(i <= j);
    if i < j {
        assert((original_leq())(s[i], s[j]));
    }
    assert(original_key_eq(s[i], source, original_line, c));
    let anchor = s[i].original;
    lemma_take_matching_members(s, i, source, original_line, Some(anchor.unwrap().original_column));
    let r = all_generated_locations_for_spec(s, source, original_line, Some(c));
    assert(matches_anchor(s[i], source, original_line, Some(anchor.unwrap().original_column)));
    assert(take_matching(s, i, source, original_line, Some(anchor.unwrap().original_column))[0]
        == s[i]);
}

} // verus!
