//! Parse the `"mappings"` string of a source map and answer bidirectional
//! position queries over the parsed records.
//!
//! The mappings string is a `;`/`,`-separated stream of base64 VLQ deltas.
//! Parsing accumulates the deltas into absolute positions, the records are
//! sorted by generated location, and the resulting index answers point
//! queries (with a bias toward the next-smaller or next-larger record) as
//! well as fuzzy range queries, in both directions.

use vstd::prelude::*;
use vstd::relations::sorted_by;
use vstd::seq_lib::group_to_multiset_ensures;

pub mod codec;
pub mod comparators;
pub mod laws;
pub mod parse;
pub mod sort;

pub use parse::parse_mappings;

use comparators::{
    generated_leq, lemma_generated_total_ordering, lemma_original_total_ordering, original_leq,
    ByOriginalLocation,
};
use sort::quick_sort;

verus! {

/// Errors that can occur during parsing.
#[derive(Copy, Clone, Debug, PartialEq, Eq, Structural)]
pub enum Error {
    /// An accumulated field became negative.
    UnexpectedNegativeNumber,
    /// An accumulated field exceeded the unsigned 32-bit range.
    UnexpectedlyBigNumber,
    /// The input ended in the middle of an encoded integer.
    VlqUnexpectedEof,
    /// An encoded integer contained a byte that is not a base64 digit.
    VlqInvalidBase64,
    /// An encoded integer does not fit in a signed 64-bit value.
    VlqOverflow,
}

/// When a queried location has no exact match, whether to slide to the
/// next smaller or the next larger mapping.
#[derive(Copy, Clone, Debug, PartialEq, Eq, Structural)]
pub enum Bias {
    /// Slide to the next smaller mapping.
    GreatestLowerBound,
    /// Slide to the next larger mapping.
    LeastUpperBound,
}

impl Default for Bias {
    fn default() -> (r: Bias)
        ensures
            r == Bias::GreatestLowerBound,
    {
        Bias::GreatestLowerBound
    }
}

/// Turn a one-word bias discriminant from the foreign boundary into a
/// `Bias`: `1` is `GreatestLowerBound` and `2` is `LeastUpperBound`. Any
/// other word is a boundary contract violation, which the caller must
/// treat as fatal before calling.
pub fn byte_to_bias(bias: u8) -> (r: Bias)
    requires
        bias == 1 || bias == 2,
    ensures
        r == (if bias == 1 {
            Bias::GreatestLowerBound
        } else {
            Bias::LeastUpperBound
        }),
{
    if bias == 1 {
        Bias::GreatestLowerBound
    } else {
        Bias::LeastUpperBound
    }
}

/// Original location information within a mapping: a source index, a line,
/// a column, and possibly a name index. The indices point into tables owned
/// by the caller.
#[derive(Copy, Clone, Debug, PartialEq, Eq)]
pub struct OriginalLocation {
    /// The source filename index.
    pub source: u32,
    /// The original line.
    pub original_line: u32,
    /// The original column.
    pub original_column: u32,
    /// The associated name index, if any.
    pub name: Option<u32>,
}

/// A single bidirectional mapping.
///
/// Always carries a generated location; might carry an original location.
#[derive(Copy, Clone, Debug, PartialEq, Eq)]
pub struct Mapping {
    /// The generated line.
    pub generated_line: u32,
    /// The generated column.
    pub generated_column: u32,
    /// The end column (exclusive) of this mapping's span on its generated
    /// line. Until spans are derived this is always `None`; after
    /// derivation, `None` means the mapping spans to the end of the line.
    pub last_generated_column: Option<u32>,
    /// The original location information, if any.
    pub original: Option<OriginalLocation>,
}

impl Default for Mapping {
    fn default() -> (r: Mapping)
        ensures
            r == (Mapping {
                generated_line: 0,
                generated_column: 0,
                last_generated_column: None,
                original: None,
            }),
    {
        Mapping {
            generated_line: 0,
            generated_column: 0,
            last_generated_column: None,
            original: None,
        }
    }
}

/// Flatten a mapping into the `(has_x, x)` pairs that the foreign
/// boundary reports through its callback: the generated location, the
/// optional span end, the optional original location, and the optional
/// name, each optional value paired with a flag and `0` standing in for
/// an absent one.
pub fn mapping_to_parts(mapping: &Mapping) -> (r: (
    u32,
    u32,
    bool,
    u32,
    bool,
    u32,
    u32,
    u32,
    bool,
    u32,
))
    ensures
        r.0 == mapping.generated_line,
        r.1 == mapping.generated_column,
        r.2 == (mapping.last_generated_column is Some),
        r.3 == (match mapping.last_generated_column {
            Some(c) => c,
            None => 0u32,
        }),
        r.4 == (mapping.original is Some),
        r.5 == (match mapping.original {
            Some(o) => o.source,
            None => 0u32,
        }),
        r.6 == (match mapping.original {
            Some(o) => o.original_line,
            None => 0u32,
        }),
        r.7 == (match mapping.original {
            Some(o) => o.original_column,
            None => 0u32,
        }),
        r.8 == (match mapping.original {
            Some(o) => o.name is Some,
            None => false,
        }),
        r.9 == (match mapping.original {
            Some(o) => match o.name {
                Some(n) => n,
                None => 0u32,
            },
            None => 0u32,
        }),
{
    let generated_line = mapping.generated_line;
    let generated_column = mapping.generated_column;

    let (has_last_generated_column, last_generated_column) = match mapping.last_generated_column {
        Some(last) => (true, last),
        None => (false, 0),
    };

    let (has_original_info, source, original_line, original_column, has_name, name) =
        match &mapping.original {
        Some(original) => {
            let (has_name, name) = match original.name {
                Some(name) => (true, name),
                None => (false, 0),
            };
            (true, original.source, original.original_line, original.original_column, has_name, name)
        },
        None => (false, 0, 0, 0, false, 0),
    };

    (
        generated_line,
        generated_column,
        has_last_generated_column,
        last_generated_column,
        has_original_info,
        source,
        original_line,
        original_column,
        has_name,
        name,
    )
}

/// Whether a mapping carries original location information.
pub open spec fn has_original() -> spec_fn(Mapping) -> bool {
    |m: Mapping| m.original is Some
}

/// True while no column span has been derived: every record's
/// `last_generated_column` is still absent.
pub open spec fn spans_unset(s: Seq<Mapping>) -> bool {
    forall|i: int| 0 <= i < s.len() ==> #[trigger] s[i].last_generated_column is None
}

/// The span that column-span derivation gives record `i` of the
/// by-generated sequence `s`: the next record's generated column when the
/// next record is on the same generated line, absent otherwise.
pub open spec fn expected_span(s: Seq<Mapping>, i: int) -> Option<u32> {
    if i + 1 < s.len() && s[i + 1].generated_line == s[i].generated_line {
        Some(s[i + 1].generated_column)
    } else {
        None
    }
}

/// The by-generated sequence after column-span derivation: each record
/// keeps its fields, with `last_generated_column` set to its derived span.
pub open spec fn with_spans(s: Seq<Mapping>) -> Seq<Mapping> {
    Seq::new(
        s.len(),
        |i: int|
            Mapping {
                generated_line: s[i].generated_line,
                generated_column: s[i].generated_column,
                last_generated_column: expected_span(s, i),
                original: s[i].original,
            },
    )
}

/// True when every record of `s` carries exactly its derived span.
pub open spec fn spans_exact(s: Seq<Mapping>) -> bool {
    forall|i: int| 0 <= i < s.len() ==> #[trigger] s[i].last_generated_column == expected_span(s, i)
}

/// The by-original view of a by-generated sequence: the records that carry
/// original location information, sorted under the by-original order.
pub open spec fn by_original_of(s: Seq<Mapping>) -> Seq<Mapping> {
    s.filter(has_original()).sort_by(original_leq())
}

/// A parsed set of mappings that can be queried.
///
/// Constructed via `parse_mappings`.
#[derive(Debug)]
pub struct Mappings {
    by_generated: Vec<Mapping>,
    by_original: Option<Vec<Mapping>>,
    computed_column_spans: bool,
}

impl Mappings {
    /// The records ordered by generated location.
    pub closed spec fn by_generated_seq(self) -> Seq<Mapping> {
        self.by_generated@
    }

    /// The cached by-original view, if it has been derived.
    pub closed spec fn by_original_seq(self) -> Option<Seq<Mapping>> {
        match self.by_original {
            Some(v) => Some(v@),
            None => None,
        }
    }

    /// Whether column spans have been derived.
    pub closed spec fn spans_computed(self) -> bool {
        self.computed_column_spans
    }

    /// The index's invariant: the by-generated sequence is always sorted
    /// under the by-generated order; spans are all absent until derived and
    /// exact afterwards; the by-original view, once cached, is exactly the
    /// records with original information sorted under the by-original order,
    /// and is derived only after spans are.
    pub open spec fn wf(self) -> bool {
        &&& sorted_by(self.by_generated_seq(), generated_leq())
        &&& (!self.spans_computed() ==> spans_unset(self.by_generated_seq()))
        &&& (self.spans_computed() ==> spans_exact(self.by_generated_seq()))
        &&& match self.by_original_seq() {
            None => true,
            Some(s) => self.spans_computed() && s == by_original_of(self.by_generated_seq()),
        }
    }

    /// Build an index from an already-sorted record sequence whose spans
    /// have not been derived. Only the parser uses this.
    pub(crate) fn from_sorted(by_generated: Vec<Mapping>) -> (r: Mappings)
        requires
            sorted_by(by_generated@, generated_leq()),
            spans_unset(by_generated@),
        ensures
            r.by_generated_seq() == by_generated@,
            r.by_original_seq() is None,
            !r.spans_computed(),
            r.wf(),
    {
        Mappings { by_generated, by_original: None, computed_column_spans: false }
    }

    /// Get the full set of mappings, ordered by generated location.
    pub fn by_generated_location(&self) -> (r: &Vec<Mapping>)
        ensures
            r@ == self.by_generated_seq(),
    {
        &self.by_generated
    }

    /// Compute the last generated column of each mapping: a single pass
    /// over the by-generated order gives every record whose successor sits
    /// on the same generated line that successor's column as its span end.
    /// A record whose span is still absent afterwards spans to the end of
    /// its line. Idempotent: deriving twice changes nothing.
    pub fn compute_column_spans(&mut self)
        requires
            old(self).wf(),
        ensures
            final(self).wf(),
            final(self).spans_computed(),
            final(self).by_generated_seq() == with_spans(old(self).by_generated_seq()),
            final(self).by_original_seq() == old(self).by_original_seq(),
            old(self).spans_computed() ==> *final(self) == *old(self),
    {
        if self.computed_column_spans {
            proof {
                lemma_with_spans_exact(self.by_generated@);
            }
            return;
        }
        let ghost s0 = self.by_generated@;
        let ghost orig_cache = self.by_original;
        let n = self.by_generated.len();
        let mut i: usize = 0;
        while i < n
            invariant
                i <= n,
                n == self.by_generated@.len(),
                s0.len() == n,
                self.by_original == orig_cache,
                self.computed_column_spans == false,
                forall|k: int| 0 <= k < i ==> #[trigger] self.by_generated@[k] == with_spans(s0)[k],
                forall|k: int| i <= k < n ==> #[trigger] self.by_generated@[k] == s0[k],
                spans_unset(s0),
            decreases n - i,
        {
            if i + 1 < n {
                let next = self.by_generated[i + 1];
                let cur = self.by_generated[i];
                if cur.generated_line == next.generated_line {
                    self.by_generated[i] = Mapping {
                        generated_line: cur.generated_line,
                        generated_column: cur.generated_column,
                        last_generated_column: Some(next.generated_column),
                        original: cur.original,
                    };
                }
            }
            proof {
                lemma_with_spans_shape(s0);
                assert(s0[i as int].last_generated_column is None);
                assert(self.by_generated@[i as int] == with_spans(s0)[i as int]);
            }
            i = i + 1;
        }
        self.computed_column_spans = true;
        proof {
            assert(self.by_generated@ =~= with_spans(s0));
            lemma_with_spans_sorted(s0);
            assert(spans_exact(with_spans(s0))) by {
                lemma_with_spans_shape(s0);
            }
        }
    }

    /// Get the set of mappings that have original location information,
    /// ordered by original location. The view is derived once, after
    /// column spans, and cached; a second call returns the cache
    /// unchanged.
    pub fn by_original_location(&mut self) -> (r: &Vec<Mapping>)
        requires
            old(self).wf(),
        ensures
            final(self).wf(),
            final(self).spans_computed(),
            final(self).by_generated_seq() == with_spans(old(self).by_generated_seq()),
            final(self).by_original_seq() == Some(
                by_original_of(final(self).by_generated_seq()),
            ),
            old(self).by_original_seq() is Some ==> *final(self) == *old(self),
            r@ == by_original_of(final(self).by_generated_seq()),
    {
        if self.by_original.is_some() {
            proof {
                lemma_with_spans_exact(self.by_generated@);
            }
            return self.by_original.as_ref().unwrap();
        }
        self.compute_column_spans();
        let ghost snapshot = *self;
        let mut filtered: Vec<Mapping> = Vec::new();
        let n = self.by_generated.len();
        let mut i: usize = 0;
        proof {
            reveal(Seq::filter);
        }
        while i < n
            invariant
                i <= n,
                *self == snapshot,
                n == self.by_generated@.len(),
                filtered@ == self.by_generated@.subrange(0, i as int).filter(has_original()),
            decreases n - i,
        {
            let m = self.by_generated[i];
            proof {
                reveal(Seq::filter);
                let prefix = self.by_generated@.subrange(0, i as int + 1);
                assert(prefix.drop_last() =~= self.by_generated@.subrange(0, i as int));
                assert(prefix.last() == self.by_generated@[i as int]);
            }
            if m.original.is_some() {
                filtered.push(m);
            }
            i = i + 1;
        }
        proof {
            assert(self.by_generated@.subrange(0, n as int) =~= self.by_generated@);
            lemma_original_total_ordering();
        }
        quick_sort::<ByOriginalLocation>(&mut filtered);
        self.by_original = Some(filtered);
        self.by_original.as_ref().unwrap()
    }
}

/// Whether the generated location of `m` is strictly before the queried
/// `(line, column)`.
pub open spec fn generated_key_lt(m: Mapping, line: u32, column: u32) -> bool {
    m.generated_line < line || (m.generated_line == line && m.generated_column < column)
}

/// Whether the generated location of `m` is exactly the queried
/// `(line, column)`.
pub open spec fn generated_key_eq(m: Mapping, line: u32, column: u32) -> bool {
    m.generated_line == line && m.generated_column == column
}

/// The by-generated query key as a predicate over records.
pub open spec fn generated_key_pred(line: u32, column: u32) -> spec_fn(Mapping) -> bool {
    |m: Mapping| generated_key_lt(m, line, column)
}

/// Whether the original location of `m` is strictly before the queried
/// `(source, line, column)`. A record without original information never
/// is: such records sort after every record that has one.
pub open spec fn original_key_lt(m: Mapping, source: u32, line: u32, column: u32) -> bool {
    match m.original {
        Some(o) => o.source < source || (o.source == source && (o.original_line < line || (
        o.original_line == line && o.original_column < column))),
        None => false,
    }
}

/// Whether the original location of `m` is exactly the queried
/// `(source, line, column)`.
pub open spec fn original_key_eq(m: Mapping, source: u32, line: u32, column: u32) -> bool {
    match m.original {
        Some(o) => o.source == source && o.original_line == line && o.original_column == column,
        None => false,
    }
}

/// The by-original query key as a predicate over records.
pub open spec fn original_key_pred(source: u32, line: u32, column: u32) -> spec_fn(Mapping) -> bool {
    |m: Mapping| original_key_lt(m, source, line, column)
}

/// The number of leading records of `s` satisfying `p`: when the records
/// satisfying `p` form a prefix of `s`, this is the least index at or
/// after which `p` no longer holds.
pub open spec fn lower_bound_index(s: Seq<Mapping>, p: spec_fn(Mapping) -> bool) -> int
    decreases s.len(),
{
    if s.len() == 0 {
        0
    } else if p(s[0]) {
        1 + lower_bound_index(s.drop_first(), p)
    } else {
        0
    }
}

/// An index that splits `s` into a prefix satisfying `p` and a suffix
/// refuting it is the lower bound index.
pub proof fn lemma_lower_bound_index(s: Seq<Mapping>, p: spec_fn(Mapping) -> bool, i: int)
    requires
        0 <= i <= s.len(),
        forall|j: int| 0 <= j < i ==> p(#[trigger] s[j]),
        forall|j: int| i <= j < s.len() ==> !p(#[trigger] s[j]),
    ensures
        lower_bound_index(s, p) == i,
    decreases s.len(),
{
    if s.len() == 0 {
    } else if i == 0 {
    } else {
        let rest = s.drop_first();
        assert forall|j: int| 0 <= j < i - 1 implies p(#[trigger] rest[j]) by {
            assert(rest[j] == s[j + 1]);
        }
        assert forall|j: int| i - 1 <= j < rest.len() implies !p(#[trigger] rest[j]) by {
            assert(rest[j] == s[j + 1]);
        }
        lemma_lower_bound_index(rest, p, i - 1);
    }
}

/// The answer to `original_location_for` on the by-generated sequence
/// `s`: the first record with the exact queried generated location if one
/// exists; otherwise the record on the biased side of the insertion
/// point, or nothing when the bias points past the sequence.
pub open spec fn original_location_for_spec(
    s: Seq<Mapping>,
    generated_line: u32,
    generated_column: u32,
    bias: Bias,
) -> Option<Mapping> {
    let i = lower_bound_index(s, generated_key_pred(generated_line, generated_column));
    if i < s.len() && generated_key_eq(s[i], generated_line, generated_column) {
        Some(s[i])
    } else {
        match bias {
            Bias::LeastUpperBound => if i < s.len() {
                Some(s[i])
            } else {
                None
            },
            Bias::GreatestLowerBound => if i > 0 {
                Some(s[i - 1])
            } else {
                None
            },
        }
    }
}

/// The answer to `generated_location_for` on the by-original sequence
/// `s`, under the same exact-match-or-bias rule as
/// `original_location_for_spec`.
pub open spec fn generated_location_for_spec(
    s: Seq<Mapping>,
    source: u32,
    original_line: u32,
    original_column: u32,
    bias: Bias,
) -> Option<Mapping> {
    let i = lower_bound_index(s, original_key_pred(source, original_line, original_column));
    if i < s.len() && original_key_eq(s[i], source, original_line, original_column) {
        Some(s[i])
    } else {
        match bias {
            Bias::LeastUpperBound => if i < s.len() {
                Some(s[i])
            } else {
                None
            },
            Bias::GreatestLowerBound => if i > 0 {
                Some(s[i - 1])
            } else {
                None
            },
        }
    }
}

/// Whether a record agrees with the anchor of a fuzzy query: the source
/// and line exactly, and the column too when one is requested.
pub open spec fn matches_anchor(m: Mapping, source: u32, line: u32, column: Option<u32>) -> bool {
    match m.original {
        Some(o) => o.source == source && o.original_line == line && (match column {
            Some(c) => o.original_column == c,
            None => true,
        }),
        None => false,
    }
}

/// The run of consecutive records of `s` from `j` on that agree with the
/// anchor; the run stops at the first record that does not.
pub open spec fn take_matching(
    s: Seq<Mapping>,
    j: int,
    source: u32,
    line: u32,
    column: Option<u32>,
) -> Seq<Mapping>
    decreases s.len() - j,
{
    if j < 0 || j >= s.len() {
        Seq::empty()
    } else if matches_anchor(s[j], source, line, column) {
        seq![s[j]] + take_matching(s, j + 1, source, line, column)
    } else {
        Seq::empty()
    }
}

/// The answer to `all_generated_locations_for` on the by-original
/// sequence `s`: search for `(source, line, column-or-zero)`, anchor at
/// the record found (re-anchoring the line to it when no column was
/// requested, and the column to it when one was), and emit the run of
/// records agreeing with the anchor.
pub open spec fn all_generated_locations_for_spec(
    s: Seq<Mapping>,
    source: u32,
    original_line: u32,
    original_column: Option<u32>,
) -> Seq<Mapping> {
    let query_column = match original_column {
        Some(c) => c,
        None => 0u32,
    };
    let i = lower_bound_index(s, original_key_pred(source, original_line, query_column));
    if i < s.len() {
        let anchor = s[i].original;
        let line = match original_column {
            Some(_) => original_line,
            None => anchor.unwrap().original_line,
        };
        let column = match original_column {
            Some(_) => Some(anchor.unwrap().original_column),
            None => None,
        };
        take_matching(s, i, source, line, column)
    } else {
        Seq::empty()
    }
}

/// The derived sequence keeps every field except the span, which becomes
/// the derived one.
proof fn lemma_with_spans_shape(s: Seq<Mapping>)
    ensures
        with_spans(s).len() == s.len(),
        forall|i: int|
            0 <= i < s.len() ==> (#[trigger] with_spans(s)[i]) == (Mapping {
                generated_line: s[i].generated_line,
                generated_column: s[i].generated_column,
                last_generated_column: expected_span(s, i),
                original: s[i].original,
            }),
        spans_exact(with_spans(s)),
{
    let t = with_spans(s);
    assert forall|i: int| 0 <= i < t.len() implies #[trigger] t[i].last_generated_column
        == expected_span(t, i) by {
        assert(t[i].last_generated_column == expected_span(s, i));
        if i + 1 < t.len() {
            assert(t[i + 1].generated_line == s[i + 1].generated_line);
            assert(t[i + 1].generated_column == s[i + 1].generated_column);
        }
    }
}

/// Once every record carries exactly its derived span, deriving again
/// changes nothing.
pub proof fn lemma_with_spans_exact(s: Seq<Mapping>)
    requires
        spans_exact(s),
    ensures
        with_spans(s) == s,
{
    lemma_with_spans_shape(s);
    assert forall|i: int| 0 <= i < s.len() implies with_spans(s)[i] == s[i] by {
        assert(s[i].last_generated_column == expected_span(s, i));
    }
    assert(with_spans(s) =~= s);
}

/// Span derivation keeps the by-generated sequence sorted: the derived
/// spans of records that agree on every other compared field are
/// themselves in ascending rank.
proof fn lemma_with_spans_sorted(s: Seq<Mapping>)
    requires
        sorted_by(s, generated_leq()),
        spans_unset(s),
    ensures
        sorted_by(with_spans(s), generated_leq()),
{
    lemma_generated_total_ordering();
    lemma_with_spans_shape(s);
    let t = with_spans(s);
    assert forall|i: int, j: int| 0 <= i < j < t.len() implies #[trigger] (generated_leq())(
        t[i],
        t[j],
    ) by {
        assert((generated_leq())(s[i], s[j]));
        if s[i] == s[j] {
            assert((generated_leq())(s[i], s[i + 1]));
            assert((generated_leq())(s[i + 1], s[j]));
            assert(s[i + 1] == s[i]);
            assert(t[i].last_generated_column == Some(s[i].generated_column));
            if j + 1 < s.len() && s[j + 1].generated_line == s[j].generated_line {
                assert((generated_leq())(s[j], s[j + 1]));
                assert(s[j + 1].generated_column >= s[j].generated_column);
            }
        }
    }
}

/// The by-original view of `s` is sorted under the by-original order and
/// holds the records of `s` that carry original information.
pub proof fn lemma_by_original_of_sorted(s: Seq<Mapping>)
    ensures
        sorted_by(by_original_of(s), original_leq()),
        by_original_of(s).to_multiset() == s.filter(has_original()).to_multiset(),
{
    lemma_original_total_ordering();
    s.filter(has_original()).lemma_sort_by_ensures(original_leq());
}

/// Every record of the by-original view carries original information.
pub proof fn lemma_by_original_all_original(s: Seq<Mapping>)
    ensures
        forall|i: int|
            0 <= i < by_original_of(s).len() ==> (#[trigger] by_original_of(s)[i]).original
                is Some,
{
    broadcast use group_to_multiset_ensures;

    let f = s.filter(has_original());
    let t = by_original_of(s);
    lemma_by_original_of_sorted(s);
    assert forall|i: int| 0 <= i < t.len() implies (#[trigger] t[i]).original is Some by {
        assert(t.contains(t[i]));
        assert(t.to_multiset().count(t[i]) > 0);
        assert(f.contains(t[i]));
        let j = choose|j: int| 0 <= j < f.len() && #[trigger] f[j] == t[i];
        s.lemma_filter_pred(has_original(), j);
        assert(has_original()(f[j]));
    }
}

/// Find the least index of `v` from which on the generated locations are
/// at or past the queried `(line, column)`.
fn lower_bound_generated(v: &Vec<Mapping>, line: u32, column: u32) -> (i: usize)
    requires
        sorted_by(v@, generated_leq()),
    ensures
        i <= v@.len(),
        forall|j: int| 0 <= j < i ==> generated_key_lt(#[trigger] v@[j], line, column),
        forall|j: int| i <= j < v@.len() ==> !generated_key_lt(#[trigger] v@[j], line, column),
{
    let mut lo: usize = 0;
    let mut hi: usize = v.len();
    while lo < hi
        invariant
            lo <= hi <= v@.len(),
            sorted_by(v@, generated_leq()),
            forall|j: int| 0 <= j < lo ==> generated_key_lt(#[trigger] v@[j], line, column),
            forall|j: int| hi <= j < v@.len() ==> !generated_key_lt(#[trigger] v@[j], line, column),
        decreases hi - lo,
    {
        let mid = lo + (hi - lo) / 2;
        let m = v[mid];
        if m.generated_line < line || (m.generated_line == line && m.generated_column < column) {
            proof {
                assert forall|j: int| 0 <= j < mid + 1 implies generated_key_lt(
                    #[trigger] v@[j],
                    line,
                    column,
                ) by {
                    if j < mid {
                        assert((generated_leq())(v@[j], v@[mid as int]));
                    }
                }
            }
            lo = mid + 1;
        } else {
            proof {
                assert forall|j: int| mid <= j < v@.len() implies !generated_key_lt(
                    #[trigger] v@[j],
                    line,
                    column,
                ) by {
                    if j > mid {
                        assert((generated_leq())(v@[mid as int], v@[j]));
                    }
                }
            }
            hi = mid;
        }
    }
    lo
}

/// Find the least index of `v` from which on the original locations are
/// at or past the queried `(source, line, column)`.
fn lower_bound_original(v: &Vec<Mapping>, source: u32, line: u32, column: u32) -> (i: usize)
    requires
        sorted_by(v@, original_leq()),
    ensures
        i <= v@.len(),
        forall|j: int| 0 <= j < i ==> original_key_lt(#[trigger] v@[j], source, line, column),
        forall|j: int|
            i <= j < v@.len() ==> !original_key_lt(#[trigger] v@[j], source, line, column),
{
    let mut lo: usize = 0;
    let mut hi: usize = v.len();
    while lo < hi
        invariant
            lo <= hi <= v@.len(),
            sorted_by(v@, original_leq()),
            forall|j: int| 0 <= j < lo ==> original_key_lt(#[trigger] v@[j], source, line, column),
            forall|j: int|
                hi <= j < v@.len() ==> !original_key_lt(#[trigger] v@[j], source, line, column),
        decreases hi - lo,
    {
        let mid = lo + (hi - lo) / 2;
        let m = v[mid];
        let before = match &m.original {
            Some(o) => o.source < source || (o.source == source && (o.original_line < line || (
            o.original_line == line && o.original_column < column))),
            None => false,
        };
        if before {
            proof {
                assert forall|j: int| 0 <= j < mid + 1 implies original_key_lt(
                    #[trigger] v@[j],
                    source,
                    line,
                    column,
                ) by {
                    if j < mid {
                        assert((original_leq())(v@[j], v@[mid as int]));
                    }
                }
            }
            lo = mid + 1;
        } else {
            proof {
                assert forall|j: int| mid <= j < v@.len() implies !original_key_lt(
                    #[trigger] v@[j],
                    source,
                    line,
                    column,
                ) by {
                    if j > mid {
                        assert((original_leq())(v@[mid as int], v@[j]));
                    }
                }
            }
            hi = mid;
        }
    }
    lo
}

impl Mappings {
    /// Get the mapping closest to the given generated location, if any
    /// exists: the record at the queried location, or the neighbour the
    /// bias selects.
    pub fn original_location_for(
        &self,
        generated_line: u32,
        generated_column: u32,
        bias: Bias,
    ) -> (r: Option<Mapping>)
        requires
            self.wf(),
        ensures
            r == original_location_for_spec(
                self.by_generated_seq(),
                generated_line,
                generated_column,
                bias,
            ),
    {
        let i = lower_bound_generated(&self.by_generated, generated_line, generated_column);
        proof {
            lemma_lower_bound_index(
                self.by_generated@,
                generated_key_pred(generated_line, generated_column),
                i as int,
            );
        }
        if i < self.by_generated.len() {
            let m = self.by_generated[i];
            if m.generated_line == generated_line && m.generated_column == generated_column {
                return Some(m);
            }
        }
        match bias {
            Bias::LeastUpperBound => if i < self.by_generated.len() {
                Some(self.by_generated[i])
            } else {
                None
            },
            Bias::GreatestLowerBound => if i == 0 {
                None
            } else {
                Some(self.by_generated[i - 1])
            },
        }
    }

    /// Get the mapping closest to the given original location, if any
    /// exists, deriving the by-original view first if needed.
    pub fn generated_location_for(
        &mut self,
        source: u32,
        original_line: u32,
        original_column: u32,
        bias: Bias,
    ) -> (r: Option<Mapping>)
        requires
            old(self).wf(),
        ensures
            final(self).wf(),
            final(self).spans_computed(),
            final(self).by_generated_seq() == with_spans(old(self).by_generated_seq()),
            final(self).by_original_seq() == Some(
                by_original_of(final(self).by_generated_seq()),
            ),
            old(self).by_original_seq() is Some ==> *final(self) == *old(self),
            r == generated_location_for_spec(
                by_original_of(final(self).by_generated_seq()),
                source,
                original_line,
                original_column,
                bias,
            ),
    {
        let by_original = self.by_original_location();
        proof {
            lemma_by_original_of_sorted(with_spans(old(self).by_generated_seq()));
        }
        let i = lower_bound_original(by_original, source, original_line, original_column);
        proof {
            lemma_lower_bound_index(
                by_original@,
                original_key_pred(source, original_line, original_column),
                i as int,
            );
        }
        if i < by_original.len() {
            let m = by_original[i];
            let exact = match &m.original {
                Some(o) => o.source == source && o.original_line == original_line
                    && o.original_column == original_column,
                None => false,
            };
            if exact {
                return Some(m);
            }
        }
        match bias {
            Bias::LeastUpperBound => if i < by_original.len() {
                Some(by_original[i])
            } else {
                None
            },
            Bias::GreatestLowerBound => if i == 0 {
                None
            } else {
                Some(by_original[i - 1])
            },
        }
    }

    /// Get all mappings at the given original location, deriving the
    /// by-original view first if needed.
    ///
    /// If `original_column` is absent, the returned records are those on
    /// the line of the record the search lands on (fuzzy whole-line
    /// matching); if it is present, they are those agreeing with the
    /// found record's column on the queried line.
    pub fn all_generated_locations_for(
        &mut self,
        source: u32,
        original_line: u32,
        original_column: Option<u32>,
    ) -> (r: AllGeneratedLocationsFor)
        requires
            old(self).wf(),
        ensures
            final(self).wf(),
            final(self).spans_computed(),
            final(self).by_generated_seq() == with_spans(old(self).by_generated_seq()),
            final(self).by_original_seq() == Some(
                by_original_of(final(self).by_generated_seq()),
            ),
            old(self).by_original_seq() is Some ==> *final(self) == *old(self),
            r@ == all_generated_locations_for_spec(
                by_original_of(final(self).by_generated_seq()),
                source,
                original_line,
                original_column,
            ),
    {
        let query_column = match original_column {
            Some(c) => c,
            None => 0,
        };
        let by_original = self.by_original_location();
        let ghost s = by_original@;
        proof {
            lemma_by_original_of_sorted(with_spans(old(self).by_generated_seq()));
            lemma_by_original_all_original(with_spans(old(self).by_generated_seq()));
        }
        let i = lower_bound_original(by_original, source, original_line, query_column);
        proof {
            lemma_lower_bound_index(
                s,
                original_key_pred(source, original_line, query_column),
                i as int,
            );
        }
        let mut results: Vec<Mapping> = Vec::new();
        if i < by_original.len() {
            let anchor = by_original[i];
            let anchor_original = anchor.original.unwrap();
            let line = if original_column.is_some() {
                original_line
            } else {
                anchor_original.original_line
            };
            let column = if original_column.is_some() {
                Some(anchor_original.original_column)
            } else {
                None
            };
            let mut j = i;
            let mut running = true;
            while running && j < by_original.len()
                invariant
                    i <= j <= s.len(),
                    s == by_original@,
                    forall|k: int| 0 <= k < s.len() ==> (#[trigger] s[k]).original is Some,
                    running ==> results@ + take_matching(s, j as int, source, line, column)
                        == take_matching(s, i as int, source, line, column),
                    !running ==> results@ == take_matching(s, i as int, source, line, column),
                decreases s.len() - j + (if running { 1int } else { 0int }),
            {
                let m = by_original[j];
                let m_original = m.original.unwrap();
                let matched = m_original.source == source && m_original.original_line == line
                    && (match column {
                    Some(c) => m_original.original_column == c,
                    None => true,
                });
                if matched {
                    let ghost before = results@;
                    results.push(m);
                    proof {
                        assert(take_matching(s, j as int, source, line, column) == seq![s[j as int]]
                            + take_matching(s, j as int + 1, source, line, column));
                        assert(results@ + take_matching(s, j as int + 1, source, line, column)
                            =~= before + take_matching(s, j as int, source, line, column));
                    }
                    j = j + 1;
                } else {
                    proof {
                        assert(take_matching(s, j as int, source, line, column) =~= Seq::empty());
                        assert(results@ + Seq::<Mapping>::empty() =~= results@);
                    }
                    running = false;
                }
            }
            proof {
                if running {
                    assert(take_matching(s, j as int, source, line, column) =~= Seq::empty());
                    assert(results@ + Seq::<Mapping>::empty() =~= results@);
                }
            }
        }
        let r = AllGeneratedLocationsFor { results, next_index: 0 };
        proof {
            assert(r@ =~= r.results@);
        }
        r
    }
}

/// The records that `Mappings::all_generated_locations_for` found, handed
/// out one at a time, in by-original order.
#[derive(Debug)]
pub struct AllGeneratedLocationsFor {
    results: Vec<Mapping>,
    next_index: usize,
}

impl View for AllGeneratedLocationsFor {
    type V = Seq<Mapping>;

    closed spec fn view(&self) -> Seq<Mapping> {
        if self.next_index <= self.results@.len() {
            self.results@.skip(self.next_index as int)
        } else {
            Seq::empty()
        }
    }
}

impl AllGeneratedLocationsFor {
    /// The next record of the result run, if any is left.
    pub fn next(&mut self) -> (r: Option<Mapping>)
        ensures
            old(self)@.len() == 0 ==> r is None && final(self)@ == old(self)@,
            old(self)@.len() > 0 ==> r == Some(old(self)@[0]) && final(self)@ == old(
                self,
            )@.drop_first(),
    {
        if self.next_index < self.results.len() {
            let m = self.results[self.next_index];
            self.next_index = self.next_index + 1;
            proof {
                assert(self@ =~= old(self)@.drop_first());
            }
            Some(m)
        } else {
            None
        }
    }
}

impl Default for Mappings {
    fn default() -> (r: Mappings)
        ensures
            r.by_generated_seq() == Seq::<Mapping>::empty(),
            r.by_original_seq() is None,
            !r.spans_computed(),
            r.wf(),
    {
        let m = Mappings { by_generated: Vec::new(), by_original: None, computed_column_spans: false };
        proof {
            assert(m.by_generated_seq() =~= Seq::<Mapping>::empty());
        }
        m
    }
}

} // verus!
