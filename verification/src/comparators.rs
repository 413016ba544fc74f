//! The two total orders over mapping records.
//!
//! Both orders compare optional components under the rule "a present value
//! sorts before an absent one". Every field takes part in one of the two
//! orders, so each is a genuine total order: two records that compare equal
//! are equal.

use vstd::prelude::*;
use vstd::relations::total_ordering;

use crate::{Mapping, OriginalLocation};
use core::cmp::Ordering;

verus! {

/// Rank of an optional 32-bit value under "present sorts before absent":
/// a present value keeps its numeric value and an absent one sorts after
/// every present value.
pub open spec fn option_rank(o: Option<u32>) -> int {
    match o {
        Some(v) => v as int,
        None => 0x1_0000_0000,
    }
}

/// Strict "present sorts before absent" order on optional 32-bit values.
pub open spec fn option_index_lt(a: Option<u32>, b: Option<u32>) -> bool {
    option_rank(a) < option_rank(b)
}

/// Strict lexicographic order on original locations:
/// `(source, original_line, original_column)`, ties broken by the optional
/// name with present-before-absent.
pub open spec fn original_location_lt(a: OriginalLocation, b: OriginalLocation) -> bool {
    ||| a.source < b.source
    ||| (a.source == b.source && a.original_line < b.original_line)
    ||| (a.source == b.source && a.original_line == b.original_line
        && a.original_column < b.original_column)
    ||| (a.source == b.source && a.original_line == b.original_line
        && a.original_column == b.original_column && option_index_lt(a.name, b.name))
}

/// Strict order on optional original locations: a present value sorts
/// before an absent one, and two present values compare as original
/// locations.
pub open spec fn option_original_lt(a: Option<OriginalLocation>, b: Option<OriginalLocation>) -> bool {
    match (a, b) {
        (Some(x), Some(y)) => original_location_lt(x, y),
        (Some(x), None) => true,
        (None, Some(y)) => false,
        (None, None) => false,
    }
}

/// Strict by-generated order on mappings: `(generated_line,
/// generated_column)`, ties broken by the optional original location
/// (so a mapping with original information sorts before an otherwise
/// identical mapping without), and finally by the optional span column.
pub open spec fn generated_lt(a: Mapping, b: Mapping) -> bool {
    ||| a.generated_line < b.generated_line
    ||| (a.generated_line == b.generated_line && a.generated_column < b.generated_column)
    ||| (a.generated_line == b.generated_line && a.generated_column == b.generated_column
        && option_original_lt(a.original, b.original))
    ||| (a.generated_line == b.generated_line && a.generated_column == b.generated_column
        && a.original == b.original
        && option_index_lt(a.last_generated_column, b.last_generated_column))
}

/// Strict by-original order on mappings: the optional original location
/// first (present before absent), ties broken by `(generated_line,
/// generated_column)` and finally by the optional span column.
pub open spec fn original_order_lt(a: Mapping, b: Mapping) -> bool {
    ||| option_original_lt(a.original, b.original)
    ||| (a.original == b.original && a.generated_line < b.generated_line)
    ||| (a.original == b.original && a.generated_line == b.generated_line
        && a.generated_column < b.generated_column)
    ||| (a.original == b.original && a.generated_line == b.generated_line
        && a.generated_column == b.generated_column
        && option_index_lt(a.last_generated_column, b.last_generated_column))
}

/// The reflexive by-generated order, used to state sortedness.
pub open spec fn generated_leq() -> spec_fn(Mapping, Mapping) -> bool {
    |a: Mapping, b: Mapping| generated_lt(a, b) || a == b
}

/// The reflexive by-original order, used to state sortedness.
pub open spec fn original_leq() -> spec_fn(Mapping, Mapping) -> bool {
    |a: Mapping, b: Mapping| original_order_lt(a, b) || a == b
}

/// The by-generated order is a total order: reflexive, antisymmetric,
/// transitive, and any two records are comparable.
pub proof fn lemma_generated_total_ordering()
    ensures
        total_ordering(generated_leq()),
{
    let leq = generated_leq();
    assert forall|a: Mapping, b: Mapping, c: Mapping| #[trigger] leq(a, b) && #[trigger] leq(b, c)
        implies leq(a, c) by {
        lemma_generated_lt_properties(a, b, c);
    }
    assert forall|a: Mapping, b: Mapping| !(#[trigger] leq(a, b)) implies leq(b, a) by {
        lemma_generated_lt_properties(a, b, b);
    }
    assert forall|a: Mapping, b: Mapping| #[trigger] leq(a, b) && #[trigger] leq(b, a)
        implies a == b by {
        lemma_generated_lt_properties(a, b, b);
    }
}

/// The by-original order is a total order: reflexive, antisymmetric,
/// transitive, and any two records are comparable.
pub proof fn lemma_original_total_ordering()
    ensures
        total_ordering(original_leq()),
{
    let leq = original_leq();
    assert forall|a: Mapping, b: Mapping, c: Mapping| #[trigger] leq(a, b) && #[trigger] leq(b, c)
        implies leq(a, c) by {
        lemma_original_lt_properties(a, b, c);
    }
    assert forall|a: Mapping, b: Mapping| !(#[trigger] leq(a, b)) implies leq(b, a) by {
        lemma_original_lt_properties(a, b, b);
    }
    assert forall|a: Mapping, b: Mapping| #[trigger] leq(a, b) && #[trigger] leq(b, a)
        implies a == b by {
        lemma_original_lt_properties(a, b, b);
    }
}

/// Trichotomy, asymmetry and transitivity of the strict by-generated order.
proof fn lemma_generated_lt_properties(a: Mapping, b: Mapping, c: Mapping)
    ensures
        generated_lt(a, b) || generated_lt(b, a) || a == b,
        !(generated_lt(a, b) && generated_lt(b, a)),
        generated_lt(a, b) && generated_lt(b, c) ==> generated_lt(a, c),
{
    lemma_option_original_lt_properties(a.original, b.original, c.original);
}

/// Trichotomy, asymmetry and transitivity of the strict by-original order.
proof fn lemma_original_lt_properties(a: Mapping, b: Mapping, c: Mapping)
    ensures
        original_order_lt(a, b) || original_order_lt(b, a) || a == b,
        !(original_order_lt(a, b) && original_order_lt(b, a)),
        original_order_lt(a, b) && original_order_lt(b, c) ==> original_order_lt(a, c),
{
    lemma_option_original_lt_properties(a.original, b.original, c.original);
}

/// Trichotomy, asymmetry and transitivity of the order on optional
/// original locations.
proof fn lemma_option_original_lt_properties(
    a: Option<OriginalLocation>,
    b: Option<OriginalLocation>,
    c: Option<OriginalLocation>,
)
    ensures
        option_original_lt(a, b) || option_original_lt(b, a) || a == b,
        !(option_original_lt(a, b) && option_original_lt(b, a)),
        option_original_lt(a, b) && option_original_lt(b, c) ==> option_original_lt(a, c),
{
}

/// Compare two optional 32-bit values under "present sorts before absent".
fn option_index_compare(a: Option<u32>, b: Option<u32>) -> (r: Ordering)
    ensures
        (r == Ordering::Less) == option_index_lt(a, b),
        (r == Ordering::Equal) == (a == b),
        (r == Ordering::Greater) == option_index_lt(b, a),
{
    match (a, b) {
        (Some(x), Some(y)) => {
            if x < y {
                Ordering::Less
            } else if x > y {
                Ordering::Greater
            } else {
                Ordering::Equal
            }
        },
        (Some(_), None) => Ordering::Less,
        (None, Some(_)) => Ordering::Greater,
        (None, None) => Ordering::Equal,
    }
}

/// Compare two optional original locations: present sorts before absent,
/// and two present values compare lexicographically.
fn option_original_compare(a: &Option<OriginalLocation>, b: &Option<OriginalLocation>) -> (r:
    Ordering)
    ensures
        (r == Ordering::Less) == option_original_lt(*a, *b),
        (r == Ordering::Equal) == (*a == *b),
        (r == Ordering::Greater) == option_original_lt(*b, *a),
{
    match (a, b) {
        (Some(x), Some(y)) => {
            if x.source < y.source {
                Ordering::Less
            } else if x.source > y.source {
                Ordering::Greater
            } else if x.original_line < y.original_line {
                Ordering::Less
            } else if x.original_line > y.original_line {
                Ordering::Greater
            } else if x.original_column < y.original_column {
                Ordering::Less
            } else if x.original_column > y.original_column {
                Ordering::Greater
            } else {
                option_index_compare(x.name, y.name)
            }
        },
        (Some(_), None) => Ordering::Less,
        (None, Some(_)) => Ordering::Greater,
        (None, None) => Ordering::Equal,
    }
}

/// A function for comparing mapping records under one of the library's
/// total orders.
pub trait ComparatorFunction {
    /// The reflexive total order that the comparison realises.
    spec fn leq() -> spec_fn(Mapping, Mapping) -> bool;

    /// The order is total: reflexive, antisymmetric, transitive, and any
    /// two records are comparable.
    proof fn lemma_total_ordering()
        ensures
            total_ordering(Self::leq()),
    ;

    /// Three-way comparison under the order.
    fn compare(a: &Mapping, b: &Mapping) -> (r: Ordering)
        ensures
            (r == Ordering::Less) == ((Self::leq())(*a, *b) && *a != *b),
            (r == Ordering::Equal) == (*a == *b),
            (r == Ordering::Greater) == !((Self::leq())(*a, *b)),
    ;
}

/// The by-generated order as a comparator.
#[derive(Debug)]
pub struct ByGeneratedLocation;

/// The by-original order as a comparator.
#[derive(Debug)]
pub struct ByOriginalLocation;

impl ComparatorFunction for ByGeneratedLocation {
    open spec fn leq() -> spec_fn(Mapping, Mapping) -> bool {
        generated_leq()
    }

    proof fn lemma_total_ordering() {
        lemma_generated_total_ordering();
    }

    fn compare(a: &Mapping, b: &Mapping) -> (r: Ordering) {
        proof {
            lemma_generated_lt_properties(*a, *b, *b);
        }
        if a.generated_line < b.generated_line {
            Ordering::Less
        } else if a.generated_line > b.generated_line {
            Ordering::Greater
        } else if a.generated_column < b.generated_column {
            Ordering::Less
        } else if a.generated_column > b.generated_column {
            Ordering::Greater
        } else {
            let inner = option_original_compare(&a.original, &b.original);
            match inner {
                Ordering::Less => Ordering::Less,
                Ordering::Greater => Ordering::Greater,
                Ordering::Equal => option_index_compare(
                    a.last_generated_column,
                    b.last_generated_column,
                ),
            }
        }
    }
}

impl ComparatorFunction for ByOriginalLocation {
    open spec fn leq() -> spec_fn(Mapping, Mapping) -> bool {
        original_leq()
    }

    proof fn lemma_total_ordering() {
        lemma_original_total_ordering();
    }

    fn compare(a: &Mapping, b: &Mapping) -> (r: Ordering) {
        proof {
            lemma_original_lt_properties(*a, *b, *b);
        }
        let inner = option_original_compare(&a.original, &b.original);
        match inner {
            Ordering::Less => Ordering::Less,
            Ordering::Greater => Ordering::Greater,
            Ordering::Equal => {
                if a.generated_line < b.generated_line {
                    Ordering::Less
                } else if a.generated_line > b.generated_line {
                    Ordering::Greater
                } else if a.generated_column < b.generated_column {
                    Ordering::Less
                } else if a.generated_column > b.generated_column {
                    Ordering::Greater
                } else {
                    option_index_compare(a.last_generated_column, b.last_generated_column)
                }
            },
        }
    }
}

} // verus!
