//! A randomized-pivot quick sort over mapping records.
//!
//! The mappings string can come from untrusted sources, so the pivot of
//! each partitioning step is drawn from a small pseudo-random generator
//! rather than taken from a fixed position. The sort is proved to produce
//! exactly the specification-level sort of its input under the chosen
//! comparator's total order.

use vstd::prelude::*;
use vstd::relations::sorted_by;
use vstd::seq_lib::{group_to_multiset_ensures, lemma_multiset_commutative, lemma_sorted_unique};

use crate::Mapping;
use crate::comparators::ComparatorFunction;
use core::cmp::Ordering;

verus! {

/// Declares rand's `SmallRng` so that a pivot generator can be held and
/// threaded through the sort.
#[verifier::external_type_specification]
#[verifier::external_body]
pub struct ExSmallRng(rand::rngs::SmallRng);

/// Relies on `rand::SeedableRng::seed_from_u64` to build a `SmallRng`
/// pivot generator from a fixed seed.
#[verifier::external_body]
fn new_pivot_rng() -> (r: rand::rngs::SmallRng) {
    <rand::rngs::SmallRng as rand::SeedableRng>::seed_from_u64(0)
}

/// Relies on `rand::RngExt::random_range`: on the inclusive range
/// `lo..=hi`, which is non-empty because `lo <= hi`, it returns a value
/// inside the range.
#[verifier::external_body]
fn pivot_index(rng: &mut rand::rngs::SmallRng, lo: usize, hi: usize) -> (r: usize)
    requires
        lo <= hi,
    ensures
        lo <= r <= hi,
{
    rand::RngExt::random_range(rng, lo..=hi)
}

/// Swap the elements of `v` at `x` and `y`.
fn swap(v: &mut Vec<Mapping>, x: usize, y: usize)
    requires
        x < old(v).len(),
        y < old(v).len(),
    ensures
        final(v)@ == old(v)@.update(x as int, old(v)@[y as int]).update(
            y as int,
            old(v)@[x as int],
        ),
{
    let a = v[x];
    let b = v[y];
    v[x] = b;
    v[y] = a;
    proof {
        assert(v@ =~= old(v)@.update(x as int, old(v)@[y as int]).update(
            y as int,
            old(v)@[x as int],
        ));
    }
}

/// Exchanging two elements of a sequence leaves its multiset unchanged.
proof fn lemma_swap_multiset(s: Seq<Mapping>, x: int, y: int)
    requires
        0 <= x < s.len(),
        0 <= y < s.len(),
    ensures
        s.update(x, s[y]).update(y, s[x]).to_multiset() == s.to_multiset(),
{
    broadcast use group_to_multiset_ensures;
    broadcast use vstd::multiset::group_multiset_axioms;

    if x == y {
        assert(s.update(x, s[y]).update(y, s[x]) =~= s);
    } else {
        let s1 = s.update(x, s[y]);
        let s2 = s1.update(y, s[x]);
        assert(s1 =~= s.remove(x).insert(x, s[y]));
        assert(s1.to_multiset() =~= s.to_multiset().remove(s[x]).insert(s[y]));
        assert(s2 =~= s1.remove(y).insert(y, s[x]));
        assert(s1[y] == s[y]);
        assert(s2.to_multiset() =~= s1.to_multiset().remove(s[y]).insert(s[x]));
        assert(s.to_multiset().contains(s[x]));
        assert(s2.to_multiset() =~= s.to_multiset());
    }
}

/// Exchanging two elements inside `[lo, hi)` leaves the multiset of that
/// window unchanged.
proof fn lemma_swap_subrange_multiset(s: Seq<Mapping>, lo: int, hi: int, x: int, y: int)
    requires
        0 <= lo <= x < hi <= s.len(),
        lo <= y < hi,
    ensures
        s.update(x, s[y]).update(y, s[x]).subrange(lo, hi).to_multiset() == s.subrange(
            lo,
            hi,
        ).to_multiset(),
{
    let sub = s.subrange(lo, hi);
    let swapped = s.update(x, s[y]).update(y, s[x]);
    assert(swapped.subrange(lo, hi) =~= sub.update(x - lo, sub[y - lo]).update(
        y - lo,
        sub[x - lo],
    ));
    lemma_swap_multiset(sub, x - lo, y - lo);
}

/// Partition `v[p..=r]` about a randomly chosen pivot element, returning
/// the index where the pivot lands: everything before it in the window
/// compares at or below it, everything after it compares above it.
fn partition<F: ComparatorFunction>(
    rng: &mut rand::rngs::SmallRng,
    v: &mut Vec<Mapping>,
    p: usize,
    r: usize,
) -> (q: usize)
    requires
        p <= r < old(v).len(),
    ensures
        p <= q <= r,
        final(v).len() == old(v).len(),
        forall|k: int|
            0 <= k < final(v).len() && !(p <= k <= r) ==> final(v)@[k] == old(v)@[k],
        final(v)@.subrange(p as int, r as int + 1).to_multiset() == old(v)@.subrange(
            p as int,
            r as int + 1,
        ).to_multiset(),
        forall|k: int| p <= k < q ==> (F::leq())(#[trigger] final(v)@[k], final(v)@[q as int]),
        forall|k: int| q < k <= r ==> !((F::leq())(#[trigger] final(v)@[k], final(v)@[q as int])),
{
    let pivot = pivot_index(rng, p, r);
    proof {
        lemma_swap_subrange_multiset(v@, p as int, r as int + 1, pivot as int, r as int);
    }
    swap(v, pivot, r);
    let mut i = p;
    let mut j = p;
    while j < r
        invariant
            p <= i <= j <= r < v.len(),
            v.len() == old(v).len(),
            forall|k: int| 0 <= k < v.len() && !(p <= k <= r) ==> v@[k] == old(v)@[k],
            v@.subrange(p as int, r as int + 1).to_multiset() == old(v)@.subrange(
                p as int,
                r as int + 1,
            ).to_multiset(),
            forall|k: int| p <= k < i ==> (F::leq())(#[trigger] v@[k], v@[r as int]),
            forall|k: int| i <= k < j ==> !((F::leq())(#[trigger] v@[k], v@[r as int])),
        decreases r - j,
    {
        let a = v[j];
        let b = v[r];
        let ord = F::compare(&a, &b);
        if !matches!(ord, Ordering::Greater) {
            proof {
                lemma_swap_subrange_multiset(v@, p as int, r as int + 1, i as int, j as int);
            }
            swap(v, i, j);
            i = i + 1;
        }
        j = j + 1;
    }
    proof {
        lemma_swap_subrange_multiset(v@, p as int, r as int + 1, i as int, r as int);
    }
    swap(v, i, r);
    i
}

/// Sort the window `v[p..=r]` under the order of `F`. Only the window is
/// touched, and it keeps its elements.
fn do_quick_sort<F: ComparatorFunction>(
    rng: &mut rand::rngs::SmallRng,
    v: &mut Vec<Mapping>,
    p: usize,
    r: usize,
)
    requires
        r < old(v).len(),
        p <= r,
    ensures
        final(v).len() == old(v).len(),
        forall|k: int|
            0 <= k < final(v).len() && !(p <= k <= r) ==> final(v)@[k] == old(v)@[k],
        final(v)@.subrange(p as int, r as int + 1).to_multiset() == old(v)@.subrange(
            p as int,
            r as int + 1,
        ).to_multiset(),
        sorted_by(final(v)@.subrange(p as int, r as int + 1), F::leq()),
    decreases r - p,
{
    proof {
        F::lemma_total_ordering();
        broadcast use group_to_multiset_ensures;
    }
    if p < r {
        let q = partition::<F>(rng, v, p, r);
        let ghost va = v@;
        if q > p {
            do_quick_sort::<F>(rng, v, p, q - 1);
        }
        let ghost vb = v@;
        proof {
            assert(vb.len() == va.len());
            assert forall|k: int| q as int <= k < vb.len() implies vb[k] == va[k] by {}
            assert(vb.subrange(p as int, q as int).to_multiset() == va.subrange(
                p as int,
                q as int,
            ).to_multiset()) by {
                if q > p {
                } else {
                    assert(vb.subrange(p as int, q as int) =~= va.subrange(p as int, q as int));
                }
            }
            assert(sorted_by(vb.subrange(p as int, q as int), F::leq())) by {
                if q == p {
                    assert(vb.subrange(p as int, q as int).len() == 0);
                }
            }
        }
        if q < r {
            do_quick_sort::<F>(rng, v, q + 1, r);
        }
        let ghost vc = v@;
        proof {
            assert(vc.len() == vb.len());
            assert forall|k: int| 0 <= k <= q as int && k < vc.len() implies vc[k] == vb[k] by {}
            assert(vc.subrange(q as int + 1, r as int + 1).to_multiset() == vb.subrange(
                q as int + 1,
                r as int + 1,
            ).to_multiset()) by {
                if q < r {
                } else {
                    assert(vc.subrange(q as int + 1, r as int + 1) =~= vb.subrange(
                        q as int + 1,
                        r as int + 1,
                    ));
                }
            }
            assert(sorted_by(vc.subrange(q as int + 1, r as int + 1), F::leq())) by {
                if q == r {
                    assert(vc.subrange(q as int + 1, r as int + 1).len() == 0);
                }
            }
            // The pivot is untouched by both recursive calls.
            let piv = va[q as int];
            assert(vc[q as int] == piv);
            // Left window elements still compare at or below the pivot.
            assert forall|k: int| p <= k < q implies (F::leq())(#[trigger] vc[k], piv) by {
                assert(vc[k] == vb[k]);
                assert(vb.subrange(p as int, q as int)[k - p] == vb[k]);
                assert(vb.subrange(p as int, q as int).contains(vb[k]));
                assert(vb.subrange(p as int, q as int).to_multiset().contains(vb[k]));
                assert(va.subrange(p as int, q as int).to_multiset().contains(vb[k]));
                assert(va.subrange(p as int, q as int).contains(vb[k]));
                let idx = choose|idx: int|
                    0 <= idx < va.subrange(p as int, q as int).len() && #[trigger] va.subrange(
                        p as int,
                        q as int,
                    )[idx] == vb[k];
                assert(va[p + idx] == vb[k]);
                assert((F::leq())(va[p + idx], piv));
            }
            // Right window elements still compare above the pivot.
            assert forall|k: int| q < k <= r implies !((F::leq())(#[trigger] vc[k], piv)) by {
                assert(vc.subrange(q as int + 1, r as int + 1)[k - q - 1] == vc[k]);
                assert(vc.subrange(q as int + 1, r as int + 1).contains(vc[k]));
                assert(vc.subrange(q as int + 1, r as int + 1).to_multiset().contains(vc[k]));
                assert(vb.subrange(q as int + 1, r as int + 1).to_multiset().contains(vc[k]));
                assert(vb.subrange(q as int + 1, r as int + 1) =~= va.subrange(
                    q as int + 1,
                    r as int + 1,
                ));
                assert(va.subrange(q as int + 1, r as int + 1).contains(vc[k]));
                let idx = choose|idx: int|
                    0 <= idx < va.subrange(q as int + 1, r as int + 1).len() && #[trigger] va.subrange(
                        q as int + 1,
                        r as int + 1,
                    )[idx] == vc[k];
                assert(va[q + 1 + idx] == vc[k]);
                assert(!((F::leq())(va[q + 1 + idx], piv)));
            }
            // The whole window is sorted.
            let whole = vc.subrange(p as int, r as int + 1);
            assert forall|x: int, y: int| 0 <= x < y < whole.len() implies (F::leq())(
                whole[x],
                whole[y],
            ) by {
                let gi = p + x;
                let gj = p + y;
                assert(whole[x] == vc[gi]);
                assert(whole[y] == vc[gj]);
                if gj < q {
                    assert(vb.subrange(p as int, q as int)[gi - p] == vb[gi]);
                    assert(vb.subrange(p as int, q as int)[gj - p] == vb[gj]);
                    assert((F::leq())(vc[gi], vc[gj]));
                } else if gj == q {
                    assert((F::leq())(vc[gi], piv));
                } else if gi > q {
                    assert(vc.subrange(q as int + 1, r as int + 1)[gi - q - 1] == vc[gi]);
                    assert(vc.subrange(q as int + 1, r as int + 1)[gj - q - 1] == vc[gj]);
                } else if gi == q {
                    assert(!((F::leq())(vc[gj], piv)));
                    assert((F::leq())(piv, vc[gj]));
                } else {
                    assert((F::leq())(vc[gi], piv));
                    assert(!((F::leq())(vc[gj], piv)));
                    assert((F::leq())(piv, vc[gj]));
                    assert((F::leq())(vc[gi], vc[gj]));
                }
            }
            // The whole window keeps its elements.
            assert(vc.subrange(p as int, r as int + 1).to_multiset() == va.subrange(
                p as int,
                r as int + 1,
            ).to_multiset()) by {
                assert(vc.subrange(p as int, r as int + 1) =~= vc.subrange(p as int, q as int)
                    + vc.subrange(q as int, q as int + 1) + vc.subrange(q as int + 1, r as int + 1));
                assert(va.subrange(p as int, r as int + 1) =~= va.subrange(p as int, q as int)
                    + va.subrange(q as int, q as int + 1) + va.subrange(q as int + 1, r as int + 1));
                lemma_multiset_commutative(
                    vc.subrange(p as int, q as int) + vc.subrange(q as int, q as int + 1),
                    vc.subrange(q as int + 1, r as int + 1),
                );
                lemma_multiset_commutative(
                    vc.subrange(p as int, q as int),
                    vc.subrange(q as int, q as int + 1),
                );
                lemma_multiset_commutative(
                    va.subrange(p as int, q as int) + va.subrange(q as int, q as int + 1),
                    va.subrange(q as int + 1, r as int + 1),
                );
                lemma_multiset_commutative(
                    va.subrange(p as int, q as int),
                    va.subrange(q as int, q as int + 1),
                );
                assert(vc.subrange(p as int, q as int) =~= vb.subrange(p as int, q as int));
                assert(vc.subrange(q as int, q as int + 1) =~= va.subrange(
                    q as int,
                    q as int + 1,
                ));
                assert(vb.subrange(q as int + 1, r as int + 1) =~= va.subrange(
                    q as int + 1,
                    r as int + 1,
                ));
                assert(vc.subrange(p as int, q as int).to_multiset() == va.subrange(
                    p as int,
                    q as int,
                ).to_multiset());
                assert(vc.subrange(q as int + 1, r as int + 1).to_multiset() == va.subrange(
                    q as int + 1,
                    r as int + 1,
                ).to_multiset());
                assert(vc.subrange(p as int, r as int + 1).to_multiset() == vc.subrange(
                    p as int,
                    q as int,
                ).to_multiset().add(vc.subrange(q as int, q as int + 1).to_multiset()).add(
                    vc.subrange(q as int + 1, r as int + 1).to_multiset(),
                ));
                assert(va.subrange(p as int, r as int + 1).to_multiset() == va.subrange(
                    p as int,
                    q as int,
                ).to_multiset().add(va.subrange(q as int, q as int + 1).to_multiset()).add(
                    va.subrange(q as int + 1, r as int + 1).to_multiset(),
                ));
            }
        }
    } else {
        proof {
            assert(v@.subrange(p as int, r as int + 1).len() == 1);
        }
    }
}

/// Sort the records in place under the order of `F`. The result is
/// exactly the specification-level sort of the input.
pub fn quick_sort<F: ComparatorFunction>(v: &mut Vec<Mapping>)
    ensures
        final(v)@ == old(v)@.sort_by(F::leq()),
{
    let ghost orig = v@;
    proof {
        F::lemma_total_ordering();
    }
    if v.len() == 0 {
        proof {
            orig.lemma_sort_by_ensures(F::leq());
            lemma_sorted_unique(v@, orig.sort_by(F::leq()), F::leq());
        }
        return;
    }
    let mut rng = new_pivot_rng();
    let len = v.len();
    do_quick_sort::<F>(&mut rng, v, 0, len - 1);
    proof {
        assert(v@.subrange(0, len as int) =~= v@);
        assert(orig.subrange(0, len as int) =~= orig);
        orig.lemma_sort_by_ensures(F::leq());
        lemma_sorted_unique(v@, orig.sort_by(F::leq()), F::leq());
    }
}

} // verus!
