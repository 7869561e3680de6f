//! A merge sort of integer pairs in lexicographic order. Sorting a pair
//! `(key, position)` gives a stable sort by `key`; sorting a multiset gives its
//! canonical listing.
use vstd::prelude::*;
use vstd::relations::{sorted_by, total_ordering};
use vstd::seq_lib::{lemma_multiset_commutative, lemma_sorted_unique};

verus! {

broadcast use vstd::seq_lib::group_to_multiset_ensures;

/// Lexicographic order on pairs.
pub open spec fn ple(x: (u64, u64), y: (u64, u64)) -> bool {
    x.0 < y.0 || (x.0 == y.0 && x.1 <= y.1)
}

pub proof fn lemma_ple_total()
    ensures
        total_ordering(|x: (u64, u64), y: (u64, u64)| ple(x, y)),
{
}

/// `v` in ascending order: the unique ascending arrangement of its elements.
pub open spec fn sorted_pairs(v: Seq<(u64, u64)>) -> Seq<(u64, u64)> {
    v.sort_by(|x: (u64, u64), y: (u64, u64)| ple(x, y))
}

pub open spec fn ascending(v: Seq<(u64, u64)>) -> bool {
    sorted_by(v, |x: (u64, u64), y: (u64, u64)| ple(x, y))
}

/// A sequence that is ascending and holds the elements of `v` is `v` sorted.
pub proof fn lemma_is_sorted(v: Seq<(u64, u64)>, r: Seq<(u64, u64)>)
    requires
        ascending(r),
        r.to_multiset() == v.to_multiset(),
    ensures
        r == sorted_pairs(v),
        ascending(sorted_pairs(v)),
        sorted_pairs(v).to_multiset() == v.to_multiset(),
{
    let leq = |x: (u64, u64), y: (u64, u64)| ple(x, y);
    lemma_ple_total();
    v.lemma_sort_by_ensures(leq);
    lemma_sorted_unique(r, v.sort_by(leq), leq);
}

pub proof fn lemma_asc(v: Seq<(u64, u64)>, a: int, b: int)
    requires
        ascending(v),
        0 <= a <= b < v.len(),
    ensures
        ple(v[a], v[b]),
{
    if a < b {
        let lt = |x: (u64, u64), y: (u64, u64)| ple(x, y);
        assert(lt(v[a], v[b]));
    }
}

fn merge(l: Vec<(u64, u64)>, r: Vec<(u64, u64)>) -> (out: Vec<(u64, u64)>)
    requires
        ascending(l@),
        ascending(r@),
    ensures
        ascending(out@),
        out@.to_multiset() == (l@ + r@).to_multiset(),
{
    let mut out: Vec<(u64, u64)> = Vec::new();
    let mut i: usize = 0;
    let mut j: usize = 0;
    proof {
        assert(l@.take(0) + r@.take(0) =~= out@);
    }
    while i < l.len() || j < r.len()
        invariant
            i <= l.len(),
            j <= r.len(),
            ascending(l@),
            ascending(r@),
            ascending(out@),
            out@.to_multiset() == (l@.take(i as int) + r@.take(j as int)).to_multiset(),
            out.len() > 0 ==> forall|k: int| i <= k < l.len() ==> ple(out@.last(), #[trigger] l@[k]),
            out.len() > 0 ==> forall|k: int| j <= k < r.len() ==> ple(out@.last(), #[trigger] r@[k]),
        decreases l.len() + r.len() - i - j,
    {
        let ghost o = out@;
        let take_left = j >= r.len() || (i < l.len() && (l[i].0 < r[j].0 || (l[i].0 == r[j].0
            && l[i].1 <= r[j].1)));
        let x = if take_left { l[i] } else { r[j] };
        out.push(x);
        proof {
            lemma_ple_total();
            let lt = |x: (u64, u64), y: (u64, u64)| ple(x, y);
            assert(total_ordering(lt));
            if o.len() > 0 {
                assert(ple(o.last(), x));
            }
            assert forall|a: int, b: int| 0 <= a < b < out@.len() implies #[trigger] ple(
                out@[a],
                out@[b],
            ) by {
                if b == out@.len() - 1 {
                    if a < o.len() - 1 {
                        lemma_asc(o, a, o.len() - 1);
                    }
                    assert(ple(o[a], o.last()));
                    assert(lt(o[a], o.last()) && lt(o.last(), x));
                } else {
                    lemma_asc(o, a, b);
                }
            }
            if take_left {
                assert forall|k: int| j <= k < r.len() implies ple(x, #[trigger] r@[k]) by {
                    assert(ple(x, r@[j as int]));
                    if k > j {
                        lemma_asc(r@, j as int, k);
                        assert(lt(x, r@[j as int]) && lt(r@[j as int], r@[k]));
                    }
                }
                assert forall|k: int| i + 1 <= k < l.len() implies ple(x, #[trigger] l@[k]) by {
                    lemma_asc(l@, i as int, k);
                }
                lemma_multiset_commutative(l@.take(i + 1), r@.take(j as int));
                lemma_multiset_commutative(l@.take(i as int), r@.take(j as int));
                assert(l@.take(i + 1) =~= l@.take(i as int).push(x));
            } else {
                assert forall|k: int| i <= k < l.len() implies ple(x, #[trigger] l@[k]) by {
                    assert(ple(x, l@[i as int]));
                    if k > i {
                        lemma_asc(l@, i as int, k);
                        assert(lt(x, l@[i as int]) && lt(l@[i as int], l@[k]));
                    }
                }
                assert forall|k: int| j + 1 <= k < r.len() implies ple(x, #[trigger] r@[k]) by {
                    lemma_asc(r@, j as int, k);
                }
                lemma_multiset_commutative(l@.take(i as int), r@.take(j + 1));
                lemma_multiset_commutative(l@.take(i as int), r@.take(j as int));
                assert(r@.take(j + 1) =~= r@.take(j as int).push(x));
            }
        }
        if take_left {
            i += 1;
        } else {
            j += 1;
        }
    }
    proof {
        assert(l@.take(i as int) =~= l@);
        assert(r@.take(j as int) =~= r@);
    }
    out
}

fn sort_range(v: &Vec<(u64, u64)>, lo: usize, hi: usize) -> (out: Vec<(u64, u64)>)
    requires
        lo <= hi <= v.len(),
    ensures
        ascending(out@),
        out@.to_multiset() == v@.subrange(lo as int, hi as int).to_multiset(),
    decreases hi - lo,
{
    if hi - lo == 0 {
        proof {
            assert(v@.subrange(lo as int, hi as int) =~= Seq::<(u64, u64)>::empty());
        }
        Vec::new()
    } else if hi - lo == 1 {
        let mut out: Vec<(u64, u64)> = Vec::new();
        out.push(v[lo]);
        proof {
            assert(v@.subrange(lo as int, hi as int) =~= out@);
        }
        out
    } else {
        let mid = lo + (hi - lo) / 2;
        let left = sort_range(v, lo, mid);
        let right = sort_range(v, mid, hi);
        let out = merge(left, right);
        proof {
            assert(v@.subrange(lo as int, hi as int) =~= v@.subrange(lo as int, mid as int)
                + v@.subrange(mid as int, hi as int));
            lemma_multiset_commutative(left@, right@);
            lemma_multiset_commutative(
                v@.subrange(lo as int, mid as int),
                v@.subrange(mid as int, hi as int),
            );
        }
        out
    }
}

/// The pairs of `v` in ascending lexicographic order.
pub fn sort_pairs(v: &Vec<(u64, u64)>) -> (out: Vec<(u64, u64)>)
    ensures
        out@ == sorted_pairs(v@),
        ascending(out@),
        out@.to_multiset() == v@.to_multiset(),
{
    let out = sort_range(v, 0, v.len());
    proof {
        assert(v@.subrange(0, v@.len() as int) =~= v@);
        lemma_is_sorted(v@, out@);
    }
    out
}

} // verus!
