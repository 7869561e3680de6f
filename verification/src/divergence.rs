//! The divergence report: the refinement classes whose two sides hold
//! different numbers of members.
use vstd::prelude::*;
use vstd::hash_map::HashMapWithView;
use crate::compare::{members, order, Unbalanced};
use crate::refine::lemma_order_contains;
use crate::sort::{sort_pairs, sorted_pairs, ple, lemma_ple_total, lemma_asc};
use crate::spice::{strs, copy_strings};
use crate::iso::class_count;
use crate::text::{chars_of, string_of};

verus! {

broadcast use vstd::seq_lib::group_to_multiset_ensures;

/// A class as the report states it.
pub ghost struct ClassV {
    pub what: Seq<char>,
    pub a_count: nat,
    pub b_count: nat,
    pub a_examples: Seq<Seq<char>>,
    pub b_examples: Seq<Seq<char>>,
}

pub open spec fn class_view(u: Unbalanced) -> ClassV {
    ClassV {
        what: u.what@,
        a_count: u.a_count as nat,
        b_count: u.b_count as nat,
        a_examples: strs(u.a_examples@),
        b_examples: strs(u.b_examples@),
    }
}

pub open spec fn classes_view(v: Seq<Unbalanced>) -> Seq<ClassV> {
    v.map_values(|u: Unbalanced| class_view(u))
}

/// The first four elements of `s` (all of them if it has fewer).
pub open spec fn first4<T>(s: Seq<T>) -> Seq<T> {
    if s.len() <= 4 {
        s
    } else {
        s.take(4)
    }
}

/// The class of colour `c` among `col`, whose first `na` elements are side A
/// and the rest side B: its member counts on each side and the labels of its
/// first four members on each side.
pub open spec fn class_of(what: Seq<char>, col: Seq<u64>, na: int, labels: Seq<Seq<char>>, c: u64) -> ClassV {
    let ma = members(col.take(na), c);
    let mb = members(col.skip(na), c);
    ClassV {
        what,
        a_count: ma.len(),
        b_count: mb.len(),
        a_examples: first4(ma).map_values(|i: usize| labels[i as int]),
        b_examples: first4(mb).map_values(|i: usize| labels[na + i]),
    }
}

/// The distinct colours of `col` in ascending order.
pub open spec fn asc_colours(col: Seq<u64>) -> Seq<u64> {
    sorted_pairs(order(col).map_values(|c: u64| (c, 0u64))).map_values(|p: (u64, u64)| p.0)
}

/// The classes of the colours `cs`, in order, that are unbalanced.
pub open spec fn unbal(what: Seq<char>, col: Seq<u64>, na: int, labels: Seq<Seq<char>>, cs: Seq<u64>) -> Seq<ClassV>
    decreases cs.len(),
{
    if cs.len() == 0 {
        Seq::empty()
    } else {
        let r = unbal(what, col, na, labels, cs.drop_last());
        let cv = class_of(what, col, na, labels, cs.last());
        if cv.a_count != cv.b_count {
            r.push(cv)
        } else {
            r
        }
    }
}

/// The unbalanced classes of `col`, in ascending colour order.
pub open spec fn class_list(what: Seq<char>, col: Seq<u64>, na: int, labels: Seq<Seq<char>>) -> Seq<ClassV> {
    unbal(what, col, na, labels, asc_colours(col))
}

/// `cv` reports the class of colour `c` of `col` (side A the first `na`
/// elements, side B the rest), labelled by `labels`: its counts are the
/// numbers of members on each side, the two differ, and its examples are the
/// labels of members on the right side, at most four of each.
pub open spec fn reports_class(cv: ClassV, col: Seq<u64>, na: int, labels: Seq<Seq<char>>, c: u64) -> bool {
    &&& cv.a_count == class_count(col, 0, na, c)
    &&& cv.b_count == class_count(col, na, col.len() as int, c)
    &&& cv.a_count != cv.b_count
    &&& cv.a_examples.len() == (if cv.a_count <= 4 { cv.a_count } else { 4 })
    &&& cv.b_examples.len() == (if cv.b_count <= 4 { cv.b_count } else { 4 })
    &&& forall|t: int|
        0 <= t < cv.a_examples.len() ==> labels_member(#[trigger] cv.a_examples[t], col, 0, na, labels, c)
    &&& forall|t: int|
        0 <= t < cv.b_examples.len() ==> labels_member(#[trigger] cv.b_examples[t], col, na, col.len() as int, labels, c)
}

/// `cv` reports the class of some colour of `col`.
pub open spec fn reports_some_class(cv: ClassV, col: Seq<u64>, na: int, labels: Seq<Seq<char>>) -> bool {
    exists|c: u64| reports_class(cv, col, na, labels, c)
}

/// `x` is the label of a member of colour `c` among `col[lo..hi]`.
pub open spec fn labels_member(x: Seq<char>, col: Seq<u64>, lo: int, hi: int, labels: Seq<Seq<char>>, c: u64) -> bool {
    exists|i: int| lo <= i < hi && col[i] == c && x == #[trigger] labels[i]
}

proof fn lemma_cc_same(x: Seq<u64>, y: Seq<u64>, ox: int, oy: int, h: int, c: u64)
    requires
        0 <= h,
        forall|i: int| 0 <= i < h ==> #[trigger] x[ox + i] == y[oy + i],
    ensures
        class_count(x, ox, ox + h, c) == class_count(y, oy, oy + h, c),
    decreases h,
{
    if h > 0 {
        lemma_cc_same(x, y, ox, oy, h - 1, c);
        assert(x[ox + (h - 1)] == y[oy + (h - 1)]);
    }
}

proof fn lemma_members_count(k: Seq<u64>, c: u64)
    ensures
        members(k, c).len() == class_count(k, 0, k.len() as int, c),
    decreases k.len(),
{
    if k.len() > 0 {
        let k2 = k.drop_last();
        lemma_members_count(k2, c);
        lemma_cc_same(k2, k, 0, 0, k2.len() as int, c);
    }
}

/// Each class the report lists is the class of some colour.
proof fn lemma_unbal_member(what: Seq<char>, col: Seq<u64>, na: int, labels: Seq<Seq<char>>, cs: Seq<u64>)
    ensures
        forall|k: int|
            0 <= k < unbal(what, col, na, labels, cs).len() ==> exists|j: int|
                0 <= j < cs.len() && #[trigger] unbal(what, col, na, labels, cs)[k] == class_of(what, col, na, labels, cs[j]),
    decreases cs.len(),
{
    if cs.len() > 0 {
        let p = cs.drop_last();
        lemma_unbal_member(what, col, na, labels, p);
        let r = unbal(what, col, na, labels, p);
        assert forall|k: int| 0 <= k < unbal(what, col, na, labels, cs).len() implies exists|j: int|
            0 <= j < cs.len() && #[trigger] unbal(what, col, na, labels, cs)[k] == class_of(what, col, na, labels, cs[j]) by {
            if k < r.len() {
                let j = choose|j: int| 0 <= j < p.len() && r[k] == class_of(what, col, na, labels, p[j]);
                assert(cs[j] == p[j]);
                assert(unbal(what, col, na, labels, cs)[k] == r[k]);
            } else {
                assert(unbal(what, col, na, labels, cs)[k] == class_of(what, col, na, labels, cs[cs.len() - 1]));
            }
        }
    }
}

/// Every class of the divergence report is reported as it is: side A's
/// count is the number of side-A members of its colour and side B's the
/// number of side-B members, the two differ, and its examples (at most four
/// a side) are labels of members from the side they are listed under.
pub proof fn lemma_class_counts(what: Seq<char>, col: Seq<u64>, na: int, labels: Seq<Seq<char>>)
    requires
        0 <= na <= col.len(),
        col.len() <= usize::MAX,
        labels.len() == col.len(),
    ensures
        forall|k: int|
            0 <= k < class_list(what, col, na, labels).len() ==> reports_some_class(
                #[trigger] class_list(what, col, na, labels)[k], col, na, labels),
{
    let cs = asc_colours(col);
    lemma_unbal_member(what, col, na, labels, cs);
    assert forall|k: int| 0 <= k < class_list(what, col, na, labels).len() implies reports_some_class(
        #[trigger] class_list(what, col, na, labels)[k], col, na, labels) by {
        let l = class_list(what, col, na, labels);
        let j = choose|j: int| 0 <= j < cs.len() && #[trigger] unbal(what, col, na, labels, cs)[k] == class_of(what, col, na, labels, cs[j]);
        let c = cs[j];
        let cv = l[k];
        assert(cv == class_of(what, col, na, labels, c));
        let ka = col.take(na);
        let kb = col.skip(na);
        let ma = members(ka, c);
        let mb = members(kb, c);
        lemma_members_count(ka, c);
        lemma_members_count(kb, c);
        lemma_cc_same(ka, col, 0, 0, na, c);
        lemma_cc_same(kb, col, 0, na, col.len() - na, c);
        lemma_members_bound(ka, c);
        lemma_members_bound(kb, c);
        lemma_unbal_unbalanced(what, col, na, labels, cs, k);
        assert forall|t: int| 0 <= t < cv.a_examples.len() implies labels_member(#[trigger] cv.a_examples[t], col, 0, na, labels, c) by {
            assert(first4(ma)[t] == ma[t]);
            let i = ma[t] as int;
            assert(ka[i] == c);
            assert(cv.a_examples[t] == labels[i]);
        }
        assert forall|t: int| 0 <= t < cv.b_examples.len() implies labels_member(#[trigger] cv.b_examples[t], col, na, col.len() as int, labels, c) by {
            assert(first4(mb)[t] == mb[t]);
            let i = na + mb[t] as int;
            assert(kb[mb[t] as int] == c);
            assert(cv.b_examples[t] == labels[i]);
        }
        assert(cv.a_count == class_count(col, 0, na, c));
        assert(cv.b_count == class_count(col, na, col.len() as int, c));
        assert(cv.a_count != cv.b_count);
        assert(cv.a_examples.len() == (if cv.a_count <= 4 { cv.a_count } else { 4 }));
        assert(cv.b_examples.len() == (if cv.b_count <= 4 { cv.b_count } else { 4 }));
        assert(reports_class(cv, col, na, labels, c));
    }
}

/// Every class the report lists is unbalanced.
proof fn lemma_unbal_unbalanced(what: Seq<char>, col: Seq<u64>, na: int, labels: Seq<Seq<char>>, cs: Seq<u64>, k: int)
    requires
        0 <= k < unbal(what, col, na, labels, cs).len(),
    ensures
        unbal(what, col, na, labels, cs)[k].a_count != unbal(what, col, na, labels, cs)[k].b_count,
    decreases cs.len(),
{
    let p = cs.drop_last();
    let r = unbal(what, col, na, labels, p);
    if k < r.len() {
        lemma_unbal_unbalanced(what, col, na, labels, p, k);
        assert(unbal(what, col, na, labels, cs)[k] == r[k]);
    }
}

proof fn lemma_members_push<K>(k: Seq<K>, x: K, key: K)
    ensures
        members(k.push(x), key) == if x == key {
            members(k, key).push(k.len() as usize)
        } else {
            members(k, key)
        },
{
    assert(k.push(x).drop_last() =~= k);
}

pub proof fn lemma_members_bound<K>(k: Seq<K>, key: K)
    requires
        k.len() <= usize::MAX,
    ensures
        forall|t: int| 0 <= t < members(k, key).len() ==> #[trigger] members(k, key)[t] < k.len()
            && k[members(k, key)[t] as int] == key,
        members(k, key).len() <= k.len(),
    decreases k.len(),
{
    if k.len() > 0 {
        lemma_members_bound(k.drop_last(), key);
        let m = members(k.drop_last(), key);
        assert forall|t: int| 0 <= t < m.len() implies k[m[t] as int] == key by {
            assert(k.drop_last()[m[t] as int] == key);
        }
        if k.last() == key {
            assert(members(k, key) == m.push((k.len() - 1) as usize));
            assert forall|t: int| 0 <= t < members(k, key).len() implies #[trigger] members(k, key)[t] < k.len()
                && k[members(k, key)[t] as int] == key by {
                if t < m.len() {
                    assert(members(k, key)[t] == m[t]);
                    assert(m[t] < k.drop_last().len() && k.drop_last()[m[t] as int] == key);
                } else {
                    assert(members(k, key)[t] == k.len() - 1);
                }
            }
        } else {
            assert(members(k, key) == m);
        }
    }
}

fn examples(m: &Vec<usize>, labels: &Vec<String>, off: usize) -> (r: Vec<String>)
    requires
        forall|t: int| 0 <= t < m.len() ==> off + #[trigger] m@[t] < labels.len(),
    ensures
        strs(r@) == first4(m@).map_values(|i: usize| strs(labels@)[off + i]),
{
    let mut r: Vec<String> = Vec::new();
    let n = if m.len() <= 4 { m.len() } else { 4 };
    let ghost f = first4(m@);
    proof {
        assert(f.len() == n);
    }
    let mut t: usize = 0;
    while t < n
        invariant
            t <= n,
            n <= m.len(),
            f == first4(m@),
            f.len() == n,
            forall|t: int| 0 <= t < m.len() ==> off + #[trigger] m@[t] < labels.len(),
            strs(r@) == f.take(t as int).map_values(|i: usize| strs(labels@)[off + i]),
        decreases n - t,
    {
        let ghost r0 = r@;
        r.push(labels[off + m[t]].clone());
        proof {
            assert(f[t as int] == m@[t as int]);
            assert(strs(r@) =~= strs(r0).push(labels@[off + m@[t as int]]@));
            assert(f.take(t + 1).map_values(|i: usize| strs(labels@)[off + i]) =~= f.take(t as int).map_values(
                |i: usize| strs(labels@)[off + i],
            ).push(strs(labels@)[off + f[t as int]]));
        }
        t += 1;
    }
    proof {
        assert(f.take(n as int) =~= f);
    }
    r
}

/// The unbalanced classes of `col` (side A first `na`, side B the rest), in
/// ascending colour order, each with its counts and first four labels per side.
pub fn classes(what: &str, col: &Vec<u64>, na: usize, labels: &Vec<String>) -> (r: Vec<Unbalanced>)
    requires
        na <= col.len() == labels.len(),
    ensures
        classes_view(r@) == class_list(what@, col@, na as int, strs(labels@)),
        forall|k: int| 0 <= k < r.len() ==> reports_some_class(#[trigger] classes_view(r@)[k], col@, na as int, strs(labels@)),
{
    let n = col.len();
    let mut map: HashMapWithView<u64, usize> = HashMapWithView::new();
    let mut cls: Vec<u64> = Vec::new();
    let mut ma: Vec<Vec<usize>> = Vec::new();
    let mut mb: Vec<Vec<usize>> = Vec::new();
    proof {
        assert(col@.take(0) =~= Seq::<u64>::empty());
    }
    let mut i: usize = 0;
    while i < na
        invariant
            i <= na <= n == col.len(),
            cls@ == order(col@.take(i as int)),
            ma.len() == cls.len() && mb.len() == cls.len(),
            forall|k: int| 0 <= k < cls.len() ==> #[trigger] ma@[k]@ == members(col@.take(i as int), cls@[k]),
            forall|k: int| 0 <= k < cls.len() ==> (#[trigger] mb@[k])@ == Seq::<usize>::empty(),
            forall|c: u64| #[trigger] map@.contains_key(c) ==> map@[c] < cls.len() && cls@[map@[c] as int] == c,
            forall|c: u64| cls@.contains(c) ==> #[trigger] map@.contains_key(c),
        decreases na - i,
    {
        let c = col[i];
        let ghost k0 = col@.take(i as int);
        proof {
            assert(col@.take(i + 1) =~= k0.push(c));
            assert(k0.push(c).drop_last() =~= k0);
        }
        match map.get(&c) {
            Some(kr) => {
                let k = *kr;
                ma[k].push(i);
                proof {
                    assert(cls@.contains(c));
                    assert forall|h: int| 0 <= h < cls.len() implies #[trigger] ma@[h]@ == members(col@.take(i + 1), cls@[h]) by {
                        lemma_members_push(k0, c, cls@[h]);
                        if h != k {
                            lemma_order_no_dup_u64(k0);
                        }
                    }
                }
            },
            None => {
                let k = cls.len();
                proof {
                    if cls@.contains(c) {
                        assert(map@.contains_key(c));
                    }
                    lemma_order_contains(k0, c);
                }
                cls.push(c);
                let mut fresh: Vec<usize> = Vec::new();
                fresh.push(i);
                ma.push(fresh);
                mb.push(Vec::new());
                map.insert(c, k);
                proof {
                    assert forall|h: int| 0 <= h < cls.len() implies #[trigger] ma@[h]@ == members(col@.take(i + 1), cls@[h]) by {
                        lemma_members_push(k0, c, cls@[h]);
                        if h == k {
                            crate::compare::lemma_members_absent(k0, c);
                        }
                    }
                    assert forall|c2: u64| cls@.contains(c2) implies #[trigger] map@.contains_key(c2) by {
                        if c2 != c {
                            let h = choose|h: int| 0 <= h < cls.len() && cls@[h] == c2;
                            assert(cls@.drop_last()[h] == c2);
                        }
                    }
                }
            },
        }
        i += 1;
    }
    proof {
        assert forall|k: int| 0 <= k < cls.len() implies (#[trigger] mb@[k])@ == members(col@.subrange(na as int, na as int), cls@[k]) by {
            assert(col@.subrange(na as int, na as int) =~= Seq::<u64>::empty());
        }
    }
    while i < n
        invariant
            na <= i <= n == col.len(),
            cls@ == order(col@.take(i as int)),
            ma.len() == cls.len() && mb.len() == cls.len(),
            forall|k: int| 0 <= k < cls.len() ==> #[trigger] ma@[k]@ == members(col@.take(na as int), cls@[k]),
            forall|k: int| 0 <= k < cls.len() ==> (#[trigger] mb@[k])@ == members(col@.subrange(na as int, i as int), cls@[k]),
            forall|c: u64| #[trigger] map@.contains_key(c) ==> map@[c] < cls.len() && cls@[map@[c] as int] == c,
            forall|c: u64| cls@.contains(c) ==> #[trigger] map@.contains_key(c),
        decreases n - i,
    {
        let c = col[i];
        let ghost k0 = col@.take(i as int);
        let ghost s0 = col@.subrange(na as int, i as int);
        proof {
            assert(col@.take(i + 1) =~= k0.push(c));
            assert(col@.subrange(na as int, i + 1) =~= s0.push(c));
            assert(k0.push(c).drop_last() =~= k0);
        }
        match map.get(&c) {
            Some(kr) => {
                let k = *kr;
                mb[k].push(i - na);
                proof {
                    assert forall|h: int| 0 <= h < cls.len() implies (#[trigger] mb@[h])@ == members(col@.subrange(na as int, i + 1), cls@[h]) by {
                        lemma_members_push(s0, c, cls@[h]);
                        if h != k {
                            lemma_order_no_dup_u64(k0);
                        }
                    }
                }
            },
            None => {
                let k = cls.len();
                proof {
                    if cls@.contains(c) {
                        assert(map@.contains_key(c));
                    }
                    lemma_order_contains(k0, c);
                    assert(!col@.take(na as int).contains(c)) by {
                        if col@.take(na as int).contains(c) {
                            let t = choose|t: int| 0 <= t < na && col@.take(na as int)[t] == c;
                            assert(k0[t] == c);
                        }
                    }
                    lemma_order_contains(col@.take(na as int), c);
                    crate::compare::lemma_members_absent(col@.take(na as int), c);
                    assert(!s0.contains(c)) by {
                        if s0.contains(c) {
                            let t = choose|t: int| 0 <= t < s0.len() && s0[t] == c;
                            assert(k0[na + t] == c);
                        }
                    }
                    lemma_order_contains(s0, c);
                    crate::compare::lemma_members_absent(s0, c);
                }
                cls.push(c);
                ma.push(Vec::new());
                let mut fresh: Vec<usize> = Vec::new();
                fresh.push(i - na);
                mb.push(fresh);
                map.insert(c, k);
                proof {
                    assert forall|h: int| 0 <= h < cls.len() implies (#[trigger] mb@[h])@ == members(col@.subrange(na as int, i + 1), cls@[h]) by {
                        lemma_members_push(s0, c, cls@[h]);
                    }
                    assert forall|c2: u64| cls@.contains(c2) implies #[trigger] map@.contains_key(c2) by {
                        if c2 != c {
                            let h = choose|h: int| 0 <= h < cls.len() && cls@[h] == c2;
                            assert(cls@.drop_last()[h] == c2);
                        }
                    }
                }
            },
        }
        i += 1;
    }
    proof {
        assert(col@.take(n as int) =~= col@);
        assert(col@.subrange(na as int, n as int) =~= col@.skip(na as int));
    }
    // ascending colours
    let mut ps: Vec<(u64, u64)> = Vec::new();
    let mut k: usize = 0;
    while k < cls.len()
        invariant
            k <= cls.len(),
            ps@ == cls@.take(k as int).map_values(|c: u64| (c, 0u64)),
        decreases cls.len() - k,
    {
        ps.push((cls[k], 0));
        proof {
            assert(cls@.take(k + 1).map_values(|c: u64| (c, 0u64)) =~= cls@.take(k as int).map_values(
                |c: u64| (c, 0u64),
            ).push((cls@[k as int], 0u64)));
        }
        k += 1;
    }
    proof {
        assert(cls@.take(k as int) =~= cls@);
    }
    let sorted = sort_pairs(&ps);
    let ghost cs = asc_colours(col@);
    proof {
        assert(cs =~= sorted@.map_values(|p: (u64, u64)| p.0));
        assert forall|t: int| 0 <= t < sorted.len() implies cls@.contains(#[trigger] sorted@[t].0) by {
            assert(sorted@.contains(sorted@[t]));
            assert(sorted@.to_multiset().count(sorted@[t]) > 0);
            assert(ps@.contains(sorted@[t]));
            let h = choose|h: int| 0 <= h < ps.len() && ps@[h] == sorted@[t];
            assert(cls@[h] == sorted@[t].0);
        }
    }
    let ghost lv = strs(labels@);
    let mut out: Vec<Unbalanced> = Vec::new();
    let mut t: usize = 0;
    while t < sorted.len()
        invariant
            t <= sorted.len(),
            cs == sorted@.map_values(|p: (u64, u64)| p.0),
            cs == asc_colours(col@),
            lv == strs(labels@),
            na <= n == col.len() == labels.len(),
            ma.len() == cls.len() && mb.len() == cls.len(),
            forall|t: int| 0 <= t < sorted.len() ==> cls@.contains(#[trigger] sorted@[t].0),
            forall|k: int| 0 <= k < cls.len() ==> #[trigger] ma@[k]@ == members(col@.take(na as int), cls@[k]),
            forall|k: int| 0 <= k < cls.len() ==> (#[trigger] mb@[k])@ == members(col@.skip(na as int), cls@[k]),
            forall|c: u64| #[trigger] map@.contains_key(c) ==> map@[c] < cls.len() && cls@[map@[c] as int] == c,
            forall|c: u64| cls@.contains(c) ==> #[trigger] map@.contains_key(c),
            classes_view(out@) == unbal(what@, col@, na as int, lv, cs.take(t as int)),
        decreases sorted.len() - t,
    {
        let c = sorted[t].0;
        proof {
            assert(cls@.contains(sorted@[t as int].0));
            assert(cs.take(t + 1).drop_last() =~= cs.take(t as int));
            assert(cs.take(t + 1).last() == c);
        }
        let k = *map.get(&c).unwrap();
        let ghost cv = class_of(what@, col@, na as int, lv, c);
        if ma[k].len() != mb[k].len() {
            proof {
                lemma_members_bound(col@.take(na as int), c);
                lemma_members_bound(col@.skip(na as int), c);
                assert forall|x: int| 0 <= x < ma@[k as int].len() implies 0 + #[trigger] ma@[k as int]@[x] < labels.len() by {
                    assert(ma@[k as int]@[x] < col@.take(na as int).len());
                }
                assert forall|x: int| 0 <= x < mb@[k as int].len() implies na + #[trigger] mb@[k as int]@[x] < labels.len() by {
                    assert(mb@[k as int]@[x] < col@.skip(na as int).len());
                }
            }
            let ae = examples(&ma[k], labels, 0);
            let be = examples(&mb[k], labels, na);
            let u = Unbalanced {
                what: string_of(&chars_of(what)),
                a_count: ma[k].len(),
                b_count: mb[k].len(),
                a_examples: ae,
                b_examples: be,
            };
            let ghost o0 = out@;
            out.push(u);
            proof {
                assert(first4(ma@[k as int]@).map_values(|i: usize| lv[0 + i]) =~= first4(ma@[k as int]@).map_values(
                    |i: usize| lv[i as int],
                ));
                assert(class_view(u) == cv);
                assert(classes_view(out@) =~= classes_view(o0).push(cv));
            }
        }
        t += 1;
    }
    proof {
        assert(cs.take(t as int) =~= cs);
        lemma_listed_classes(out@, what@, col@, na as int, strs(labels@));
    }
    out
}

proof fn lemma_listed_classes(v: Seq<Unbalanced>, what: Seq<char>, col: Seq<u64>, na: int, labels: Seq<Seq<char>>)
    requires
        0 <= na <= col.len(),
        col.len() <= usize::MAX,
        labels.len() == col.len(),
        classes_view(v) == class_list(what, col, na, labels),
    ensures
        forall|k: int| 0 <= k < v.len() ==> reports_some_class(#[trigger] classes_view(v)[k], col, na, labels),
{
    lemma_class_counts(what, col, na, labels);
    let l = class_list(what, col, na, labels);
    assert forall|k: int| 0 <= k < v.len() implies reports_some_class(#[trigger] classes_view(v)[k], col, na, labels) by {
        assert(classes_view(v)[k] == l[k]);
    }
}

proof fn lemma_order_no_dup_u64(k: Seq<u64>)
    ensures
        order(k).no_duplicates(),
{
    crate::refine::lemma_order_no_dup(k);
}

/// The classes in ascending order of their total member count, keeping the
/// given order among classes of equal total.
pub open spec fn by_size(xs: Seq<ClassV>) -> Seq<ClassV> {
    let ks = Seq::new(xs.len(), |k: int| ((xs[k].a_count + xs[k].b_count) as u64, k as u64));
    sorted_pairs(ks).map_values(|p: (u64, u64)| xs[p.1 as int])
}

/// Ordering by size keeps every class and puts them in ascending order of
/// their total member count (the two sides' counts added).
pub proof fn lemma_by_size_ordered(xs: Seq<ClassV>)
    requires
        xs.len() <= u64::MAX,
        forall|k: int| 0 <= k < xs.len() ==> #[trigger] xs[k].a_count + xs[k].b_count <= u64::MAX,
    ensures
        by_size(xs).len() == xs.len(),
        forall|x: ClassV| #[trigger] by_size(xs).contains(x) ==> xs.contains(x),
        forall|i: int, j: int|
            0 <= i <= j < xs.len() ==> (#[trigger] by_size(xs)[i]).a_count + by_size(xs)[i].b_count
                <= (#[trigger] by_size(xs)[j]).a_count + by_size(xs)[j].b_count,
{
    let ks = Seq::new(xs.len(), |k: int| ((xs[k].a_count + xs[k].b_count) as u64, k as u64));
    let leq = |x: (u64, u64), y: (u64, u64)| ple(x, y);
    lemma_ple_total();
    ks.lemma_sort_by_ensures(leq);
    let st = sorted_pairs(ks);
    assert(st == ks.sort_by(leq));
    assert(st.len() == ks.len()) by {
        assert(st.to_multiset().len() == ks.to_multiset().len());
    }
    assert forall|i: int| 0 <= i < st.len() implies (#[trigger] st[i]).1 < xs.len() && st[i].0 == xs[st[i].1 as int].a_count
        + xs[st[i].1 as int].b_count by {
        assert(st.contains(st[i]));
        assert(ks.contains(st[i]));
        let h = choose|h: int| 0 <= h < ks.len() && ks[h] == st[i];
        assert(ks[h].1 == h);
    }
    assert forall|i: int, j: int| 0 <= i <= j < st.len() implies (#[trigger] st[i]).0 <= (#[trigger] st[j]).0 by {
        lemma_asc(st, i, j);
    }
    assert forall|x: ClassV| #[trigger] by_size(xs).contains(x) implies xs.contains(x) by {
        let i = choose|i: int| 0 <= i < by_size(xs).len() && by_size(xs)[i] == x;
        assert(by_size(xs)[i] == xs[st[i].1 as int]);
    }
}

fn copy_class(u: &Unbalanced) -> (r: Unbalanced)
    ensures
        class_view(r) == class_view(*u),
{
    Unbalanced {
        what: u.what.clone(),
        a_count: u.a_count,
        b_count: u.b_count,
        a_examples: copy_strings(&u.a_examples),
        b_examples: copy_strings(&u.b_examples),
    }
}

/// Orders classes by total member count, ties in their given order.
pub fn order_by_size(v: &Vec<Unbalanced>) -> (r: Vec<Unbalanced>)
    requires
        forall|k: int| 0 <= k < v.len() ==> #[trigger] v@[k].a_count + v@[k].b_count <= u64::MAX,
    ensures
        classes_view(r@) == by_size(classes_view(v@)),
{
    let ghost xs = classes_view(v@);
    let ghost ks = Seq::new(xs.len(), |k: int| ((xs[k].a_count + xs[k].b_count) as u64, k as u64));
    let mut keys: Vec<(u64, u64)> = Vec::new();
    let mut k: usize = 0;
    while k < v.len()
        invariant
            k <= v.len(),
            xs == classes_view(v@),
            ks == Seq::new(xs.len(), |k: int| ((xs[k].a_count + xs[k].b_count) as u64, k as u64)),
            forall|k: int| 0 <= k < v.len() ==> #[trigger] v@[k].a_count + v@[k].b_count <= u64::MAX,
            keys@ == ks.take(k as int),
        decreases v.len() - k,
    {
        let tot = v[k].a_count as u64 + v[k].b_count as u64;
        keys.push((tot, k as u64));
        proof {
            assert(ks.take(k + 1) =~= ks.take(k as int).push(ks[k as int]));
        }
        k += 1;
    }
    proof {
        assert(ks.take(k as int) =~= ks);
    }
    let sorted = sort_pairs(&keys);
    let ghost want = by_size(xs);
    proof {
        assert forall|t: int| 0 <= t < sorted.len() implies (#[trigger] sorted@[t]).1 < v.len() by {
            assert(sorted@.contains(sorted@[t]));
            assert(sorted@.to_multiset().count(sorted@[t]) > 0);
            assert(keys@.contains(sorted@[t]));
            let h = choose|h: int| 0 <= h < keys.len() && keys@[h] == sorted@[t];
            assert(ks[h].1 == h);
        }
    }
    let mut out: Vec<Unbalanced> = Vec::new();
    let mut t: usize = 0;
    while t < sorted.len()
        invariant
            t <= sorted.len(),
            xs == classes_view(v@),
            want == sorted@.map_values(|p: (u64, u64)| xs[p.1 as int]),
            forall|t: int| 0 <= t < sorted.len() ==> (#[trigger] sorted@[t]).1 < v.len(),
            classes_view(out@) == want.take(t as int),
        decreases sorted.len() - t,
    {
        let idx = sorted[t].1 as usize;
        let u = copy_class(&v[idx]);
        let ghost o0 = out@;
        out.push(u);
        proof {
            assert(classes_view(out@) =~= classes_view(o0).push(class_view(u)));
            assert(want.take(t + 1) =~= want.take(t as int).push(want[t as int]));
        }
        t += 1;
    }
    proof {
        assert(want.take(t as int) =~= want);
    }
    out
}

} // verus!
