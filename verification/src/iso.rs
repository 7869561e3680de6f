//! The explicit device/net bijection that confirms a balanced refinement.
//!
//! A backtracking search over refinement classes pairs each device of A with
//! a device of B of the same colour and arity that the caller judges
//! compatible, binding terminal nets consistently (MOSFET source and drain in
//! either orientation) and only to nets of the same colour. A dead end undoes
//! the last placement and tries its next orientation, then its next
//! candidate, so a search that runs out of candidates has ruled out every
//! pairing. The levels of the search are kept on an explicit stack, so its
//! depth, one level per device, is not bounded by the call stack. The search
//! gives up after a budget of trials, which a search tree smaller than the
//! budget never reaches.
//!
//! A bijection the search reports is checked afresh against the netlists
//! themselves before it is believed: see `check_bijection` and `is_iso`.
use vstd::prelude::*;
use vstd::hash_map::{HashMapWithView, StringHashMap};
use crate::graph::{incid_ok, tv, iv, Graph};
use crate::sort::sort_pairs;
use crate::refine::model_key;
use crate::spice::{strs, DeviceV, Netlist, NetlistV};

verus! {

/// The outcome of the search.
pub enum Outcome {
    /// A consistent bijection was built.
    Verified,
    /// No consistent bijection was found.
    Refuted,
    /// The budget ran out first.
    Unresolved,
}

/// The number of trials the search may make.
pub const VERIFY_BUDGET: u64 = 5_000_000;

/// The size of a search tree of depth `n` whose every node has at most `m`
/// children: `m + m^2 + ... + m^n`. A search that places `n` devices, each
/// on one of at most `m` (candidate, orientation) choices, makes at most
/// this many trials.
pub open spec fn tree_bound(n: nat, m: nat) -> nat
    decreases n,
{
    if n == 0 {
        0
    } else {
        m * (1 + tree_bound((n - 1) as nat, m))
    }
}

/// The devices of B among `dc[lo..hi]` of colour `c`.
pub open spec fn class_count(dc: Seq<u64>, lo: int, hi: int, c: u64) -> nat
    decreases hi - lo,
{
    if hi <= lo {
        0
    } else {
        class_count(dc, lo, hi - 1, c) + (if dc[hi - 1] == c { 1nat } else { 0nat })
    }
}

/// The device `a` of A is a MOSFET with a source and a drain.
pub open spec fn has_sd(g: &Graph, a: int) -> bool {
    g.dev_kind@[a] == 'M' && g.dev_terms@[a].len() >= 4
}

/// The trials the search may make on device `a` of A at one level: one per
/// device of B of its colour and orientation.
pub open spec fn trial_width(g: &Graph, dc: Seq<u64>, a: int) -> nat {
    let cc = class_count(dc, g.na_dev as int, g.dev_terms.len() as int, dc[a]);
    if has_sd(g, a) {
        2 * cc
    } else {
        cc
    }
}

/// The placements of device `a` of A that can bind its nets at one level:
/// one per device of B of its colour, and per orientation only where its
/// source and drain are on nets of one colour (otherwise the colours decide
/// the orientation).
pub open spec fn branch_width(g: &Graph, dc: Seq<u64>, nc: Seq<u64>, a: int) -> nat {
    let cc = class_count(dc, g.na_dev as int, g.dev_terms.len() as int, dc[a]);
    if has_sd(g, a) && nc[g.dev_terms@[a]@[0] as int] == nc[g.dev_terms@[a]@[2] as int] {
        2 * cc
    } else {
        cc
    }
}

/// The largest trial width among the first `n` devices of A.
pub open spec fn max_trial_width(g: &Graph, dc: Seq<u64>, n: int) -> nat
    decreases n,
{
    if n <= 0 {
        0
    } else {
        let w = trial_width(g, dc, n - 1);
        let r = max_trial_width(g, dc, n - 1);
        if w > r { w } else { r }
    }
}

/// The largest branch width among the first `n` devices of A.
pub open spec fn max_branch_width(g: &Graph, dc: Seq<u64>, nc: Seq<u64>, n: int) -> nat
    decreases n,
{
    if n <= 0 {
        0
    } else {
        let w = branch_width(g, dc, nc, n - 1);
        let r = max_branch_width(g, dc, nc, n - 1);
        if w > r { w } else { r }
    }
}

/// The trials a search of `r` levels may make when each level makes at most
/// `t` trials and at most `b` of them open the next level.
pub open spec fn search_bound(r: nat, t: nat, b: nat) -> nat
    decreases r,
{
    if r == 0 {
        0
    } else {
        t + b * search_bound((r - 1) as nat, t, b)
    }
}

/// The bound on the trials of the search over `g`, from the sizes of its
/// colour classes: for a circuit whose device classes are singletons and
/// whose MOSFETs have source and drain of different net colours, twice the
/// number of devices.
pub open spec fn search_size(g: &Graph, dc: Seq<u64>, nc: Seq<u64>) -> nat {
    search_bound(g.na_dev as nat, max_trial_width(g, dc, g.na_dev as int), max_branch_width(g, dc, nc, g.na_dev as int))
}

proof fn lemma_max_widths(g: &Graph, dc: Seq<u64>, nc: Seq<u64>, n: int, a: int)
    requires
        0 <= a < n,
    ensures
        trial_width(g, dc, a) <= max_trial_width(g, dc, n),
        branch_width(g, dc, nc, a) <= max_branch_width(g, dc, nc, n),
    decreases n,
{
    if a < n - 1 {
        lemma_max_widths(g, dc, nc, n - 1, a);
    }
}

proof fn lemma_class_count_le(dc: Seq<u64>, lo: int, hi: int, c: u64)
    requires
        lo <= hi,
    ensures
        class_count(dc, lo, hi, c) <= hi - lo,
    decreases hi - lo,
{
    if hi > lo {
        lemma_class_count_le(dc, lo, hi - 1, c);
    }
}

/// A strictly increasing list of devices in `[lo, hi)`, all of colour `c`,
/// is no longer than the class.
proof fn lemma_class_count_bound(dc: Seq<u64>, s: Seq<usize>, lo: int, hi: int, c: u64)
    requires
        lo <= hi,
        forall|t: int| 0 <= t < s.len() ==> lo <= #[trigger] s[t] < hi && dc[s[t] as int] == c,
        forall|t1: int, t2: int| 0 <= t1 < t2 < s.len() ==> #[trigger] s[t1] < #[trigger] s[t2],
    ensures
        s.len() <= class_count(dc, lo, hi, c),
    decreases hi - lo,
{
    if s.len() > 0 {
        assert(lo <= s[0] < hi);
    }
    if hi > lo && s.len() > 0 {
        let l = s[s.len() - 1];
        if l == hi - 1 {
            assert(dc[hi - 1] == c);
            let s2 = s.drop_last();
            assert forall|t: int| 0 <= t < s2.len() implies lo <= #[trigger] s2[t] < hi - 1 && dc[s2[t] as int] == c by {
                assert(s[t] < s[s.len() - 1]);
            }
            lemma_class_count_bound(dc, s2, lo, hi - 1, c);
        } else {
            assert forall|t: int| 0 <= t < s.len() implies lo <= #[trigger] s[t] < hi - 1 && dc[s[t] as int] == c by {
                if t < s.len() - 1 {
                    assert(s[t] < s[s.len() - 1]);
                }
            }
            lemma_class_count_bound(dc, s, lo, hi - 1, c);
        }
    }
}

/// The widths are at most twice the number of devices of B.
proof fn lemma_max_le(g: &Graph, dc: Seq<u64>, nc: Seq<u64>, n: int)
    requires
        g.na_dev <= g.dev_terms.len(),
    ensures
        max_trial_width(g, dc, n) <= 2 * (g.dev_terms.len() - g.na_dev),
        max_branch_width(g, dc, nc, n) <= 2 * (g.dev_terms.len() - g.na_dev),
    decreases n,
{
    if n > 0 {
        lemma_max_le(g, dc, nc, n - 1);
        lemma_class_count_le(dc, g.na_dev as int, g.dev_terms.len() as int, dc[n - 1]);
    }
}

/// The class-size bound is within the size of the full search tree.
proof fn lemma_size_tree(g: &Graph, dc: Seq<u64>, nc: Seq<u64>)
    requires
        g.na_dev <= g.dev_terms.len(),
    ensures
        search_size(g, dc, nc) <= tree_bound(g.na_dev as nat, (2 * (g.dev_terms.len() - g.na_dev)) as nat),
{
    let m = (2 * (g.dev_terms.len() - g.na_dev)) as nat;
    lemma_max_le(g, dc, nc, g.na_dev as int);
    lemma_search_bound_mono(
        g.na_dev as nat,
        max_trial_width(g, dc, g.na_dev as int),
        max_branch_width(g, dc, nc, g.na_dev as int),
        m,
        m,
    );
    lemma_search_bound_tree(g.na_dev as nat, m);
}

proof fn lemma_max_bounded(g: &Graph, dc: Seq<u64>, nc: Seq<u64>, n: int, t: nat, b: nat)
    requires
        forall|i: int| 0 <= i < n ==> #[trigger] trial_width(g, dc, i) <= t && branch_width(g, dc, nc, i) <= b,
    ensures
        max_trial_width(g, dc, n) <= t,
        max_branch_width(g, dc, nc, n) <= b,
    decreases n,
{
    if n > 0 {
        lemma_max_bounded(g, dc, nc, n - 1, t, b);
        assert(trial_width(g, dc, n - 1) <= t && branch_width(g, dc, nc, n - 1) <= b);
    }
}

proof fn lemma_search_bound_line(r: nat)
    ensures
        search_bound(r, 2, 1) == 2 * r,
    decreases r,
{
    if r > 0 {
        lemma_search_bound_line((r - 1) as nat);
    }
}

/// A circuit whose devices the refinement tells apart (each colour class
/// of a device of A holds one device of B) and whose MOSFETs have source and
/// drain on nets of different colours is searched in one forward pass: at
/// most two trials per device.
pub proof fn lemma_asymmetric_one_pass(g: &Graph, dc: Seq<u64>, nc: Seq<u64>)
    requires
        forall|i: int|
            0 <= i < g.na_dev ==> #[trigger] class_count(dc, g.na_dev as int, g.dev_terms.len() as int, dc[i]) <= 1 && (has_sd(g, i)
                ==> nc[g.dev_terms@[i]@[0] as int] != nc[g.dev_terms@[i]@[2] as int]),
    ensures
        search_size(g, dc, nc) <= 2 * g.na_dev,
{
    assert forall|i: int| 0 <= i < g.na_dev implies #[trigger] trial_width(g, dc, i) <= 2 && branch_width(g, dc, nc, i) <= 1 by {
        assert(class_count(dc, g.na_dev as int, g.dev_terms.len() as int, dc[i]) <= 1);
    }
    lemma_max_bounded(g, dc, nc, g.na_dev as int, 2, 1);
    lemma_search_bound_mono(g.na_dev as nat, max_trial_width(g, dc, g.na_dev as int), max_branch_width(g, dc, nc, g.na_dev as int), 2, 1);
    lemma_search_bound_line(g.na_dev as nat);
}

/// The bound grows with the widths.
proof fn lemma_search_bound_mono(r: nat, t1: nat, b1: nat, t2: nat, b2: nat)
    requires
        t1 <= t2,
        b1 <= b2,
    ensures
        search_bound(r, t1, b1) <= search_bound(r, t2, b2),
    decreases r,
{
    if r > 0 {
        lemma_search_bound_mono((r - 1) as nat, t1, b1, t2, b2);
        let x1 = search_bound((r - 1) as nat, t1, b1);
        let x2 = search_bound((r - 1) as nat, t2, b2);
        assert(b1 * x1 <= b2 * x2) by (nonlinear_arith)
            requires
                b1 <= b2,
                x1 <= x2,
        ;
    }
}

/// With `m` trials a level, all of which may open the next, the bound is the
/// size of the full search tree.
proof fn lemma_search_bound_tree(r: nat, m: nat)
    ensures
        search_bound(r, m, m) == tree_bound(r, m),
    decreases r,
{
    if r > 0 {
        lemma_search_bound_tree((r - 1) as nat, m);
        let x = tree_bound((r - 1) as nat, m);
        assert(m * (1 + x) == m + m * x) by (nonlinear_arith);
    }
}

/// Every terminal of `g` is one of `n` nets.
pub open spec fn terms_below(g: &Graph, n: nat) -> bool {
    forall|d: int, p: int|
        0 <= d < g.dev_terms.len() && 0 <= p < g.dev_terms@[d]@.len() ==> #[trigger] g.dev_terms@[d]@[p] < n
}

/// What the search needs of a graph and its colours.
pub open spec fn search_ok(g: &Graph, dc: Seq<u64>, nc: Seq<u64>) -> bool {
    &&& g.dev_kind.len() == g.dev_terms.len()
    &&& dc.len() == g.dev_terms.len()
    &&& g.na_dev <= g.dev_terms.len()
    &&& g.na_net <= nc.len()
    &&& terms_below(g, nc.len())
}

/// Every entry of `m` is `usize::MAX` (unbound) or a net index below `n`.
pub open spec fn binding_ok(m: Seq<usize>, n: nat) -> bool {
    &&& m.len() == n
    &&& forall|k: int| 0 <= k < m.len() ==> (#[trigger] m[k] == usize::MAX || m[k] < n)
}

/// `nm` and `rv` are inverse partial maps: each bound net of A names a net of
/// B that names it back, and the other way round.
pub open spec fn inverse(nm: Seq<usize>, rv: Seq<usize>) -> bool {
    &&& forall|a: int| 0 <= a < nm.len() && #[trigger] nm[a] != usize::MAX ==> rv[nm[a] as int] == a
    &&& forall|b: int| 0 <= b < rv.len() && #[trigger] rv[b] != usize::MAX ==> nm[rv[b] as int] == b
}

/// Every net bound by `nm` is bound to a net of its own colour.
pub open spec fn colours_kept(nm: Seq<usize>, nc: Seq<u64>) -> bool {
    forall|a: int| 0 <= a < nm.len() && #[trigger] nm[a] != usize::MAX ==> nc[a] == nc[nm[a] as int]
}

/// `nm` binds each terminal net of a device with terminals `ta` to the net on
/// the matching terminal `tb` of its partner, in orientation `o`.
pub open spec fn binds_terms(nm: Seq<usize>, ta: Seq<usize>, tb: Seq<usize>, kind: char, o: bool) -> bool {
    forall|p: int| 0 <= p < ta.len() ==> #[trigger] nm[ta[p] as int] == tb[tpos(kind, ta.len(), o, p)]
}

/// `m` keeps every binding of `nm`.
pub open spec fn keeps(m: Seq<usize>, nm: Seq<usize>) -> bool {
    forall|a: int| 0 <= a < nm.len() && #[trigger] nm[a] != usize::MAX ==> m[a] == nm[a]
}

/// No two nets of A are bound to the same net of B.
pub open spec fn one_to_one(m: Seq<usize>) -> bool {
    forall|a1: int, a2: int|
        0 <= a1 < m.len() && 0 <= a2 < m.len() && a1 != a2 && #[trigger] m[a1] != usize::MAX ==> m[a1] != #[trigger] m[a2]
}

/// No one-to-one, colour-keeping binding that keeps `nm` binds the terminals
/// `ta` to `tb` in orientation `o`.
pub open spec fn no_binding(nm: Seq<usize>, nc: Seq<u64>, ta: Seq<usize>, tb: Seq<usize>, kind: char, o: bool) -> bool {
    forall|m: Seq<usize>|
        m.len() == nm.len() && keeps(m, nm) && one_to_one(m) && colours_kept(m, nc) ==> !#[trigger] binds_terms(m, ta, tb, kind, o)
}

/// The entries of `u` from `s` on were unbound in `nm0` and are distinct.
pub open spec fn fresh(nm0: Seq<usize>, s: int, u: Seq<usize>) -> bool {
    &&& forall|t: int| s <= t < u.len() ==> #[trigger] nm0[u[t] as int] == usize::MAX
    &&& forall|t1: int, t2: int| s <= t1 < u.len() && s <= t2 < u.len() && t1 != t2 ==> #[trigger] u[t1] != #[trigger] u[t2]
}

/// `nm1` differs from `nm0` only at the entries of `u` from `s` on.
pub open spec fn changed_only(nm0: Seq<usize>, nm1: Seq<usize>, s: int, u: Seq<usize>) -> bool {
    forall|a: int| 0 <= a < nm0.len() && #[trigger] nm1[a] != nm0[a] ==> exists|t: int| s <= t < u.len() && #[trigger] u[t] == a
}

/// `rv1` differs from `rv0` only at the partners (under `nm1`) of the entries
/// of `u` from `s` on, which were unbound in `rv0`.
pub open spec fn rev_changed_only(rv0: Seq<usize>, rv1: Seq<usize>, nm1: Seq<usize>, s: int, u: Seq<usize>) -> bool {
    &&& forall|j: int| 0 <= j < rv0.len() && #[trigger] rv1[j] != rv0[j] ==> exists|t: int| s <= t < u.len() && #[trigger] nm1[u[t] as int] == j
    &&& forall|t: int| s <= t < u.len() ==> #[trigger] rv0[nm1[u[t] as int] as int] == usize::MAX
}

fn copy_usizes(v: &Vec<usize>) -> (r: Vec<usize>)
    ensures
        r@ == v@,
{
    let mut r: Vec<usize> = Vec::new();
    let mut i: usize = 0;
    while i < v.len()
        invariant
            i <= v.len(),
            r@ == v@.take(i as int),
        decreases v.len() - i,
    {
        r.push(v[i]);
        proof {
            assert(v@.take(i + 1) =~= v@.take(i as int).push(v@[i as int]));
        }
        i += 1;
    }
    proof {
        assert(v@.take(i as int) =~= v@);
    }
    r
}

/// `nm` with every net listed in `u` unbound.
pub open spec fn unbind(nm: Seq<usize>, u: Seq<usize>) -> Seq<usize> {
    Seq::new(nm.len(), |i: int| if u.contains(i as usize) { usize::MAX } else { nm[i] })
}

/// `rv` with the partner of every net listed in `u` (under `nm`) unbound.
pub open spec fn unbind_rev(rv: Seq<usize>, nm: Seq<usize>, u: Seq<usize>) -> Seq<usize> {
    Seq::new(
        rv.len(),
        |j: int| if exists|t: int| 0 <= t < u.len() && #[trigger] nm[u[t] as int] == j { usize::MAX } else { rv[j] },
    )
}

/// Unbinds the nets listed in `undo`.
pub fn rollback(undo: &Vec<usize>, net_map: &mut Vec<usize>, rev_net: &mut Vec<usize>)
    requires
        binding_ok(old(net_map)@, old(net_map).len() as nat),
        old(rev_net).len() == old(net_map).len(),
        binding_ok(old(rev_net)@, old(net_map).len() as nat),
        forall|k: int| 0 <= k < undo.len() ==> #[trigger] undo@[k] < old(net_map).len(),
    ensures
        final(net_map).len() == old(net_map).len(),
        final(rev_net).len() == old(net_map).len(),
        binding_ok(final(net_map)@, old(net_map).len() as nat),
        binding_ok(final(rev_net)@, old(net_map).len() as nat),
        final(net_map)@ == unbind(old(net_map)@, undo@),
        final(rev_net)@ == unbind_rev(old(rev_net)@, old(net_map)@, undo@),
{
    let n = net_map.len();
    let ghost nm0 = net_map@;
    let ghost rv0 = rev_net@;
    let mut k: usize = 0;
    while k < undo.len()
        invariant
            k <= undo.len(),
            net_map.len() == n && rev_net.len() == n,
            n == nm0.len(),
            binding_ok(net_map@, n as nat),
            binding_ok(rev_net@, n as nat),
            forall|k: int| 0 <= k < undo.len() ==> #[trigger] undo@[k] < n,
            net_map@ == unbind(nm0, undo@.take(k as int)),
            rev_net@ == unbind_rev(rv0, nm0, undo@.take(k as int)),
        decreases undo.len() - k,
    {
        let a = undo[k];
        let m = net_map[a];
        let ghost u0 = undo@.take(k as int);
        let ghost u1 = undo@.take(k + 1);
        proof {
            assert(u1 =~= u0.push(a));
            assert(u0.contains(a) ==> m == usize::MAX);
            assert(!u0.contains(a) ==> m == nm0[a as int]);
        }
        if m != usize::MAX {
            rev_net.set(m, usize::MAX);
        }
        net_map.set(a, usize::MAX);
        proof {
            assert(net_map@ =~= unbind(nm0, u1)) by {
                assert forall|i: int| 0 <= i < n implies #[trigger] net_map@[i] == unbind(nm0, u1)[i] by {
                    assert(u1[k as int] == a);
                    if i == a as int {
                        assert(u1.contains(i as usize));
                    }
                    if u1.contains(i as usize) && i != a {
                        let t = choose|t: int| 0 <= t < u1.len() && u1[t] == i as usize;
                        assert(t < k);
                        assert(u0[t] == i as usize);
                    }
                    if u0.contains(i as usize) {
                        let t = choose|t: int| 0 <= t < u0.len() && u0[t] == i as usize;
                        assert(u1[t] == i as usize);
                    }
                }
            }
            assert(rev_net@ =~= unbind_rev(rv0, nm0, u1)) by {
                assert forall|j: int| 0 <= j < n implies #[trigger] rev_net@[j] == unbind_rev(rv0, nm0, u1)[j] by {
                    if exists|t: int| 0 <= t < u1.len() && #[trigger] nm0[u1[t] as int] == j {
                        let t = choose|t: int| 0 <= t < u1.len() && #[trigger] nm0[u1[t] as int] == j;
                        if t < k {
                            assert(u0[t] == u1[t]);
                            assert(nm0[u0[t] as int] == j);
                        } else {
                            assert(u1[t] == a);
                            if u0.contains(a) {
                                let t2 = choose|t2: int| 0 <= t2 < u0.len() && u0[t2] == a;
                                assert(nm0[u0[t2] as int] == j);
                            }
                        }
                    } else {
                        if exists|t: int| 0 <= t < u0.len() && #[trigger] nm0[u0[t] as int] == j {
                            let t = choose|t: int| 0 <= t < u0.len() && #[trigger] nm0[u0[t] as int] == j;
                            assert(u1[t] == u0[t]);
                            assert(nm0[u1[t] as int] == j);
                        }
                        assert(nm0[u1[k as int] as int] != j);
                    }
                }
            }
        }
        k += 1;
    }
    proof {
        assert(undo@.take(k as int) =~= undo@);
    }
}

/// The position on `db` that terminal `p` of `da` binds to: in orientation
/// `o` a MOSFET's source and drain (0 and 2) swap.
fn bpos(kind: char, n: usize, o: bool, p: usize) -> (r: usize)
    requires
        p < n,
    ensures
        r < n,
        r == tpos(kind, n as nat, o, p as int),
{
    if o && kind == 'M' && n >= 4 && p == 0 {
        2
    } else if o && kind == 'M' && n >= 4 && p == 2 {
        0
    } else {
        p
    }
}

/// Tries to bind every terminal net of device `da` to the matching terminal
/// net of `db` in orientation `o`; each new binding is recorded in `undo`. It
/// fails at the first terminal whose net is bound elsewhere, whose partner is
/// taken, or whose partner has another colour.
pub fn assign_device(
    da: usize,
    db: usize,
    o: bool,
    g: &Graph,
    nc: &Vec<u64>,
    net_map: &mut Vec<usize>,
    rev_net: &mut Vec<usize>,
    undo: &mut Vec<usize>,
) -> (ok: bool)
    requires
        g.dev_kind.len() == g.dev_terms.len(),
        terms_below(g, nc.len() as nat),
        da < g.dev_terms.len(),
        db < g.dev_terms.len(),
        g.dev_terms@[da as int].len() == g.dev_terms@[db as int].len(),
        old(net_map).len() == nc.len(),
        old(rev_net).len() == nc.len(),
        binding_ok(old(net_map)@, nc.len() as nat),
        binding_ok(old(rev_net)@, nc.len() as nat),
        inverse(old(net_map)@, old(rev_net)@),
        colours_kept(old(net_map)@, nc@),
        forall|k: int| 0 <= k < old(undo).len() ==> #[trigger] old(undo)@[k] < nc.len(),
    ensures
        final(net_map).len() == nc.len(),
        final(rev_net).len() == nc.len(),
        binding_ok(final(net_map)@, nc.len() as nat),
        binding_ok(final(rev_net)@, nc.len() as nat),
        inverse(final(net_map)@, final(rev_net)@),
        colours_kept(final(net_map)@, nc@),
        forall|k: int| 0 <= k < final(undo).len() ==> #[trigger] final(undo)@[k] < nc.len(),
        old(undo)@.is_prefix_of(final(undo)@),
        fresh(old(net_map)@, old(undo).len() as int, final(undo)@),
        changed_only(old(net_map)@, final(net_map)@, old(undo).len() as int, final(undo)@),
        rev_changed_only(old(rev_net)@, final(rev_net)@, final(net_map)@, old(undo).len() as int, final(undo)@),
        among(final(undo)@, old(undo).len() as int, g.dev_terms@[da as int]@, g.dev_terms@[da as int]@.len() as int),
        forall|t: int| old(undo).len() <= t < final(undo).len() ==> #[trigger] final(net_map)@[final(undo)@[t] as int] != usize::MAX,
        ok ==> binds_terms(final(net_map)@, g.dev_terms@[da as int]@, g.dev_terms@[db as int]@, g.dev_kind@[da as int], o),
        !ok ==> no_binding(old(net_map)@, nc@, g.dev_terms@[da as int]@, g.dev_terms@[db as int]@, g.dev_kind@[da as int], o),
{
    let ta = &g.dev_terms[da];
    let tb = &g.dev_terms[db];
    let kind = g.dev_kind[da];
    let n = ta.len();
    let nn = nc.len();
    let ghost nm0 = net_map@;
    let ghost rv0 = rev_net@;
    let ghost u0 = undo@;
    let ghost s = undo@.len() as int;
    proof {
        assert forall|p: int| 0 <= p < ta.len() implies #[trigger] ta@[p] < nn by {
            assert(g.dev_terms@[da as int]@[p] < nc.len());
        }
        assert forall|p: int| 0 <= p < tb.len() implies #[trigger] tb@[p] < nn by {
            assert(g.dev_terms@[db as int]@[p] < nc.len());
        }
        assert(u0.is_prefix_of(undo@));
    }
    let mut p: usize = 0;
    while p < n
        invariant
            p <= n == ta.len() == tb.len(),
            nn == nc.len() == nm0.len() == rv0.len(),
            kind == g.dev_kind@[da as int],
            ta@ == g.dev_terms@[da as int]@,
            tb@ == g.dev_terms@[db as int]@,
            forall|p: int| 0 <= p < ta.len() ==> #[trigger] ta@[p] < nn,
            forall|p: int| 0 <= p < tb.len() ==> #[trigger] tb@[p] < nn,
            net_map.len() == nn && rev_net.len() == nn,
            binding_ok(net_map@, nn as nat),
            binding_ok(rev_net@, nn as nat),
            inverse(net_map@, rev_net@),
            colours_kept(net_map@, nc@),
            forall|k: int| 0 <= k < undo.len() ==> #[trigger] undo@[k] < nn,
            s == u0.len(),
            nm0 == old(net_map)@,
            rv0 == old(rev_net)@,
            u0 == old(undo)@,
            u0.is_prefix_of(undo@),
            fresh(nm0, s, undo@),
            changed_only(nm0, net_map@, s, undo@),
            rev_changed_only(rv0, rev_net@, net_map@, s, undo@),
            among(undo@, s, ta@, p as int),
            forall|t: int| s <= t < undo.len() ==> #[trigger] net_map@[undo@[t] as int] != usize::MAX,
            forall|q: int| 0 <= q < p ==> #[trigger] net_map@[ta@[q] as int] == tb@[tpos(kind, n as nat, o, q)],
            keeps(net_map@, nm0),
        decreases n - p,
    {
        let a = ta[p];
        let bp = bpos(kind, n, o, p);
        let b = tb[bp];
        let ghost cur = net_map@;
        if net_map[a] != usize::MAX {
            if net_map[a] != b {
                proof {
                    lemma_fail_keeps(nm0, cur, nc@, ta@, tb@, kind, o, p as int, s, undo@);
                    assert forall|m: Seq<usize>|
                        m.len() == nm0.len() && keeps(m, nm0) && one_to_one(m) && colours_kept(m, nc@) implies !#[trigger] binds_terms(
                        m,
                        ta@,
                        tb@,
                        kind,
                        o,
                    ) by {
                        if binds_terms(m, ta@, tb@, kind, o) {
                            assert(keeps(m, cur));
                            assert(m[ta@[p as int] as int] == tb@[tpos(kind, ta@.len(), o, p as int)]);
                        }
                    }
                }
                return false;
            }
        } else if rev_net[b] != usize::MAX {
            proof {
                lemma_fail_keeps(nm0, cur, nc@, ta@, tb@, kind, o, p as int, s, undo@);
                let a2 = rev_net@[b as int];
                assert(cur[a2 as int] == b);
                assert forall|m: Seq<usize>|
                    m.len() == nm0.len() && keeps(m, nm0) && one_to_one(m) && colours_kept(m, nc@) implies !#[trigger] binds_terms(
                    m,
                    ta@,
                    tb@,
                    kind,
                    o,
                ) by {
                    if binds_terms(m, ta@, tb@, kind, o) {
                        assert(keeps(m, cur));
                        assert(m[a2 as int] == b);
                        assert(m[ta@[p as int] as int] == tb@[tpos(kind, ta@.len(), o, p as int)]);
                        assert(m[a as int] == b);
                        assert(a2 != a);
                    }
                }
            }
            return false;
        } else if nc[a] != nc[b] {
            proof {
                assert forall|m: Seq<usize>|
                    m.len() == nm0.len() && keeps(m, nm0) && one_to_one(m) && colours_kept(m, nc@) implies !#[trigger] binds_terms(
                    m,
                    ta@,
                    tb@,
                    kind,
                    o,
                ) by {
                    if binds_terms(m, ta@, tb@, kind, o) {
                        assert(m[ta@[p as int] as int] == tb@[tpos(kind, ta@.len(), o, p as int)]);
                        assert(m[a as int] == b);
                        assert(m[a as int] != usize::MAX);
                    }
                }
            }
            return false;
        } else {
            let ghost rv = rev_net@;
            let ghost uu = undo@;
            net_map.set(a, b);
            rev_net.set(b, a);
            undo.push(a);
            proof {
                assert(uu.is_prefix_of(undo@));
                assert(undo@.subrange(0, s) =~= uu.subrange(0, s));
                assert(nm0[a as int] == usize::MAX) by {
                    if nm0[a as int] != usize::MAX {
                        assert(cur[a as int] == nm0[a as int]);
                    }
                }
                assert forall|t1: int, t2: int|
                    s <= t1 < undo@.len() && s <= t2 < undo@.len() && t1 != t2 implies #[trigger] undo@[t1] != #[trigger] undo@[t2] by {
                    if t1 == uu.len() as int {
                        assert(cur[undo@[t2] as int] != usize::MAX) by {
                            let q = choose|q: int| 0 <= q < p && uu[t2] == #[trigger] ta@[q];
                            assert(cur[ta@[q] as int] == tb@[tpos(kind, n as nat, o, q)]);
                        }
                    } else if t2 == uu.len() as int {
                        assert(cur[undo@[t1] as int] != usize::MAX) by {
                            let q = choose|q: int| 0 <= q < p && uu[t1] == #[trigger] ta@[q];
                            assert(cur[ta@[q] as int] == tb@[tpos(kind, n as nat, o, q)]);
                        }
                    } else {
                        assert(uu[t1] != uu[t2]);
                    }
                }
                assert forall|x: int| 0 <= x < nm0.len() && #[trigger] net_map@[x] != nm0[x] implies exists|t: int|
                    s <= t < undo@.len() && #[trigger] undo@[t] == x by {
                    if x == a as int {
                        assert(undo@[uu.len() as int] == x);
                    } else {
                        let t = choose|t: int| s <= t < uu.len() && #[trigger] uu[t] == x;
                        assert(undo@[t] == x);
                    }
                }
                assert forall|j: int| 0 <= j < rv0.len() && #[trigger] rev_net@[j] != rv0[j] implies exists|t: int|
                    s <= t < undo@.len() && #[trigger] net_map@[undo@[t] as int] == j by {
                    if j == b as int {
                        assert(net_map@[undo@[uu.len() as int] as int] == j);
                    } else {
                        let t = choose|t: int| s <= t < uu.len() && #[trigger] cur[uu[t] as int] == j;
                        assert(undo@[t] == uu[t]);
                        assert(uu[t] != a) by {
                            assert(nm0[uu[t] as int] == usize::MAX);
                        }
                        assert(net_map@[undo@[t] as int] == j);
                    }
                }
                assert forall|t: int| s <= t < undo@.len() implies #[trigger] rv0[net_map@[undo@[t] as int] as int] == usize::MAX by {
                    if t == uu.len() as int {
                        assert(rv[b as int] == usize::MAX);
                        if rv0[b as int] != usize::MAX {
                            assert(rv[b as int] == rv0[b as int]) by {
                                if rv[b as int] != rv0[b as int] {
                                    let t3 = choose|t3: int| s <= t3 < uu.len() && #[trigger] cur[uu[t3] as int] == b as int;
                                }
                            }
                        }
                    } else {
                        assert(undo@[t] == uu[t]);
                        assert(uu[t] != a);
                    }
                }
                assert forall|t: int| s <= t < undo@.len() implies exists|q: int| 0 <= q < p + 1 && #[trigger] undo@[t] == ta@[q] by {
                    if t == uu.len() as int {
                        assert(undo@[t] == ta@[p as int]);
                    } else {
                        let q = choose|q: int| 0 <= q < p && uu[t] == #[trigger] ta@[q];
                        assert(undo@[t] == ta@[q]);
                    }
                }
                assert forall|q: int| 0 <= q < p + 1 implies #[trigger] net_map@[ta@[q] as int] == tb@[tpos(kind, n as nat, o, q)] by {
                    if q < p {
                        assert(cur[ta@[q] as int] == tb@[tpos(kind, n as nat, o, q)]);
                        assert(ta@[q] != a);
                    }
                }
                assert forall|x: int| 0 <= x < net_map@.len() && #[trigger] net_map@[x] != usize::MAX implies rev_net@[net_map@[x] as int] == x by {
                    if x != a as int {
                        assert(cur[x] != b) by {
                            if cur[x] == b {
                                assert(rv[b as int] == x);
                            }
                        }
                    }
                }
                assert forall|y: int| 0 <= y < rev_net@.len() && #[trigger] rev_net@[y] != usize::MAX implies net_map@[rev_net@[y] as int] == y by {
                    if y != b as int {
                        assert(rv[y] != a) by {
                            if rv[y] == a {
                                assert(cur[a as int] == y);
                            }
                        }
                    }
                }
            }
        }
        p += 1;
    }
    proof {
        assert(n as nat == ta@.len());
    }
    true
}

/// Each entry of `u` from `s` on is one of the first `p` terminals `ta`.
pub open spec fn among(u: Seq<usize>, s: int, ta: Seq<usize>, p: int) -> bool {
    forall|t: int| s <= t < u.len() ==> exists|q: int| 0 <= q < p && #[trigger] u[t] == ta[q]
}

/// Any binding that binds the terminals of `ta` and keeps `nm0` keeps every
/// binding made so far.
proof fn lemma_fail_keeps(
    nm0: Seq<usize>,
    cur: Seq<usize>,
    nc: Seq<u64>,
    ta: Seq<usize>,
    tb: Seq<usize>,
    kind: char,
    o: bool,
    p: int,
    s: int,
    u: Seq<usize>,
)
    requires
        cur.len() == nm0.len(),
        fresh(nm0, s, u),
        changed_only(nm0, cur, s, u),
        among(u, s, ta, p),
        forall|q: int| 0 <= q < p ==> #[trigger] cur[ta[q] as int] == tb[tpos(kind, ta.len(), o, q)],
        p <= ta.len(),
    ensures
        forall|m: Seq<usize>| m.len() == nm0.len() && keeps(m, nm0) && #[trigger] binds_terms(m, ta, tb, kind, o) ==> keeps(m, cur),
{
    assert forall|m: Seq<usize>| m.len() == nm0.len() && keeps(m, nm0) && #[trigger] binds_terms(m, ta, tb, kind, o) implies keeps(m, cur) by {
        assert forall|x: int| 0 <= x < cur.len() && #[trigger] cur[x] != usize::MAX implies m[x] == cur[x] by {
            if cur[x] != nm0[x] {
                let t = choose|t: int| s <= t < u.len() && #[trigger] u[t] == x;
                let q = choose|q: int| 0 <= q < p && u[t] == #[trigger] ta[q];
                assert(cur[ta[q] as int] == tb[tpos(kind, ta.len(), o, q)]);
                assert(m[ta[q] as int] == tb[tpos(kind, ta.len(), o, q)]);
            }
        }
    }
}

/// Terminal `p` of a device of `kind` with `n` terminals corresponds, in
/// orientation `o`, to this terminal of its partner: a MOSFET's source and
/// drain swap when `o` holds.
pub open spec fn tpos(kind: char, n: nat, o: bool, p: int) -> int {
    if o && kind == 'M' && n >= 4 && (p == 0 || p == 2) {
        2 - p
    } else {
        p
    }
}

/// The devices of B of colour `c`, as grouped in `groups` by `gmap`.
fn cand_list(gmap: &HashMapWithView<u64, usize>, groups: &Vec<Vec<usize>>, c: u64, ndev: usize) -> (r: Vec<usize>)
    requires
        forall|c: u64| #[trigger] gmap@.contains_key(c) ==> gmap@[c] < groups.len(),
        forall|k: int, t: int| 0 <= k < groups.len() && 0 <= t < groups@[k].len() ==> #[trigger] groups@[k]@[t] < ndev,
    ensures
        forall|t: int| 0 <= t < r.len() ==> #[trigger] r@[t] < ndev,
        gmap@.contains_key(c) ==> r@ == groups@[gmap@[c] as int]@,
        !gmap@.contains_key(c) ==> r@.len() == 0,
{
    match gmap.get(&c) {
        Some(k) => {
            let r = copy_usizes(&groups[*k]);
            proof {
                assert forall|t: int| 0 <= t < r.len() implies #[trigger] r@[t] < ndev by {
                    assert(groups@[*k as int]@[t] < ndev);
                }
            }
            r
        },
        None => Vec::new(),
    }
}

/// The terminals of device `d`.
pub open spec fn terms_of(g: &Graph, d: usize) -> Seq<usize> {
    g.dev_terms@[d as int]@
}

/// The pairing `map` found over `g` is one a caller can rely on: each device
/// of A once, each device of B at most once, partners of the same colour and
/// arity, and one one-to-one, colour-keeping net binding that carries the
/// terminals of each device of A to those of its partner.
pub open spec fn found(g: &Graph, dc: Seq<u64>, nc: Seq<u64>, map: Seq<(usize, usize, bool)>) -> bool {
    &&& map.len() == g.na_dev
    &&& forall|k: int|
        0 <= k < map.len() ==> {
            &&& (#[trigger] map[k]).0 < g.na_dev
            &&& g.na_dev <= map[k].1 < g.dev_terms.len()
            &&& dc[map[k].0 as int] == dc[map[k].1 as int]
            &&& g.dev_terms@[map[k].0 as int].len() == g.dev_terms@[map[k].1 as int].len()
        }
    &&& forall|k: int, l: int|
        0 <= k < map.len() && 0 <= l < map.len() && k != l ==> (#[trigger] map[k]).0 != (#[trigger] map[l]).0 && map[k].1
            != map[l].1
    &&& exists|nm: Seq<usize>|
        nm.len() == nc.len() && one_to_one(nm) && colours_kept(nm, nc) && forall|k: int|
            0 <= k < map.len() ==> #[trigger] binds_terms(
                nm,
                terms_of(g, map[k].0),
                terms_of(g, map[k].1),
                g.dev_kind@[map[k].0 as int],
                map[k].2,
            )
}

/// A pairing of the devices of A given device by device: `f[i]` is the
/// partner (a device of B, by global index) of device `i` of A and its
/// orientation. Partners are distinct, of the same colour and arity, pairs
/// the test `compatible` cannot reject, and one one-to-one, colour-keeping
/// net binding `nm` carries every pair's terminals.
pub open spec fn pairing_by_dev<F: Fn(usize, usize) -> bool>(
    g: &Graph,
    dc: Seq<u64>,
    nc: Seq<u64>,
    f: Seq<(usize, bool)>,
    nm: Seq<usize>,
    compatible: &F,
) -> bool {
    &&& f.len() == g.na_dev
    &&& forall|i: int|
        0 <= i < f.len() ==> {
            &&& g.na_dev <= (#[trigger] f[i]).0 < g.dev_terms.len()
            &&& dc[f[i].0 as int] == dc[i]
            &&& g.dev_terms@[i].len() == g.dev_terms@[f[i].0 as int].len()
            &&& !compatible.ensures((i as usize, f[i].0), false)
        }
    &&& forall|i1: int, i2: int| 0 <= i1 < f.len() && 0 <= i2 < f.len() && i1 != i2 ==> (#[trigger] f[i1]).0 != (#[trigger] f[i2]).0
    &&& nm.len() == nc.len() && one_to_one(nm) && colours_kept(nm, nc)
    &&& forall|i: int| 0 <= i < f.len() ==> #[trigger] binds_terms(nm, terms_of(g, i as usize), terms_of(g, f[i].0), g.dev_kind@[i], f[i].1)
}

/// Pair `e` may place device `a` of A: a free device of B of its colour and
/// arity that the test cannot reject.
pub open spec fn step_ok<F: Fn(usize, usize) -> bool>(
    g: &Graph,
    dc: Seq<u64>,
    a: usize,
    e: (usize, usize, bool),
    used: Seq<bool>,
    compatible: &F,
) -> bool {
    &&& e.0 == a
    &&& g.na_dev <= e.1 < g.dev_terms.len()
    &&& dc[e.1 as int] == dc[a as int]
    &&& g.dev_terms@[a as int].len() == g.dev_terms@[e.1 as int].len()
    &&& !compatible.ensures((a, e.1), false)
    &&& !used[e.1 as int]
}

/// `p` and `nm` complete, from level `d` on, a search state whose net binding
/// is `nm0` and whose used devices of B are `used`: each later device of A
/// (in the order `a_devs`) gets a distinct acceptable partner, and `nm`
/// keeps `nm0` and binds every later pair's terminals.
pub open spec fn completes<F: Fn(usize, usize) -> bool>(
    g: &Graph,
    dc: Seq<u64>,
    nc: Seq<u64>,
    a_devs: Seq<usize>,
    d: int,
    nm0: Seq<usize>,
    used: Seq<bool>,
    compatible: &F,
    p: Seq<(usize, usize, bool)>,
    nm: Seq<usize>,
) -> bool {
    &&& p.len() == a_devs.len()
    &&& forall|k: int| d <= k < p.len() ==> #[trigger] step_ok(g, dc, a_devs[k], p[k], used, compatible)
    &&& forall|k1: int, k2: int| d <= k1 < p.len() && d <= k2 < p.len() && k1 != k2 ==> (#[trigger] p[k1]).1 != (#[trigger] p[k2]).1
    &&& nm.len() == nm0.len() && keeps(nm, nm0) && one_to_one(nm) && colours_kept(nm, nc)
    &&& forall|k: int|
        d <= k < p.len() ==> #[trigger] binds_terms(nm, terms_of(g, a_devs[k]), terms_of(g, p[k].1), g.dev_kind@[a_devs[k] as int], p[k].2)
}

/// No completion places device `a_devs[d]` on `db` in orientation `o`.
spec fn ruled_out_o<F: Fn(usize, usize) -> bool>(
    g: &Graph,
    dc: Seq<u64>,
    nc: Seq<u64>,
    a_devs: Seq<usize>,
    d: int,
    nm0: Seq<usize>,
    used: Seq<bool>,
    compatible: &F,
    db: usize,
    o: bool,
) -> bool {
    forall|p: Seq<(usize, usize, bool)>, nm: Seq<usize>|
        #[trigger] completes(g, dc, nc, a_devs, d, nm0, used, compatible, p, nm) ==> !(p[d].1 == db && p[d].2 == o)
}

/// No completion places device `a_devs[d]` on `db`.
spec fn ruled_out<F: Fn(usize, usize) -> bool>(
    g: &Graph,
    dc: Seq<u64>,
    nc: Seq<u64>,
    a_devs: Seq<usize>,
    d: int,
    nm0: Seq<usize>,
    used: Seq<bool>,
    compatible: &F,
    db: usize,
) -> bool {
    forall|p: Seq<(usize, usize, bool)>, nm: Seq<usize>|
        #[trigger] completes(g, dc, nc, a_devs, d, nm0, used, compatible, p, nm) ==> p[d].1 != db
}

/// The pairs placed so far: in the order `a_devs`, distinct devices of B of
/// the right colour and arity that the test accepted, marked used, whose
/// terminals `nm` binds.
spec fn placed_all_ok<F: Fn(usize, usize) -> bool>(
    g: &Graph,
    dc: Seq<u64>,
    a_devs: Seq<usize>,
    pl: Seq<(usize, usize, bool)>,
    nm: Seq<usize>,
    used: Seq<bool>,
    compatible: &F,
) -> bool {
    &&& pl.len() <= a_devs.len()
    &&& forall|k: int|
        0 <= k < pl.len() ==> {
            &&& (#[trigger] pl[k]).0 == a_devs[k]
            &&& g.na_dev <= pl[k].1 < g.dev_terms.len()
            &&& dc[pl[k].1 as int] == dc[pl[k].0 as int]
            &&& g.dev_terms@[pl[k].0 as int].len() == g.dev_terms@[pl[k].1 as int].len()
            &&& compatible.ensures((pl[k].0, pl[k].1), true)
            &&& binds_terms(nm, terms_of(g, pl[k].0), terms_of(g, pl[k].1), g.dev_kind@[pl[k].0 as int], pl[k].2)
            &&& used[pl[k].1 as int]
        }
    &&& forall|k1: int, k2: int| 0 <= k1 < pl.len() && 0 <= k2 < pl.len() && k1 != k2 ==> (#[trigger] pl[k1]).1 != (#[trigger] pl[k2]).1
}

/// The candidate groups: `gm` takes a colour to the group of devices of B of
/// that colour, and every device of B is in the group of its colour.
spec fn groups_ok(gm: Map<u64, usize>, groups: Seq<Vec<usize>>, dc: Seq<u64>, na: int, ndev: int) -> bool {
    &&& forall|c: u64| #[trigger] gm.contains_key(c) ==> gm[c] < groups.len()
    &&& forall|k: int, t: int| 0 <= k < groups.len() && 0 <= t < groups[k].len() ==> na <= #[trigger] groups[k]@[t] < ndev
    &&& forall|c: u64, t: int|
        gm.contains_key(c) && 0 <= t < groups[gm[c] as int].len() ==> dc[#[trigger] groups[gm[c] as int]@[t] as int] == c
    &&& forall|i: int| na <= i < ndev ==> #[trigger] in_group(gm, groups, dc, i)
    &&& forall|k: int| 0 <= k < groups.len() ==> #[trigger] groups[k].len() <= ndev - na
    &&& forall|c: u64| #[trigger] gm.contains_key(c) ==> groups[gm[c] as int].len() <= class_count(dc, na, ndev, c)
}

/// Device `i` is in the group of its colour.
spec fn in_group(gm: Map<u64, usize>, groups: Seq<Vec<usize>>, dc: Seq<u64>, i: int) -> bool {
    gm.contains_key(dc[i]) && exists|t: int| 0 <= t < groups[gm[dc[i]] as int].len() && groups[gm[dc[i]] as int]@[t] == i
}

proof fn lemma_child<F: Fn(usize, usize) -> bool>(
    g: &Graph,
    dc: Seq<u64>,
    nc: Seq<u64>,
    a_devs: Seq<usize>,
    d: int,
    nm0: Seq<usize>,
    nm1: Seq<usize>,
    used0: Seq<bool>,
    compatible: &F,
    u: Seq<usize>,
    db: usize,
    o: bool,
    p: Seq<(usize, usize, bool)>,
    nm: Seq<usize>,
)
    requires
        0 <= d < a_devs.len(),
        used0.len() == g.dev_terms.len(),
        completes(g, dc, nc, a_devs, d, nm0, used0, compatible, p, nm),
        p[d].1 == db,
        p[d].2 == o,
        nm1.len() == nm0.len(),
        fresh(nm0, 0, u),
        changed_only(nm0, nm1, 0, u),
        among(u, 0, terms_of(g, a_devs[d]), terms_of(g, a_devs[d]).len() as int),
        binds_terms(nm1, terms_of(g, a_devs[d]), terms_of(g, db), g.dev_kind@[a_devs[d] as int], o),
    ensures
        completes(g, dc, nc, a_devs, d + 1, nm1, used0.update(db as int, true), compatible, p, nm),
{
    let used1 = used0.update(db as int, true);
    let ta = terms_of(g, a_devs[d]);
    let tb = terms_of(g, db);
    let kind = g.dev_kind@[a_devs[d] as int];
    assert(binds_terms(nm, ta, tb, kind, o));
    assert(step_ok(g, dc, a_devs[d], p[d], used0, compatible));
    assert forall|k: int| d + 1 <= k < p.len() implies #[trigger] step_ok(g, dc, a_devs[k], p[k], used1, compatible) by {
        assert(step_ok(g, dc, a_devs[k], p[k], used0, compatible));
        assert(p[k].1 != p[d].1);
        assert(used1[p[k].1 as int] == used0[p[k].1 as int]);
    }
    assert forall|x: int| 0 <= x < nm1.len() && #[trigger] nm1[x] != usize::MAX implies nm[x] == nm1[x] by {
        if nm1[x] != nm0[x] {
            let t = choose|t: int| 0 <= t < u.len() && #[trigger] u[t] == x;
            let q = choose|q: int| 0 <= q < ta.len() && #[trigger] u[t] == ta[q];
            assert(nm1[ta[q] as int] == tb[tpos(kind, ta.len(), o, q)]);
            assert(nm[ta[q] as int] == tb[tpos(kind, ta.len(), o, q)]);
        } else {
            assert(nm0[x] != usize::MAX);
        }
    }
}

proof fn lemma_flip<F: Fn(usize, usize) -> bool>(
    g: &Graph,
    dc: Seq<u64>,
    nc: Seq<u64>,
    a_devs: Seq<usize>,
    d: int,
    nm0: Seq<usize>,
    used0: Seq<bool>,
    compatible: &F,
    db: usize,
)
    requires
        0 <= d < a_devs.len(),
        !(g.dev_kind@[a_devs[d] as int] == 'M' && terms_of(g, a_devs[d]).len() >= 4),
        ruled_out_o(g, dc, nc, a_devs, d, nm0, used0, compatible, db, false),
    ensures
        ruled_out(g, dc, nc, a_devs, d, nm0, used0, compatible, db),
{
    assert forall|p: Seq<(usize, usize, bool)>, nm: Seq<usize>|
        #[trigger] completes(g, dc, nc, a_devs, d, nm0, used0, compatible, p, nm) implies p[d].1 != db by {
        if p[d].1 == db {
            let p2 = p.update(d, (p[d].0, p[d].1, false));
            let ta = terms_of(g, a_devs[d]);
            let tb = terms_of(g, db);
            let kind = g.dev_kind@[a_devs[d] as int];
            assert(binds_terms(nm, ta, tb, kind, p[d].2));
            assert forall|q: int| 0 <= q < ta.len() implies #[trigger] nm[ta[q] as int] == tb[tpos(kind, ta.len(), false, q)] by {
                assert(nm[ta[q] as int] == tb[tpos(kind, ta.len(), p[d].2, q)]);
            }
            assert forall|k: int| d <= k < p2.len() implies #[trigger] step_ok(g, dc, a_devs[k], p2[k], used0, compatible) by {
                assert(step_ok(g, dc, a_devs[k], p[k], used0, compatible));
            }
            assert forall|k1: int, k2: int| d <= k1 < p2.len() && d <= k2 < p2.len() && k1 != k2 implies (#[trigger] p2[k1]).1 != (
            #[trigger] p2[k2]).1 by {
                assert(p[k1].1 != p[k2].1);
            }
            assert forall|k: int| d <= k < p2.len() implies #[trigger] binds_terms(
                nm,
                terms_of(g, a_devs[k]),
                terms_of(g, p2[k].1),
                g.dev_kind@[a_devs[k] as int],
                p2[k].2,
            ) by {
                if k != d {
                    assert(binds_terms(nm, terms_of(g, a_devs[k]), terms_of(g, p[k].1), g.dev_kind@[a_devs[k] as int], p[k].2));
                }
            }
            assert(completes(g, dc, nc, a_devs, d, nm0, used0, compatible, p2, nm));
        }
    }
}

proof fn lemma_nobind<F: Fn(usize, usize) -> bool>(
    g: &Graph,
    dc: Seq<u64>,
    nc: Seq<u64>,
    a_devs: Seq<usize>,
    d: int,
    nm0: Seq<usize>,
    used0: Seq<bool>,
    compatible: &F,
    db: usize,
    o: bool,
)
    requires
        0 <= d < a_devs.len(),
        no_binding(nm0, nc, terms_of(g, a_devs[d]), terms_of(g, db), g.dev_kind@[a_devs[d] as int], o),
    ensures
        ruled_out_o(g, dc, nc, a_devs, d, nm0, used0, compatible, db, o),
{
    assert forall|p: Seq<(usize, usize, bool)>, nm: Seq<usize>|
        #[trigger] completes(g, dc, nc, a_devs, d, nm0, used0, compatible, p, nm) implies !(p[d].1 == db && p[d].2 == o) by {
        if p[d].1 == db && p[d].2 == o {
            assert(binds_terms(nm, terms_of(g, a_devs[d]), terms_of(g, p[d].1), g.dev_kind@[a_devs[d] as int], p[d].2));
        }
    }
}

proof fn lemma_extend<F: Fn(usize, usize) -> bool>(
    g: &Graph,
    dc: Seq<u64>,
    nc: Seq<u64>,
    a_devs: Seq<usize>,
    pl: Seq<(usize, usize, bool)>,
    nm0: Seq<usize>,
    nm1: Seq<usize>,
    used0: Seq<bool>,
    compatible: &F,
    u: Seq<usize>,
    db: usize,
    o: bool,
)
    requires
        pl.len() < a_devs.len(),
        nm0.len() == nc.len() && nm1.len() == nc.len(),
        nc.len() <= usize::MAX,
        terms_below(g, nc.len()),
        g.dev_kind.len() == g.dev_terms.len(),
        used0.len() == g.dev_terms.len(),
        forall|k: int| 0 <= k < a_devs.len() ==> #[trigger] a_devs[k] < g.dev_terms.len(),
        placed_all_ok(g, dc, a_devs, pl, nm0, used0, compatible),
        g.na_dev <= db < g.dev_terms.len(),
        !used0[db as int],
        dc[db as int] == dc[a_devs[pl.len() as int] as int],
        g.dev_terms@[a_devs[pl.len() as int] as int].len() == g.dev_terms@[db as int].len(),
        compatible.ensures((a_devs[pl.len() as int], db), true),
        binds_terms(nm1, terms_of(g, a_devs[pl.len() as int]), terms_of(g, db), g.dev_kind@[a_devs[pl.len() as int] as int], o),
        fresh(nm0, 0, u),
        changed_only(nm0, nm1, 0, u),
    ensures
        placed_all_ok(g, dc, a_devs, pl.push((a_devs[pl.len() as int], db, o)), nm1, used0.update(db as int, true), compatible),
{
    let used1 = used0.update(db as int, true);
    let pl2 = pl.push((a_devs[pl.len() as int], db, o));
    assert forall|k: int| 0 <= k < pl.len() implies #[trigger] binds_terms(
        nm1,
        terms_of(g, pl[k].0),
        terms_of(g, pl[k].1),
        g.dev_kind@[pl[k].0 as int],
        pl[k].2,
    ) && pl[k].1 != db by {
        let ta = terms_of(g, pl[k].0);
        let tb = terms_of(g, pl[k].1);
        let kind = g.dev_kind@[pl[k].0 as int];
        assert(pl[k].0 == a_devs[k]);
        assert(binds_terms(nm0, ta, tb, kind, pl[k].2));
        assert forall|p: int| 0 <= p < ta.len() implies #[trigger] nm1[ta[p] as int] == tb[tpos(kind, ta.len(), pl[k].2, p)] by {
            lemma_tpos(kind, ta.len(), pl[k].2, p);
            assert(nm0[ta[p] as int] == tb[tpos(kind, ta.len(), pl[k].2, p)]);
            assert(g.dev_terms@[pl[k].1 as int]@[tpos(kind, ta.len(), pl[k].2, p)] < nc.len());
            assert(g.dev_terms@[pl[k].0 as int]@[p] < nc.len());
            if nm1[ta[p] as int] != nm0[ta[p] as int] {
                let t = choose|t: int| 0 <= t < u.len() && #[trigger] u[t] == ta[p] as int;
                assert(nm0[u[t] as int] == usize::MAX);
            }
        }
        assert(used0[pl[k].1 as int]);
    }
    assert forall|k: int| 0 <= k < pl2.len() implies {
        &&& (#[trigger] pl2[k]).0 == a_devs[k]
        &&& g.na_dev <= pl2[k].1 < g.dev_terms.len()
        &&& dc[pl2[k].1 as int] == dc[pl2[k].0 as int]
        &&& g.dev_terms@[pl2[k].0 as int].len() == g.dev_terms@[pl2[k].1 as int].len()
        &&& compatible.ensures((pl2[k].0, pl2[k].1), true)
        &&& binds_terms(nm1, terms_of(g, pl2[k].0), terms_of(g, pl2[k].1), g.dev_kind@[pl2[k].0 as int], pl2[k].2)
        &&& used1[pl2[k].1 as int]
    } by {
        if k < pl.len() {
            assert(pl2[k] == pl[k]);
        }
    }
    assert forall|k1: int, k2: int| 0 <= k1 < pl2.len() && 0 <= k2 < pl2.len() && k1 != k2 implies (#[trigger] pl2[k1]).1 != (
    #[trigger] pl2[k2]).1 by {
        if k1 < pl.len() && k2 < pl.len() {
            assert(pl2[k1] == pl[k1] && pl2[k2] == pl[k2]);
        } else if k1 < pl.len() {
            assert(pl2[k1] == pl[k1]);
        } else {
            assert(pl2[k2] == pl[k2]);
        }
    }
}

proof fn lemma_restore(nm0: Seq<usize>, rv0: Seq<usize>, nm1: Seq<usize>, rv1: Seq<usize>, u: Seq<usize>)
    requires
        nm1.len() == nm0.len(),
        nm0.len() <= usize::MAX,
        rv1.len() == rv0.len(),
        fresh(nm0, 0, u),
        changed_only(nm0, nm1, 0, u),
        rev_changed_only(rv0, rv1, nm1, 0, u),
    ensures
        unbind(nm1, u) == nm0,
        unbind_rev(rv1, nm1, u) == rv0,
{
    assert forall|a: int| 0 <= a < nm0.len() implies #[trigger] unbind(nm1, u)[a] == nm0[a] by {
        if u.contains(a as usize) {
            let t = choose|t: int| 0 <= t < u.len() && u[t] == a as usize;
            assert(nm0[u[t] as int] == usize::MAX);
            assert(u[t] as int == a);
            assert(unbind(nm1, u)[a] == usize::MAX);
        } else {
            if nm1[a] != nm0[a] {
                let t = choose|t: int| 0 <= t < u.len() && #[trigger] u[t] == a;
                assert(u[t] == a as usize);
                assert(u.contains(a as usize));
            }
            assert(unbind(nm1, u)[a] == nm1[a]);
        }
    }
    assert(unbind(nm1, u) =~= nm0);
    assert forall|j: int| 0 <= j < rv0.len() implies #[trigger] unbind_rev(rv1, nm1, u)[j] == rv0[j] by {
        if exists|t: int| 0 <= t < u.len() && #[trigger] nm1[u[t] as int] == j {
            let t = choose|t: int| 0 <= t < u.len() && #[trigger] nm1[u[t] as int] == j;
            assert(rv0[nm1[u[t] as int] as int] == usize::MAX);
        }
    }
    assert(unbind_rev(rv1, nm1, u) =~= rv0);
}

/// Some pair of `s` has `i` second.
spec fn has_index(s: Seq<(u64, u64)>, i: int) -> bool {
    exists|t: int| 0 <= t < s.len() && #[trigger] s[t].1 == i
}

/// `i` is an entry of `s`.
spec fn listed(s: Seq<usize>, i: int) -> bool {
    exists|k: int| 0 <= k < s.len() && #[trigger] s[k] == i
}

/// A device order with each device of A once: `v` holds `(key, i)` for each
/// `i < n`, and `s` is a rearrangement of it.
proof fn lemma_perm_distinct(v: Seq<(u64, u64)>, s: Seq<(u64, u64)>)
    requires
        forall|i: int| 0 <= i < v.len() ==> (#[trigger] v[i]).1 == i,
        s.to_multiset() == v.to_multiset(),
    ensures
        s.len() == v.len(),
        forall|t: int| 0 <= t < s.len() ==> (#[trigger] s[t]).1 < v.len(),
        forall|t1: int, t2: int| 0 <= t1 < s.len() && 0 <= t2 < s.len() && t1 != t2 ==> (#[trigger] s[t1]).1 != (#[trigger] s[t2]).1,
        forall|i: int| 0 <= i < v.len() ==> #[trigger] has_index(s, i),
{
    broadcast use vstd::seq_lib::group_to_multiset_ensures;


    assert(v.no_duplicates()) by {
        assert forall|i: int, j: int| 0 <= i < v.len() && 0 <= j < v.len() && i != j implies v[i] != v[j] by {
            assert(v[i].1 != v[j].1);
        }
    }
    v.lemma_multiset_has_no_duplicates();
    s.lemma_multiset_has_no_duplicates_conv();
    assert(s.len() == s.to_multiset().len());
    assert forall|t: int| 0 <= t < s.len() implies (#[trigger] s[t]).1 < v.len() && s[t] == v[s[t].1 as int] by {
        assert(s.to_multiset().count(s[t]) > 0);
        assert(v.contains(s[t]));
        let i = choose|i: int| 0 <= i < v.len() && v[i] == s[t];
        assert(v[i].1 == i);
    }
    assert forall|t1: int, t2: int| 0 <= t1 < s.len() && 0 <= t2 < s.len() && t1 != t2 implies (#[trigger] s[t1]).1 != (#[trigger] s[t2]).1 by {
        assert(s[t1] == v[s[t1].1 as int]);
        assert(s[t2] == v[s[t2].1 as int]);
        assert(s[t1] != s[t2]);
    }
    assert forall|i: int| 0 <= i < v.len() implies #[trigger] has_index(s, i) by {
        assert(v.to_multiset().count(v[i]) > 0);
        assert(s.contains(v[i]));
        let t = choose|t: int| 0 <= t < s.len() && s[t] == v[i];
        assert(s[t].1 == i);
    }
}

/// A strictly increasing sequence of integers in `[lo, hi)` has at most
/// `hi - lo` elements.
proof fn lemma_increasing_len(s: Seq<usize>, lo: int, hi: int)
    requires
        lo <= hi,
        forall|t: int| 0 <= t < s.len() ==> lo <= #[trigger] s[t] < hi,
        forall|t1: int, t2: int| 0 <= t1 < t2 < s.len() ==> #[trigger] s[t1] < #[trigger] s[t2],
    ensures
        s.len() <= hi - lo,
    decreases s.len(),
{
    if s.len() > 0 {
        let s2 = s.drop_last();
        assert(lo <= s[s.len() - 1] < hi);
        assert forall|t: int| 0 <= t < s2.len() implies lo <= #[trigger] s2[t] < hi - 1 by {
            assert(s[t] < s[s.len() - 1]);
        }
        lemma_increasing_len(s2, lo, hi - 1);
    }
}

proof fn lemma_mul_succ(t: nat, u: nat)
    ensures
        t * u + u == (t + 1) * u,
{
    assert(t * u + u == (t + 1) * u) by (nonlinear_arith);
}

proof fn lemma_mul_le(t: nat, m: nat, u: nat)
    requires
        t <= m,
    ensures
        t * u <= m * u,
{
    assert(t * u <= m * u) by (nonlinear_arith)
        requires
            t <= m,
    ;
}

proof fn lemma_tpos(kind: char, n: nat, o: bool, p: int)
    requires
        0 <= p < n,
    ensures
        0 <= tpos(kind, n, o, p) < n,
{
}


/// The candidates `c` of device `a` of A: the devices of B of its colour,
/// in group order.
spec fn cands_for(g: &Graph, dc: Seq<u64>, gm: Map<u64, usize>, groups: Seq<Vec<usize>>, a: usize, c: Seq<usize>) -> bool {
    &&& forall|t: int| 0 <= t < c.len() ==> g.na_dev <= #[trigger] c[t] < g.dev_terms.len() && dc[c[t] as int] == dc[a as int]
    &&& gm.contains_key(dc[a as int]) ==> c == groups[gm[dc[a as int]] as int]@
    &&& c.len() <= g.dev_terms.len() - g.na_dev
    &&& c.len() <= class_count(dc, g.na_dev as int, g.dev_terms.len() as int, dc[a as int])
}

/// The orientations tried for device `a`: two for a MOSFET with source and
/// drain, one otherwise.
spec fn orients_of(g: &Graph, a: usize) -> int {
    if g.dev_kind@[a as int] == 'M' && g.dev_terms@[a as int].len() >= 4 {
        2
    } else {
        1
    }
}

/// A consistent search state: inverse, colour-keeping net bindings and the
/// pairs placed so far.
spec fn state_ok<F: Fn(usize, usize) -> bool>(
    g: &Graph,
    dc: Seq<u64>,
    nc: Seq<u64>,
    a_devs: Seq<usize>,
    pl: Seq<(usize, usize, bool)>,
    nm: Seq<usize>,
    rv: Seq<usize>,
    used: Seq<bool>,
    compatible: &F,
) -> bool {
    &&& nm.len() == nc.len() && rv.len() == nc.len()
    &&& binding_ok(nm, nc.len() as nat) && binding_ok(rv, nc.len() as nat)
    &&& inverse(nm, rv) && colours_kept(nm, nc)
    &&& used.len() == g.dev_terms.len()
    &&& placed_all_ok(g, dc, a_devs, pl, nm, used, compatible)
}

/// At level `k`, entered with bindings `nm` and used devices `used`, the
/// candidates before `ci` are ruled out, and of candidate `ci` the first
/// `done` orientations.
spec fn tried<F: Fn(usize, usize) -> bool>(
    g: &Graph,
    dc: Seq<u64>,
    nc: Seq<u64>,
    a_devs: Seq<usize>,
    compatible: &F,
    k: int,
    nm: Seq<usize>,
    used: Seq<bool>,
    c: Seq<usize>,
    ci: int,
    done: int,
) -> bool {
    &&& forall|x: int| 0 <= x < ci ==> #[trigger] ruled_out(g, dc, nc, a_devs, k, nm, used, compatible, c[x])
    &&& ci < c.len() && done >= 1 ==> ruled_out_o(g, dc, nc, a_devs, k, nm, used, compatible, c[ci], false)
    &&& ci < c.len() && done >= 2 ==> ruled_out_o(g, dc, nc, a_devs, k, nm, used, compatible, c[ci], true)
}

/// Placing device `a` on `db` in orientation `o` took the state
/// (`nm0`, `rv0`, `u0`) to (`nm1`, `rv1`, `u1`), the new bindings being `undo`.
spec fn link(
    g: &Graph,
    nc: Seq<u64>,
    a: usize,
    nm0: Seq<usize>,
    rv0: Seq<usize>,
    u0: Seq<bool>,
    nm1: Seq<usize>,
    rv1: Seq<usize>,
    u1: Seq<bool>,
    undo: Seq<usize>,
    db: usize,
    o: bool,
) -> bool {
    &&& nm1.len() == nm0.len() && rv1.len() == rv0.len()
    &&& forall|t: int| 0 <= t < undo.len() ==> #[trigger] undo[t] < nc.len()
    &&& fresh(nm0, 0, undo)
    &&& changed_only(nm0, nm1, 0, undo)
    &&& rev_changed_only(rv0, rv1, nm1, 0, undo)
    &&& among(undo, 0, terms_of(g, a), terms_of(g, a).len() as int)
    &&& binds_terms(nm1, terms_of(g, a), terms_of(g, db), g.dev_kind@[a as int], o)
    &&& u1 == u0.update(db as int, true)
    &&& !u0[db as int]
}

/// The trials the subtree below level `k` may take (all its levels).
spec fn wb(n: nat, tm: nat, bm: nat, k: int) -> nat {
    search_bound((n - k - 1) as nat, tm, bm)
}

/// Placing `a` on `b` in orientation `o` puts every terminal net of `a` on a
/// net of its own colour.
spec fn colour_fit(g: &Graph, nc: Seq<u64>, a: int, b: int, o: bool) -> bool {
    forall|p: int|
        0 <= p < g.dev_terms@[a].len() ==> nc[#[trigger] g.dev_terms@[a]@[p] as int] == nc[g.dev_terms@[b]@[tpos(
            g.dev_kind@[a],
            g.dev_terms@[a]@.len(),
            o,
            p,
        )] as int]
}

/// A placement whose nets bind keeps colours.
proof fn lemma_fit_from_bind(g: &Graph, nc: Seq<u64>, nm: Seq<usize>, a: int, b: int, o: bool)
    requires
        nc.len() <= usize::MAX,
        terms_below(g, nc.len()),
        0 <= a < g.dev_terms.len(),
        0 <= b < g.dev_terms.len(),
        g.dev_kind.len() == g.dev_terms.len(),
        g.dev_terms@[a].len() == g.dev_terms@[b].len(),
        nm.len() == nc.len(),
        binds_terms(nm, g.dev_terms@[a]@, g.dev_terms@[b]@, g.dev_kind@[a], o),
        colours_kept(nm, nc),
    ensures
        colour_fit(g, nc, a, b, o),
{
    let ta = g.dev_terms@[a]@;
    let tb = g.dev_terms@[b]@;
    assert forall|p: int| 0 <= p < ta.len() implies nc[#[trigger] ta[p] as int] == nc[tb[tpos(g.dev_kind@[a], ta.len(), o, p)] as int] by {
        lemma_tpos(g.dev_kind@[a], ta.len(), o, p);
        let q = tpos(g.dev_kind@[a], ta.len(), o, p);
        assert(nm[ta[p] as int] == tb[q]);
        assert(tb[q] < nc.len());
        assert(ta[p] < nc.len());
    }
}

/// Where a MOSFET's source and drain are on nets of different colours, at
/// most one orientation of it on a given partner keeps colours.
proof fn lemma_orient_excl(g: &Graph, nc: Seq<u64>, a: int, b: int)
    requires
        has_sd(g, a),
        nc[g.dev_terms@[a]@[0] as int] != nc[g.dev_terms@[a]@[2] as int],
        colour_fit(g, nc, a, b, false),
    ensures
        !colour_fit(g, nc, a, b, true),
{
    let ta = g.dev_terms@[a]@;
    assert(nc[ta[0] as int] == nc[g.dev_terms@[b]@[tpos(g.dev_kind@[a], ta.len(), false, 0)] as int]);
    assert(nc[ta[2] as int] == nc[g.dev_terms@[b]@[tpos(g.dev_kind@[a], ta.len(), false, 2)] as int]);
    if colour_fit(g, nc, a, b, true) {
        assert(nc[ta[0] as int] == nc[g.dev_terms@[b]@[tpos(g.dev_kind@[a], ta.len(), true, 0)] as int]);
    }
}

/// Level `k` of the search stack is consistent: its candidates, its
/// progress, the state it was entered with and, below the top, the choice
/// it made, how that choice changed the state, and what it cost: `st[k]`
/// trials at the level, `sd[k]` of them opening the next level (`sdc[k]` on
/// the current candidate).
spec fn level_ok<F: Fn(usize, usize) -> bool>(
    g: &Graph,
    dc: Seq<u64>,
    nc: Seq<u64>,
    gm: Map<u64, usize>,
    groups: Seq<Vec<usize>>,
    a_devs: Seq<usize>,
    compatible: &F,
    fc: Seq<Seq<usize>>,
    fci: Seq<usize>,
    foi: Seq<usize>,
    fu: Seq<Seq<usize>>,
    snm: Seq<Seq<usize>>,
    srv: Seq<Seq<usize>>,
    su: Seq<Seq<bool>>,
    sb: Seq<int>,
    st: Seq<int>,
    sd: Seq<int>,
    sdc: Seq<int>,
    pl: Seq<(usize, usize, bool)>,
    tm: nat,
    bm: nat,
    k: int,
) -> bool {
    let c = fc[k];
    let a = a_devs[k];
    let top = k == fci.len() - 1;
    let o2 = has_sd(g, a as int);
    let b2 = o2 && nc[g.dev_terms@[a as int]@[0] as int] == nc[g.dev_terms@[a as int]@[2] as int];
    &&& cands_for(g, dc, gm, groups, a, c)
    &&& foi[k] <= orients_of(g, a)
    &&& fci[k] <= c.len()
    &&& (fci[k] == c.len() ==> foi[k] == 0)
    &&& state_ok(g, dc, nc, a_devs, pl.take(k), snm[k], srv[k], su[k], compatible)
    &&& tried(g, dc, nc, a_devs, compatible, k, snm[k], su[k], c, fci[k] as int, if top { foi[k] as int } else { foi[k] - 1 })
    &&& 0 <= st[k] <= (if o2 { 2 * fci[k] + foi[k] } else { fci[k] + foi[k] })
    &&& 0 <= sdc[k] <= foi[k]
    &&& (!b2 ==> sdc[k] <= 1)
    &&& 0 <= sd[k] <= (if b2 { 2 * fci[k] } else { fci[k] as int }) + sdc[k]
    &&& (o2 && sdc[k] >= 1 && foi[k] == 1 && fci[k] < c.len() ==> colour_fit(g, nc, a as int, c[fci[k] as int] as int, false))
    &&& st[k] <= tm && sd[k] <= bm
    &&& !top ==> {
        &&& fci[k] < c.len() && foi[k] >= 1 && sd[k] >= 1
        &&& pl[k] == (a, c[fci[k] as int], foi[k] == 2)
        &&& link(g, nc, a, snm[k], srv[k], su[k], snm[k + 1], srv[k + 1], su[k + 1], fu[k], c[fci[k] as int], foi[k] == 2)
        &&& sb[k] - sb[k + 1] <= st[k] + (sd[k] - 1) * wb(a_devs.len(), tm, bm, k)
    }
}

/// The trials spent since entering level `k` are bounded by what it has
/// done and the subtrees it opened.
proof fn lemma_chain(sb: Seq<int>, st: Seq<int>, sd: Seq<int>, n: nat, tm: nat, bm: nat, budget: int, k: int)
    requires
        0 <= k < sb.len() == st.len() == sd.len() <= n,
        forall|j: int|
            k <= j < sb.len() - 1 ==> 1 <= #[trigger] sd[j] && sb[j] - sb[j + 1] <= st[j] + (sd[j] - 1) * wb(n, tm, bm, j),
        forall|j: int| k <= j < sb.len() ==> 0 <= #[trigger] st[j] <= tm && 0 <= sd[j] <= bm,
        sb[sb.len() - 1] - budget <= st[sb.len() - 1] + sd[sb.len() - 1] * wb(n, tm, bm, sb.len() - 1),
    ensures
        sb[k] - budget <= st[k] + sd[k] * wb(n, tm, bm, k),
    decreases sb.len() - k,
{
    if k < sb.len() - 1 {
        lemma_chain(sb, st, sd, n, tm, bm, budget, k + 1);
        assert(0 <= st[k + 1] <= tm && 0 <= sd[k + 1] <= bm);
        assert(1 <= sd[k]);
        let w1 = wb(n, tm, bm, k + 1);
        let w0 = wb(n, tm, bm, k);
        lemma_mul_le(sd[k + 1] as nat, bm, w1);
        assert(w0 == tm + bm * w1);
        lemma_mul_succ((sd[k] - 1) as nat, w0);
    }
}

/// The trials spent since entering level `k0` are within its share.
proof fn lemma_chain_at<F: Fn(usize, usize) -> bool>(
    g: &Graph,
    dc: Seq<u64>,
    nc: Seq<u64>,
    gm: Map<u64, usize>,
    groups: Seq<Vec<usize>>,
    a_devs: Seq<usize>,
    compatible: &F,
    fc: Seq<Seq<usize>>,
    fci: Seq<usize>,
    foi: Seq<usize>,
    fu: Seq<Seq<usize>>,
    snm: Seq<Seq<usize>>,
    srv: Seq<Seq<usize>>,
    su: Seq<Seq<bool>>,
    sb: Seq<int>,
    st: Seq<int>,
    sd: Seq<int>,
    sdc: Seq<int>,
    pl: Seq<(usize, usize, bool)>,
    tm: nat,
    bm: nat,
    budget: int,
    k0: int,
)
    requires
        1 <= fci.len() <= a_devs.len(),
        sb.len() == fci.len() && st.len() == fci.len() && sd.len() == fci.len(),
        forall|k: int|
            0 <= k < fci.len() ==> #[trigger] level_ok(g, dc, nc, gm, groups, a_devs, compatible, fc, fci, foi, fu, snm, srv, su, sb, st, sd, sdc, pl, tm, bm, k),
        sb[fci.len() - 1] - budget <= st[fci.len() - 1] + sd[fci.len() - 1] * wb(a_devs.len(), tm, bm, fci.len() - 1),
        0 <= k0 < fci.len(),
    ensures
        sb[k0] - budget <= st[k0] + sd[k0] * wb(a_devs.len(), tm, bm, k0),
{
    assert forall|j: int| k0 <= j < sb.len() - 1 implies 1 <= #[trigger] sd[j] && sb[j] - sb[j + 1] <= st[j] + (sd[j] - 1) * wb(
        a_devs.len(),
        tm,
        bm,
        j,
    ) by {
        assert(level_ok(g, dc, nc, gm, groups, a_devs, compatible, fc, fci, foi, fu, snm, srv, su, sb, st, sd, sdc, pl, tm, bm, j));
    }
    assert forall|j: int| k0 <= j < sb.len() implies 0 <= #[trigger] st[j] <= tm && 0 <= sd[j] <= bm by {
        assert(level_ok(g, dc, nc, gm, groups, a_devs, compatible, fc, fci, foi, fu, snm, srv, su, sb, st, sd, sdc, pl, tm, bm, j));
    }
    lemma_chain(sb, st, sd, a_devs.len(), tm, bm, budget, k0);
}

/// All the trials made are within the bound, when the top level has made
/// `stop` trials and opened `sdop` subtrees.
proof fn lemma_steps_bound<F: Fn(usize, usize) -> bool>(
    g: &Graph,
    dc: Seq<u64>,
    nc: Seq<u64>,
    gm: Map<u64, usize>,
    groups: Seq<Vec<usize>>,
    a_devs: Seq<usize>,
    compatible: &F,
    fc: Seq<Seq<usize>>,
    fci: Seq<usize>,
    foi: Seq<usize>,
    fu: Seq<Seq<usize>>,
    snm: Seq<Seq<usize>>,
    srv: Seq<Seq<usize>>,
    su: Seq<Seq<bool>>,
    sb: Seq<int>,
    st: Seq<int>,
    sd: Seq<int>,
    sdc: Seq<int>,
    pl: Seq<(usize, usize, bool)>,
    tm: nat,
    bm: nat,
    stop: int,
    sdop: int,
    budget: int,
)
    requires
        1 <= fci.len() <= a_devs.len(),
        sb.len() == fci.len() && st.len() == fci.len() && sd.len() == fci.len(),
        forall|k: int|
            0 <= k < fci.len() - 1 ==> #[trigger] level_ok(g, dc, nc, gm, groups, a_devs, compatible, fc, fci, foi, fu, snm, srv, su, sb, st, sd, sdc, pl, tm, bm, k),
        0 <= stop <= tm,
        0 <= sdop <= bm,
        sb[fci.len() - 1] - budget <= stop + sdop * wb(a_devs.len(), tm, bm, fci.len() - 1),
    ensures
        sb[0] - budget <= search_bound(a_devs.len(), tm, bm),
{
    let l = fci.len() - 1;
    let st2 = st.update(l, stop);
    let sd2 = sd.update(l, sdop);
    assert forall|j: int| 0 <= j < sb.len() - 1 implies 1 <= #[trigger] sd2[j] && sb[j] - sb[j + 1] <= st2[j] + (sd2[j] - 1) * wb(
        a_devs.len(),
        tm,
        bm,
        j,
    ) by {
        assert(level_ok(g, dc, nc, gm, groups, a_devs, compatible, fc, fci, foi, fu, snm, srv, su, sb, st, sd, sdc, pl, tm, bm, j));
    }
    assert forall|j: int| 0 <= j < sb.len() implies 0 <= #[trigger] st2[j] <= tm && 0 <= sd2[j] <= bm by {
        if j < l {
            assert(level_ok(g, dc, nc, gm, groups, a_devs, compatible, fc, fci, foi, fu, snm, srv, su, sb, st, sd, sdc, pl, tm, bm, j));
        }
    }
    lemma_chain(sb, st2, sd2, a_devs.len(), tm, bm, budget, 0);
    lemma_mul_le(sd2[0] as nat, bm, wb(a_devs.len(), tm, bm, 0));
    assert(search_bound(a_devs.len(), tm, bm) == tm + bm * wb(a_devs.len(), tm, bm, 0));
}

/// The depth-first search over the devices of A, in the order `a_devs`,
/// with an explicit stack of levels: level `k` tries the candidates of
/// device `a_devs[k]` in group order, each in each orientation, spending one
/// unit of the budget per trial; an acceptable placement whose nets bind
/// opens the next level, and a level whose candidates are exhausted is
/// closed, its parent's placement undone and the parent's next
/// orientation, then next candidate, tried. Returns the outcome and the
/// number of trials made.
#[verifier::rlimit(100)]
#[verifier::spinoff_prover]
fn explore<F: Fn(usize, usize) -> bool>(
    g: &Graph,
    dc: &Vec<u64>,
    nc: &Vec<u64>,
    compatible: &F,
    a_devs: &Vec<usize>,
    gmap: &HashMapWithView<u64, usize>,
    groups: &Vec<Vec<usize>>,
    net_map: &mut Vec<usize>,
    rev_net: &mut Vec<usize>,
    dev_used: &mut Vec<bool>,
    placed: &mut Vec<(usize, usize, bool)>,
    Ghost(tm): Ghost<nat>,
    Ghost(bm): Ghost<nat>,
) -> (r: (Outcome, u64))
    requires
        search_ok(g, dc@, nc@),
        forall|i: usize, j: usize| compatible.requires((i, j)),
        1 <= a_devs.len() == g.na_dev,
        forall|k: int| 0 <= k < a_devs.len() ==> #[trigger] a_devs@[k] < g.na_dev,
        groups_ok(gmap@, groups@, dc@, g.na_dev as int, g.dev_terms.len() as int),
        forall|i: int| 0 <= i < g.na_dev ==> #[trigger] trial_width(g, dc@, i) <= tm && branch_width(g, dc@, nc@, i) <= bm,
        old(placed).len() == 0,
        state_ok(g, dc@, nc@, a_devs@, old(placed)@, old(net_map)@, old(rev_net)@, old(dev_used)@, compatible),
    ensures
        r.1 <= VERIFY_BUDGET,
        r.0 is Unresolved <==> r.1 == VERIFY_BUDGET,
        r.1 <= search_bound(a_devs.len() as nat, tm, bm),
        r.0 is Refuted ==> forall|p: Seq<(usize, usize, bool)>, nm: Seq<usize>|
            !#[trigger] completes(g, dc@, nc@, a_devs@, 0, old(net_map)@, old(dev_used)@, compatible, p, nm),
        r.0 is Verified ==> final(placed).len() == a_devs.len(),
        r.0 is Verified ==> state_ok(g, dc@, nc@, a_devs@, final(placed)@, final(net_map)@, final(rev_net)@, final(dev_used)@, compatible),
{
    let n = a_devs.len();
    let ndev = g.dev_terms.len();
    let ghost nm_init = net_map@;
    let ghost u_init = dev_used@;
    let mut fc: Vec<Vec<usize>> = Vec::new();
    let mut fci: Vec<usize> = Vec::new();
    let mut foi: Vec<usize> = Vec::new();
    let mut fu: Vec<Vec<usize>> = Vec::new();
    let c0 = cand_list(gmap, groups, dc[a_devs[0]], ndev);
    fc.push(c0);
    fci.push(0);
    foi.push(0);
    fu.push(Vec::new());
    let mut budget: u64 = VERIFY_BUDGET;
    let ghost mut snm: Seq<Seq<usize>> = seq![net_map@];
    let ghost mut srv: Seq<Seq<usize>> = seq![rev_net@];
    let ghost mut su: Seq<Seq<bool>> = seq![dev_used@];
    let ghost mut sb: Seq<int> = seq![VERIFY_BUDGET as int];
    let ghost mut st: Seq<int> = seq![0int];
    let ghost mut sd: Seq<int> = seq![0int];
    let ghost mut sdc: Seq<int> = seq![0int];
    proof {
        let c = dc@[a_devs@[0] as int];
        if gmap@.contains_key(c) {
            assert(groups@[gmap@[c] as int].len() <= ndev - g.na_dev);
        }
        assert(tv(fc@)[0] == c0@);
        assert(placed@.take(0) =~= placed@);
        assert(trial_width(g, dc@, a_devs@[0] as int) <= tm);
        assert(level_ok(g, dc@, nc@, gmap@, groups@, a_devs@, compatible, tv(fc@), fci@, foi@, tv(fu@), snm, srv, su, sb, st, sd, sdc, placed@, tm, bm, 0));
    }
    loop
        invariant
            search_ok(g, dc@, nc@),
            forall|i: usize, j: usize| compatible.requires((i, j)),
            1 <= n == a_devs.len() == g.na_dev,
            ndev == g.dev_terms.len(),
            forall|k: int| 0 <= k < a_devs.len() ==> #[trigger] a_devs@[k] < g.na_dev,
            groups_ok(gmap@, groups@, dc@, g.na_dev as int, g.dev_terms.len() as int),
            forall|i: int| 0 <= i < g.na_dev ==> #[trigger] trial_width(g, dc@, i) <= tm && branch_width(g, dc@, nc@, i) <= bm,
            1 <= fci.len() <= n,
            fc.len() == fci.len() && foi.len() == fci.len() && fu.len() == fci.len(),
            snm.len() == fci.len() && srv.len() == fci.len() && su.len() == fci.len(),
            sb.len() == fci.len() && st.len() == fci.len() && sd.len() == fci.len() && sdc.len() == fci.len(),
            placed.len() == fci.len() - 1,
            net_map@ == snm[fci.len() - 1],
            rev_net@ == srv[fci.len() - 1],
            dev_used@ == su[fci.len() - 1],
            snm[0] == nm_init && su[0] == u_init && sb[0] == VERIFY_BUDGET,
            nm_init == old(net_map)@ && u_init == old(dev_used)@,
            forall|k: int|
                0 <= k < fci.len() ==> #[trigger] level_ok(
                    g,
                    dc@,
                    nc@,
                    gmap@,
                    groups@,
                    a_devs@,
                    compatible,
                    tv(fc@),
                    fci@,
                    foi@,
                    tv(fu@),
                    snm,
                    srv,
                    su,
                    sb,
                    st,
                    sd,
                    sdc,
                    placed@,
                    tm,
                    bm,
                    k,
                ),
            1 <= budget <= VERIFY_BUDGET,
            sb[fci.len() - 1] - budget <= st[fci.len() - 1] + sd[fci.len() - 1] * wb(n as nat, tm, bm, fci.len() - 1),
        decreases budget, 2 * fci.len() + (if fci@[fci.len() - 1] < fc@[fci.len() - 1].len() && foi@[fci.len() - 1] == orients_of(
            g,
            a_devs@[fci.len() - 1],
        ) { 1int } else { 0int }),
    {
        let top = fci.len() - 1;
        let da = a_devs[top];
        let ci = fci[top];
        let oi = foi[top];
        let orients: usize = if g.dev_kind[da] == 'M' && g.dev_terms[da].len() >= 4 { 2 } else { 1 };
        let nct = fc[top].len();
        let ghost fc0 = tv(fc@);
        let ghost fci0 = fci@;
        let ghost foi0 = foi@;
        let ghost fu0 = tv(fu@);
        let ghost st0 = st;
        let ghost sd0 = sd;
        let ghost sdc0 = sdc;
        let ghost pl0 = placed@;
        let ghost cc = class_count(dc@, g.na_dev as int, ndev as int, dc@[da as int]);
        proof {
            assert(level_ok(g, dc@, nc@, gmap@, groups@, a_devs@, compatible, fc0, fci0, foi0, fu0, snm, srv, su, sb, st, sd, sdc, pl0, tm, bm, top as int));
            assert(fc0[top as int] == fc@[top as int]@);
            assert(trial_width(g, dc@, da as int) <= tm && branch_width(g, dc@, nc@, da as int) <= bm);
            assert(nct <= cc);
        }
        if ci < nct && oi < orients {
            let db = fc[top][ci];
            let o = oi == 1;
            foi.set(top, oi + 1);
            budget = budget - 1;
            proof {
                st = st.update(top as int, st0[top as int] + 1);
                assert(st[top as int] <= tm);
            }
            if budget == 0 {
                proof {
                    lemma_steps_bound(g, dc@, nc@, gmap@, groups@, a_devs@, compatible, fc0, fci0, foi0, fu0, snm, srv, su, sb, st0, sd0, sdc0, pl0, tm, bm, st[top as int], sd0[top as int], budget as int);
                }
                return (Outcome::Unresolved, VERIFY_BUDGET);
            }
            let same_arity = g.dev_terms[da].len() == g.dev_terms[db].len();
            let mut excluded = dev_used[db] || !same_arity;
            if !excluded {
                excluded = !compatible(da, db);
            }
            if excluded {
                proof {
                    assert forall|p: Seq<(usize, usize, bool)>, nm: Seq<usize>|
                        #[trigger] completes(g, dc@, nc@, a_devs@, top as int, snm[top as int], su[top as int], compatible, p, nm) implies p[top as int].1 != db by {
                        assert(step_ok(g, dc@, a_devs@[top as int], p[top as int], su[top as int], compatible));
                    }
                    assert(ruled_out(g, dc@, nc@, a_devs@, top as int, snm[top as int], su[top as int], compatible, db));
                }
                fci.set(top, ci + 1);
                foi.set(top, 0);
                proof {
                    sdc = sdc.update(top as int, 0);
                    assert forall|k: int| 0 <= k < top implies #[trigger] level_ok(g, dc@, nc@, gmap@, groups@, a_devs@, compatible, tv(fc@), fci@, foi@, tv(fu@), snm, srv, su, sb, st, sd, sdc, placed@, tm, bm, k) by {
                        assert(level_ok(g, dc@, nc@, gmap@, groups@, a_devs@, compatible, fc0, fci0, foi0, fu0, snm, srv, su, sb, st0, sd0, sdc0, pl0, tm, bm, k));
                    }
                    assert(level_ok(g, dc@, nc@, gmap@, groups@, a_devs@, compatible, tv(fc@), fci@, foi@, tv(fu@), snm, srv, su, sb, st, sd, sdc, placed@, tm, bm, top as int));
                }
                continue;
            }
            let mut undo: Vec<usize> = Vec::new();
            let ghost nm_before = net_map@;
            let ok = assign_device(da, db, o, g, nc, net_map, rev_net, &mut undo);
            if ok {
                proof {
                    assert(pl0.take(top as int) =~= pl0);
                    lemma_extend(g, dc@, nc@, a_devs@, pl0, snm[top as int], net_map@, su[top as int], compatible, undo@, db, o);
                    lemma_fit_from_bind(g, nc@, net_map@, da as int, db as int, o);
                    if oi == 1 && sdc0[top as int] >= 1 && !(nc@[g.dev_terms@[da as int]@[0] as int] == nc@[g.dev_terms@[da as int]@[2] as int]) {
                        lemma_orient_excl(g, nc@, da as int, db as int);
                    }
                }
                dev_used.set(db, true);
                placed.push((da, db, o));
                if top + 1 == n {
                    proof {
                        lemma_steps_bound(g, dc@, nc@, gmap@, groups@, a_devs@, compatible, fc0, fci0, foi0, fu0, snm, srv, su, sb, st0, sd0, sdc0, pl0, tm, bm, st[top as int], sd0[top as int], budget as int);
                    }
                    return (Outcome::Verified, VERIFY_BUDGET - budget);
                }
                let ghost snm0d = snm;
                let ghost srv0d = srv;
                let ghost su0d = su;
                let ghost sb0d = sb;
                fu.set(top, undo);
                let cn = cand_list(gmap, groups, dc[a_devs[top + 1]], ndev);
                fc.push(cn);
                fci.push(0);
                foi.push(0);
                fu.push(Vec::new());
                proof {
                    sd = sd.update(top as int, sd0[top as int] + 1).push(0int);
                    sdc = sdc.update(top as int, sdc0[top as int] + 1).push(0int);
                    st = st.push(0int);
                    snm = snm.push(net_map@);
                    srv = srv.push(rev_net@);
                    su = su.push(dev_used@);
                    sb = sb.push(budget as int);
                    let c = dc@[a_devs@[top + 1] as int];
                    if gmap@.contains_key(c) {
                        assert(groups@[gmap@[c] as int].len() <= ndev - g.na_dev);
                    }
                    assert(trial_width(g, dc@, a_devs@[top + 1] as int) <= tm);
                    assert(snm.drop_last() =~= snm0d && srv.drop_last() =~= srv0d && su.drop_last() =~= su0d && sb.drop_last() =~= sb0d);
                    assert(placed@.take(top as int) =~= pl0);
                    assert(placed@.take(top + 1) =~= placed@);
                    assert forall|k: int| 0 <= k < top implies #[trigger] level_ok(g, dc@, nc@, gmap@, groups@, a_devs@, compatible, tv(fc@), fci@, foi@, tv(fu@), snm, srv, su, sb, st, sd, sdc, placed@, tm, bm, k) by {
                        assert(level_ok(g, dc@, nc@, gmap@, groups@, a_devs@, compatible, fc0, fci0, foi0, fu0, snm0d, srv0d, su0d, sb0d, st0, sd0, sdc0, pl0, tm, bm, k));
                        assert(placed@.take(k) =~= pl0.take(k));
                    }
                    assert(tv(fc@)[top as int] == fc0[top as int]);
                    assert(tv(fu@)[top as int] == undo@);
                    assert(placed@[top as int] == (da, db, o));
                    assert(sd[top as int] - 1 == sd0[top as int]);
                    assert(sb[top as int] - sb[top + 1] <= st[top as int] + (sd[top as int] - 1) * wb(n as nat, tm, bm, top as int));
                    assert(link(g, nc@, da, snm[top as int], srv[top as int], su[top as int], snm[top + 1], srv[top + 1], su[top + 1], undo@, db, o));
                    assert(state_ok(g, dc@, nc@, a_devs@, placed@.take(top as int), snm[top as int], srv[top as int], su[top as int], compatible));
                    assert(tried(g, dc@, nc@, a_devs@, compatible, top as int, snm[top as int], su[top as int], fc0[top as int], ci as int, oi as int));
                    assert(level_ok(g, dc@, nc@, gmap@, groups@, a_devs@, compatible, tv(fc@), fci@, foi@, tv(fu@), snm, srv, su, sb, st, sd, sdc, placed@, tm, bm, top as int));
                    assert(level_ok(g, dc@, nc@, gmap@, groups@, a_devs@, compatible, tv(fc@), fci@, foi@, tv(fu@), snm, srv, su, sb, st, sd, sdc, placed@, tm, bm, top + 1));
                }
            } else {
                proof {
                    lemma_nobind(g, dc@, nc@, a_devs@, top as int, snm[top as int], su[top as int], compatible, db, o);
                }
                let ghost nm1 = net_map@;
                let ghost rv1 = rev_net@;
                rollback(&undo, net_map, rev_net);
                proof {
                    lemma_restore(snm[top as int], srv[top as int], nm1, rv1, undo@);
                    assert forall|k: int| 0 <= k < top implies #[trigger] level_ok(g, dc@, nc@, gmap@, groups@, a_devs@, compatible, tv(fc@), fci@, foi@, tv(fu@), snm, srv, su, sb, st, sd, sdc, placed@, tm, bm, k) by {
                        assert(level_ok(g, dc@, nc@, gmap@, groups@, a_devs@, compatible, fc0, fci0, foi0, fu0, snm, srv, su, sb, st0, sd0, sdc0, pl0, tm, bm, k));
                    }
                    assert(level_ok(g, dc@, nc@, gmap@, groups@, a_devs@, compatible, tv(fc@), fci@, foi@, tv(fu@), snm, srv, su, sb, st, sd, sdc, placed@, tm, bm, top as int));
                }
            }
        } else if ci < nct {
            let db = fc[top][ci];
            proof {
                if orients == 1 {
                    lemma_flip(g, dc@, nc@, a_devs@, top as int, snm[top as int], su[top as int], compatible, db);
                } else {
                    assert forall|p: Seq<(usize, usize, bool)>, nm: Seq<usize>|
                        #[trigger] completes(g, dc@, nc@, a_devs@, top as int, snm[top as int], su[top as int], compatible, p, nm) implies p[top as int].1 != db by {
                        if p[top as int].2 {
                        } else {
                        }
                    }
                }
            }
            fci.set(top, ci + 1);
            foi.set(top, 0);
            proof {
                sdc = sdc.update(top as int, 0);
                assert forall|k: int| 0 <= k < top implies #[trigger] level_ok(g, dc@, nc@, gmap@, groups@, a_devs@, compatible, tv(fc@), fci@, foi@, tv(fu@), snm, srv, su, sb, st, sd, sdc, placed@, tm, bm, k) by {
                        assert(level_ok(g, dc@, nc@, gmap@, groups@, a_devs@, compatible, fc0, fci0, foi0, fu0, snm, srv, su, sb, st0, sd0, sdc0, pl0, tm, bm, k));
                    }
                assert(level_ok(g, dc@, nc@, gmap@, groups@, a_devs@, compatible, tv(fc@), fci@, foi@, tv(fu@), snm, srv, su, sb, st, sd, sdc, placed@, tm, bm, top as int));
            }
        } else {
            proof {
                assert forall|p: Seq<(usize, usize, bool)>, nm: Seq<usize>|
                    !#[trigger] completes(g, dc@, nc@, a_devs@, top as int, snm[top as int], su[top as int], compatible, p, nm) by {
                    if completes(g, dc@, nc@, a_devs@, top as int, snm[top as int], su[top as int], compatible, p, nm) {
                        assert(step_ok(g, dc@, a_devs@[top as int], p[top as int], su[top as int], compatible));
                        let x = p[top as int].1 as int;
                        assert(in_group(gmap@, groups@, dc@, x));
                        let t = choose|t: int| 0 <= t < groups@[gmap@[dc@[x]] as int].len() && groups@[gmap@[dc@[x]] as int]@[t] == x;
                        assert(fc0[top as int][t] == x);
                        assert(ruled_out(g, dc@, nc@, a_devs@, top as int, snm[top as int], su[top as int], compatible, fc0[top as int][t]));
                    }
                }
            }
            if top == 0 {
                proof {
                    assert(snm[0] == old(net_map)@ && su[0] == old(dev_used)@);
                    lemma_steps_bound(g, dc@, nc@, gmap@, groups@, a_devs@, compatible, fc0, fci0, foi0, fu0, snm, srv, su, sb, st0, sd0, sdc0, pl0, tm, bm, st0[top as int], sd0[top as int], budget as int);
                }
                return (Outcome::Refuted, VERIFY_BUDGET - budget);
            }
            let pt = top - 1;
            let ghost snm0 = snm;
            let ghost srv0 = srv;
            let ghost su0 = su;
            let ghost sb0 = sb;
            proof {
                assert(level_ok(g, dc@, nc@, gmap@, groups@, a_devs@, compatible, fc0, fci0, foi0, fu0, snm, srv, su, sb, st, sd, sdc, pl0, tm, bm, pt as int));
                lemma_chain_at(g, dc@, nc@, gmap@, groups@, a_devs@, compatible, fc0, fci0, foi0, fu0, snm, srv, su, sb, st0, sd0, sdc0, pl0, tm, bm, budget as int, pt as int);
            }
            fc.pop();
            fci.pop();
            foi.pop();
            fu.pop();
            let (pa, pdb, po) = placed.pop().unwrap();
            dev_used.set(pdb, false);
            let ghost nm1 = net_map@;
            let ghost rv1 = rev_net@;
            rollback(&fu[pt], net_map, rev_net);
            proof {
                lemma_restore(snm0[pt as int], srv0[pt as int], nm1, rv1, fu0[pt as int]);
                assert(dev_used@ =~= su0[pt as int]);
                assert forall|p: Seq<(usize, usize, bool)>, nm: Seq<usize>|
                    #[trigger] completes(g, dc@, nc@, a_devs@, pt as int, snm0[pt as int], su0[pt as int], compatible, p, nm) implies !(p[pt as int].1 == pdb
                    && p[pt as int].2 == po) by {
                    if p[pt as int].1 == pdb && p[pt as int].2 == po {
                        lemma_child(g, dc@, nc@, a_devs@, pt as int, snm0[pt as int], snm0[top as int], su0[pt as int], compatible, fu0[pt as int], pdb, po, p, nm);
                    }
                }
                snm = snm0.drop_last();
                srv = srv0.drop_last();
                su = su0.drop_last();
                sb = sb0.drop_last();
                st = st0.drop_last();
                sd = sd0.drop_last();
                sdc = sdc0.drop_last();
                assert(placed@ =~= pl0.drop_last());
                assert(tv(fc@) =~= fc0.drop_last());
                assert(tv(fu@) =~= fu0.drop_last());
                assert(fci@ =~= fci0.drop_last());
                assert(foi@ =~= foi0.drop_last());
                assert forall|k: int| 0 <= k < pt implies #[trigger] level_ok(g, dc@, nc@, gmap@, groups@, a_devs@, compatible, tv(fc@), fci@, foi@, tv(fu@), snm, srv, su, sb, st, sd, sdc, placed@, tm, bm, k) by {
                    assert(level_ok(g, dc@, nc@, gmap@, groups@, a_devs@, compatible, fc0, fci0, foi0, fu0, snm0, srv0, su0, sb0, st0, sd0, sdc0, pl0, tm, bm, k));
                    assert(placed@.take(k) =~= pl0.take(k));
                }
                assert(placed@.take(pt as int) =~= pl0.take(pt as int));
                assert(level_ok(g, dc@, nc@, gmap@, groups@, a_devs@, compatible, tv(fc@), fci@, foi@, tv(fu@), snm, srv, su, sb, st, sd, sdc, placed@, tm, bm, pt as int));
            }
        }
    }
}

proof fn lemma_top_found<F: Fn(usize, usize) -> bool>(
    g: &Graph,
    dc: Seq<u64>,
    nc: Seq<u64>,
    a_devs: Seq<usize>,
    pl: Seq<(usize, usize, bool)>,
    nm: Seq<usize>,
    rv: Seq<usize>,
    used: Seq<bool>,
    compatible: &F,
)
    requires
        pl.len() == a_devs.len() == g.na_dev,
        placed_all_ok(g, dc, a_devs, pl, nm, used, compatible),
        forall|k: int| 0 <= k < a_devs.len() ==> #[trigger] a_devs[k] < g.na_dev,
        forall|k1: int, k2: int| 0 <= k1 < a_devs.len() && 0 <= k2 < a_devs.len() && k1 != k2 ==> #[trigger] a_devs[k1]
            != #[trigger] a_devs[k2],
        nm.len() == nc.len() == rv.len(),
        binding_ok(nm, nm.len()),
        binding_ok(rv, nm.len()),
        inverse(nm, rv),
        colours_kept(nm, nc),
    ensures
        found(g, dc, nc, pl),
        forall|k: int| 0 <= k < pl.len() ==> #[trigger] compatible.ensures((pl[k].0, pl[k].1), true),
{
    assert(one_to_one(nm)) by {
        assert forall|a1: int, a2: int|
            0 <= a1 < nm.len() && 0 <= a2 < nm.len() && a1 != a2 && #[trigger] nm[a1] != usize::MAX implies nm[a1] != #[trigger] nm[a2] by {
            if nm[a1] == nm[a2] {
                assert(rv[nm[a1] as int] == a1);
                assert(rv[nm[a2] as int] == a2);
            }
        }
    }
    assert forall|k: int, l: int| 0 <= k < pl.len() && 0 <= l < pl.len() && k != l implies (#[trigger] pl[k]).0 != (
    #[trigger] pl[l]).0 && pl[k].1 != pl[l].1 by {
        assert(pl[k].0 == a_devs[k]);
        assert(pl[l].0 == a_devs[l]);
    }
    assert forall|k: int| 0 <= k < pl.len() implies (#[trigger] pl[k]).0 < g.na_dev by {
        assert(pl[k].0 == a_devs[k]);
    }
    assert(nm.len() == nc.len() && one_to_one(nm) && colours_kept(nm, nc) && forall|k: int|
        0 <= k < pl.len() ==> #[trigger] binds_terms(
            nm,
            terms_of(g, pl[k].0),
            terms_of(g, pl[k].1),
            g.dev_kind@[pl[k].0 as int],
            pl[k].2,
        ));
}

proof fn lemma_top_refuted<F: Fn(usize, usize) -> bool>(
    g: &Graph,
    dc: Seq<u64>,
    nc: Seq<u64>,
    a_devs: Seq<usize>,
    nm0: Seq<usize>,
    used0: Seq<bool>,
    compatible: &F,
)
    requires
        a_devs.len() == g.na_dev,
        forall|k: int| 0 <= k < a_devs.len() ==> #[trigger] a_devs[k] < g.na_dev,
        forall|k1: int, k2: int| 0 <= k1 < a_devs.len() && 0 <= k2 < a_devs.len() && k1 != k2 ==> #[trigger] a_devs[k1]
            != #[trigger] a_devs[k2],
        nm0.len() == nc.len(),
        forall|j: int| 0 <= j < nm0.len() ==> #[trigger] nm0[j] == usize::MAX,
        forall|x: int| 0 <= x < used0.len() ==> !#[trigger] used0[x],
        used0.len() == g.dev_terms.len(),
        forall|p: Seq<(usize, usize, bool)>, nm: Seq<usize>| !#[trigger] completes(g, dc, nc, a_devs, 0, nm0, used0, compatible, p, nm),
    ensures
        forall|f: Seq<(usize, bool)>, nm: Seq<usize>| !#[trigger] pairing_by_dev(g, dc, nc, f, nm, compatible),
{
    assert forall|f: Seq<(usize, bool)>, nm: Seq<usize>| !#[trigger] pairing_by_dev(g, dc, nc, f, nm, compatible) by {
        if pairing_by_dev(g, dc, nc, f, nm, compatible) {
            let p = Seq::new(a_devs.len(), |k: int| (a_devs[k], f[a_devs[k] as int].0, f[a_devs[k] as int].1));
            assert forall|k: int| 0 <= k < p.len() implies #[trigger] step_ok(g, dc, a_devs[k], p[k], used0, compatible) by {
                let i = a_devs[k] as int;
                assert(0 <= i < f.len());
                assert(g.na_dev <= f[i].0 < g.dev_terms.len());
            }
            assert forall|k1: int, k2: int| 0 <= k1 < p.len() && 0 <= k2 < p.len() && k1 != k2 implies (#[trigger] p[k1]).1 != (
            #[trigger] p[k2]).1 by {
                assert(a_devs[k1] != a_devs[k2]);
                assert(f[a_devs[k1] as int].0 != f[a_devs[k2] as int].0);
            }
            assert forall|k: int| 0 <= k < p.len() implies #[trigger] binds_terms(
                nm,
                terms_of(g, a_devs[k]),
                terms_of(g, p[k].1),
                g.dev_kind@[a_devs[k] as int],
                p[k].2,
            ) by {
                let i = a_devs[k] as int;
                assert(binds_terms(nm, terms_of(g, i as usize), terms_of(g, f[i].0), g.dev_kind@[i], f[i].1));
            }
            assert(completes(g, dc, nc, a_devs, 0, nm0, used0, compatible, p, nm));
        }
    }
}

/// Searches for a bijection between the devices of A and of B (and between
/// their nets) that keeps colours, arity and connections, pairing only
/// devices that `compatible` accepts: devices of A are placed fewest
/// candidates first, each on the devices of B of its colour in turn, in
/// each orientation, backtracking on a dead end. Each trial costs one unit
/// of the budget of `VERIFY_BUDGET` trials; the third result is the number
/// of trials made. It never exceeds `search_size`, the bound from the sizes
/// of the colour classes (at most twice the number of devices when the
/// classes tell the devices apart), nor the size of the full search tree
/// (`tree_bound`); a search whose bound is under the budget always ends in
/// `Verified` or `Refuted`. On `Verified` it returns, for each device
/// of A, its partner in B and whether the partner's source and drain are
/// swapped.
pub fn search<F: Fn(usize, usize) -> bool>(g: &Graph, dc: &Vec<u64>, nc: &Vec<u64>, compatible: &F) -> (r: (
    Outcome,
    Vec<(usize, usize, bool)>,
    u64,
))
    requires
        search_ok(g, dc@, nc@),
        forall|i: usize, j: usize| compatible.requires((i, j)),
    ensures
        r.0 is Verified || r.1.len() == 0,
        r.2 <= VERIFY_BUDGET,
        r.2 <= search_size(g, dc@, nc@),
        r.2 <= tree_bound(g.na_dev as nat, (2 * (g.dev_terms.len() - g.na_dev)) as nat),
        r.0 is Unresolved <==> r.2 == VERIFY_BUDGET,
        search_size(g, dc@, nc@) < VERIFY_BUDGET ==> !(r.0 is Unresolved),
        g.na_dev == 0 ==> r.0 is Verified,
        r.0 is Verified ==> found(g, dc@, nc@, r.1@),
        r.0 is Verified ==> forall|i: int| 0 <= i < g.na_dev ==> #[trigger] pairs_dev(r.1@, i),
        r.0 is Verified ==> forall|k: int| 0 <= k < r.1.len() ==> #[trigger] compatible.ensures((r.1@[k].0, r.1@[k].1), true),
        r.0 is Refuted ==> forall|f: Seq<(usize, bool)>, nm: Seq<usize>| !#[trigger] pairing_by_dev(g, dc@, nc@, f, nm, compatible),
{
    let ndev = g.dev_terms.len();
    let na = g.na_dev;
    let nnet = nc.len();
    // candidate devices of B by colour
    let mut gmap: HashMapWithView<u64, usize> = HashMapWithView::new();
    let mut groups: Vec<Vec<usize>> = Vec::new();
    let mut i: usize = na;
    while i < ndev
        invariant
            na <= i <= ndev == dc.len(),
            forall|c: u64| #[trigger] gmap@.contains_key(c) ==> gmap@[c] < groups.len(),
            forall|k: int, t: int| 0 <= k < groups.len() && 0 <= t < groups@[k].len() ==> na <= #[trigger] groups@[k]@[t] < ndev,
            forall|c: u64, t: int|
                gmap@.contains_key(c) && 0 <= t < groups@[gmap@[c] as int].len() ==> dc@[#[trigger] groups@[gmap@[c] as int]@[t] as int]
                    == c,
            forall|c1: u64, c2: u64| #[trigger] gmap@.contains_key(c1) && #[trigger] gmap@.contains_key(c2) && gmap@[c1] == gmap@[c2] ==> c1 == c2,
            forall|i2: int| na <= i2 < i ==> #[trigger] in_group(gmap@, groups@, dc@, i2),
            forall|k: int, t: int| 0 <= k < groups.len() && 0 <= t < groups@[k].len() ==> #[trigger] groups@[k]@[t] < i,
            forall|k: int, t1: int, t2: int|
                0 <= k < groups.len() && 0 <= t1 < t2 < groups@[k].len() ==> #[trigger] groups@[k]@[t1] < #[trigger] groups@[k]@[t2],
        decreases ndev - i,
    {
        let c = dc[i];
        match gmap.get(&c) {
            Some(k) => {
                let k = *k;
                let ghost g0 = groups@;
                groups[k].push(i);
                proof {
                    assert forall|h: int, t: int| 0 <= h < groups.len() && 0 <= t < groups@[h].len() implies na
                        <= #[trigger] groups@[h]@[t] < ndev by {
                        if h != k {
                            assert(groups@[h] == g0[h]);
                        }
                    }
                    assert forall|c2: u64, t: int| gmap@.contains_key(c2) && 0 <= t < groups@[gmap@[c2] as int].len() implies dc@[
                        #[trigger] groups@[gmap@[c2] as int]@[t] as int] == c2 by {
                        if gmap@[c2] != k {
                            assert(groups@[gmap@[c2] as int] == g0[gmap@[c2] as int]);
                        } else if t < g0[k as int].len() {
                            assert(groups@[k as int]@[t] == g0[k as int]@[t]);
                        } else {
                            assert(gmap@.contains_key(c));
                            assert(c2 == c);
                        }
                    }
                    assert forall|i2: int| na <= i2 < i + 1 implies #[trigger] in_group(gmap@, groups@, dc@, i2) by {
                        if i2 == i as int {
                            assert(groups@[k as int]@[g0[k as int].len() as int] == i2);
                        } else {
                            assert(in_group(gmap@, g0, dc@, i2));
                            let h = gmap@[dc@[i2]] as int;
                            let t = choose|t: int| 0 <= t < g0[h].len() && g0[h]@[t] == i2;
                            if h == k {
                                assert(groups@[h]@[t] == g0[h]@[t]);
                            } else {
                                assert(groups@[h] == g0[h]);
                            }
                        }
                    }
                    assert forall|h: int, t: int| 0 <= h < groups.len() && 0 <= t < groups@[h].len() implies #[trigger] groups@[h]@[t]
                        < i + 1 by {
                        if h != k {
                            assert(groups@[h] == g0[h]);
                        } else if t < g0[k as int].len() {
                            assert(groups@[h]@[t] == g0[h]@[t]);
                        }
                    }
                    assert forall|h: int, t1: int, t2: int|
                        0 <= h < groups.len() && 0 <= t1 < t2 < groups@[h].len() implies #[trigger] groups@[h]@[t1]
                        < #[trigger] groups@[h]@[t2] by {
                        if h != k {
                            assert(groups@[h] == g0[h]);
                        } else {
                            assert(groups@[h]@[t1] == g0[h]@[t1]);
                            if t2 < g0[h].len() {
                                assert(groups@[h]@[t2] == g0[h]@[t2]);
                            }
                        }
                    }
                }
            },
            None => {
                let k = groups.len();
                let mut fresh: Vec<usize> = Vec::new();
                fresh.push(i);
                let ghost g0 = groups@;
                let ghost m0 = gmap@;
                groups.push(fresh);
                gmap.insert(c, k);
                proof {
                    assert forall|h: int, t: int| 0 <= h < groups.len() && 0 <= t < groups@[h].len() implies na
                        <= #[trigger] groups@[h]@[t] < ndev by {
                        if h != k {
                            assert(groups@[h] == g0[h]);
                        }
                    }
                    assert forall|c2: u64, t: int| gmap@.contains_key(c2) && 0 <= t < groups@[gmap@[c2] as int].len() implies dc@[
                        #[trigger] groups@[gmap@[c2] as int]@[t] as int] == c2 by {
                        if c2 != c {
                            assert(m0.contains_key(c2));
                            assert(groups@[gmap@[c2] as int] == g0[gmap@[c2] as int]);
                        }
                    }
                    assert forall|i2: int| na <= i2 < i + 1 implies #[trigger] in_group(gmap@, groups@, dc@, i2) by {
                        if i2 == i as int {
                            assert(gmap@[dc@[i2]] == k);
                            assert(groups@[k as int]@[0] == i2);
                            assert(groups@[gmap@[dc@[i2]] as int]@[0] == i2);
                        } else {
                            assert(in_group(m0, g0, dc@, i2));
                            let h = m0[dc@[i2]] as int;
                            assert(h < g0.len());
                            let t = choose|t: int| 0 <= t < g0[h].len() && g0[h]@[t] == i2;
                            assert(dc@[i2] != c);
                            assert(groups@[h] == g0[h]);
                            assert(groups@[h]@[t] == i2);
                        }
                    }
                    assert forall|h: int, t: int| 0 <= h < groups.len() && 0 <= t < groups@[h].len() implies #[trigger] groups@[h]@[t]
                        < i + 1 by {
                        if h != k {
                            assert(groups@[h] == g0[h]);
                        }
                    }
                    assert forall|h: int, t1: int, t2: int|
                        0 <= h < groups.len() && 0 <= t1 < t2 < groups@[h].len() implies #[trigger] groups@[h]@[t1]
                        < #[trigger] groups@[h]@[t2] by {
                        if h != k {
                            assert(groups@[h] == g0[h]);
                        }
                    }
                }
            },
        }
        i += 1;
    }
    // devices of A, fewest candidates first (ties by index)
    let mut keys: Vec<(u64, u64)> = Vec::new();
    let mut i: usize = 0;
    while i < na
        invariant
            i <= na <= ndev == dc.len(),
            forall|c: u64| #[trigger] gmap@.contains_key(c) ==> gmap@[c] < groups.len(),
            keys.len() == i,
            forall|t: int| 0 <= t < keys.len() ==> (#[trigger] keys@[t]).1 == t,
        decreases na - i,
    {
        let cnt: usize = match gmap.get(&dc[i]) {
            Some(k) => groups[*k].len(),
            None => 0,
        };
        keys.push((cnt as u64, i as u64));
        i += 1;
    }
    let sorted = sort_pairs(&keys);
    proof {
        lemma_perm_distinct(keys@, sorted@);
        assert forall|k: int| 0 <= k < groups.len() implies #[trigger] groups@[k].len() <= ndev - na by {
            lemma_increasing_len(groups@[k]@, na as int, ndev as int);
        }
        assert forall|c: u64| #[trigger] gmap@.contains_key(c) implies groups@[gmap@[c] as int].len() <= class_count(dc@, na as int, ndev as int, c) by {
            let s = groups@[gmap@[c] as int]@;
            assert forall|t: int| 0 <= t < s.len() implies na <= #[trigger] s[t] < ndev && dc@[s[t] as int] == c by {
                assert(s[t] == groups@[gmap@[c] as int]@[t]);
            }
            lemma_class_count_bound(dc@, s, na as int, ndev as int, c);
        }
    }
    let mut a_devs: Vec<usize> = Vec::new();
    let mut t: usize = 0;
    while t < sorted.len()
        invariant
            t <= sorted.len() == na,
            forall|t: int| 0 <= t < sorted.len() ==> (#[trigger] sorted@[t]).1 < na,
            forall|t1: int, t2: int|
                0 <= t1 < sorted.len() && 0 <= t2 < sorted.len() && t1 != t2 ==> (#[trigger] sorted@[t1]).1 != (#[trigger] sorted@[t2]).1,
            a_devs.len() == t,
            forall|k: int| 0 <= k < a_devs.len() ==> #[trigger] a_devs@[k] == sorted@[k].1,
        decreases sorted.len() - t,
    {
        a_devs.push(sorted[t].1 as usize);
        t += 1;
    }
    let m = a_devs.len();
    proof {
        assert forall|k: int| 0 <= k < a_devs.len() implies #[trigger] a_devs@[k] < na by {
            assert(sorted@[k].1 < na);
        }
        assert forall|k1: int, k2: int| 0 <= k1 < a_devs.len() && 0 <= k2 < a_devs.len() && k1 != k2 implies #[trigger] a_devs@[k1]
            != #[trigger] a_devs@[k2] by {
            assert(sorted@[k1].1 != sorted@[k2].1);
        }
        assert forall|i: int| 0 <= i < na implies #[trigger] listed(a_devs@, i) by {
            assert(has_index(sorted@, i));
            let t = choose|t: int| 0 <= t < sorted.len() && #[trigger] sorted@[t].1 == i;
            assert(a_devs@[t] == i);
        }
    }
    if m == 0 {
        proof {
            let nm = Seq::new(nnet as nat, |j: int| usize::MAX);
            let map: Seq<(usize, usize, bool)> = Seq::empty();
            assert(nm.len() == nc@.len() && one_to_one(nm) && colours_kept(nm, nc@) && forall|k: int|
                0 <= k < map.len() ==> #[trigger] binds_terms(
                    nm,
                    terms_of(g, map[k].0),
                    terms_of(g, map[k].1),
                    g.dev_kind@[map[k].0 as int],
                    map[k].2,
                ));
        }
        return (Outcome::Verified, Vec::new(), 0);
    }
    let mut net_map: Vec<usize> = Vec::new();
    let mut rev_net: Vec<usize> = Vec::new();
    let mut j: usize = 0;
    while j < nnet
        invariant
            j <= nnet,
            net_map.len() == j && rev_net.len() == j,
            forall|k: int| 0 <= k < j ==> #[trigger] net_map@[k] == usize::MAX,
            forall|k: int| 0 <= k < j ==> #[trigger] rev_net@[k] == usize::MAX,
        decreases nnet - j,
    {
        net_map.push(usize::MAX);
        rev_net.push(usize::MAX);
        j += 1;
    }
    let mut dev_used: Vec<bool> = Vec::new();
    let mut i: usize = 0;
    while i < ndev
        invariant
            i <= ndev,
            dev_used.len() == i,
            forall|k: int| 0 <= k < i ==> !#[trigger] dev_used@[k],
        decreases ndev - i,
    {
        dev_used.push(false);
        i += 1;
    }
    let mut placed: Vec<(usize, usize, bool)> = Vec::new();
    let ghost nm0 = net_map@;
    let ghost u0 = dev_used@;
    proof {
        assert(groups_ok(gmap@, groups@, dc@, na as int, ndev as int));
        assert(placed_all_ok(g, dc@, a_devs@, placed@, net_map@, dev_used@, compatible));
        assert(state_ok(g, dc@, nc@, a_devs@, placed@, net_map@, rev_net@, dev_used@, compatible));
    }
    proof {
        assert forall|i: int| 0 <= i < g.na_dev implies #[trigger] trial_width(g, dc@, i) <= max_trial_width(g, dc@, na as int)
            && branch_width(g, dc@, nc@, i) <= max_branch_width(g, dc@, nc@, na as int) by {
            lemma_max_widths(g, dc@, nc@, na as int, i);
        }
    }
    let (r, trials) = explore(
        g,
        dc,
        nc,
        compatible,
        &a_devs,
        &gmap,
        &groups,
        &mut net_map,
        &mut rev_net,
        &mut dev_used,
        &mut placed,
        Ghost(max_trial_width(g, dc@, na as int)),
        Ghost(max_branch_width(g, dc@, nc@, na as int)),
    );
    proof {
        lemma_size_tree(g, dc@, nc@);
    }
    match r {
        Outcome::Verified => {
            proof {
                lemma_top_found(g, dc@, nc@, a_devs@, placed@, net_map@, rev_net@, dev_used@, compatible);
                assert forall|i: int| 0 <= i < g.na_dev implies #[trigger] pairs_dev(placed@, i) by {
                    assert(listed(a_devs@, i));
                    let k = choose|k: int| 0 <= k < a_devs.len() && #[trigger] a_devs@[k] == i;
                    assert(placed@[k].0 == a_devs@[k]);
                }
            }
            (Outcome::Verified, placed, trials)
        },
        Outcome::Refuted => {
            proof {
                lemma_top_refuted(g, dc@, nc@, a_devs@, nm0, u0, compatible);
            }
            (Outcome::Refuted, Vec::new(), trials)
        },
        Outcome::Unresolved => (Outcome::Unresolved, Vec::new(), trials),
    }
}

// ---------------------------------------------------------------- the certificate

/// Device `da` corresponds to `db` under the net correspondence `mu`, in
/// orientation `o`: same kind, model key and arity, and each terminal net of `da`
/// corresponds to the matching terminal net of `db`.
pub open spec fn dev_match(da: DeviceV, db: DeviceV, o: bool, mu: Map<Seq<char>, Seq<char>>) -> bool {
    &&& da.kind == db.kind
    &&& model_key(da) == model_key(db)
    &&& da.nodes.len() == db.nodes.len()
    &&& forall|p: int| 0 <= p < da.nodes.len() ==> #[trigger] pair_ok(mu, da, db, o, p)
}

/// Terminal `p` of `da` is on the net that `mu` takes to the net on the
/// matching terminal of `db`.
pub open spec fn pair_ok(mu: Map<Seq<char>, Seq<char>>, da: DeviceV, db: DeviceV, o: bool, p: int) -> bool {
    mu.contains_key(da.nodes[p]) && mu[da.nodes[p]] == db.nodes[tpos(da.kind, da.nodes.len(), o, p)]
}

/// `sigma` pairs the devices of `a` one to one with those of `b`, and the
/// one-to-one net correspondence `mu` carries every connection of each device
/// of `a` to its partner (MOSFET source and drain possibly swapped, as
/// `orient` says): the two netlists are the same circuit up to names.
pub open spec fn is_iso(
    a: NetlistV,
    b: NetlistV,
    sigma: Seq<usize>,
    orient: Seq<bool>,
    mu: Map<Seq<char>, Seq<char>>,
) -> bool {
    &&& a.devices.len() == b.devices.len()
    &&& sigma.len() == a.devices.len()
    &&& orient.len() == a.devices.len()
    &&& forall|i: int| 0 <= i < sigma.len() ==> #[trigger] sigma[i] < b.devices.len()
    &&& forall|i: int, j: int| 0 <= i < sigma.len() && 0 <= j < sigma.len() && i != j ==> #[trigger] sigma[i] != #[trigger] sigma[j]
    &&& mu.is_injective()
    &&& forall|i: int| 0 <= i < sigma.len() ==> #[trigger] dev_match(a.devices[i], b.devices[sigma[i] as int], orient[i], mu)
}

/// `a` and `b` have the same connections up to the names of devices and
/// nets. Port and supply names are not compared here: `same_circuit` adds
/// them.
pub open spec fn circuit_iso(a: NetlistV, b: NetlistV) -> bool {
    exists|sigma: Seq<usize>, orient: Seq<bool>, mu: Map<Seq<char>, Seq<char>>| is_iso(a, b, sigma, orient, mu)
}

/// The views of a map's string values.
pub open spec fn sv(m: Map<Seq<char>, String>) -> Map<Seq<char>, Seq<char>> {
    m.map_values(|s: String| s@)
}

spec fn mu_rev(mu: Map<Seq<char>, Seq<char>>, rev: Map<Seq<char>, Seq<char>>) -> bool {
    &&& forall|x: Seq<char>| #[trigger] mu.contains_key(x) ==> rev.contains_key(mu[x]) && rev[mu[x]] == x
    &&& forall|y: Seq<char>| #[trigger] rev.contains_key(y) ==> mu.contains_key(rev[y]) && mu[rev[y]] == y
}

spec fn extends(m2: Map<Seq<char>, Seq<char>>, m1: Map<Seq<char>, Seq<char>>) -> bool {
    forall|x: Seq<char>| #[trigger] m1.contains_key(x) ==> m2.contains_key(x) && m2[x] == m1[x]
}

proof fn lemma_dev_match_extends(da: DeviceV, db: DeviceV, o: bool, m1: Map<Seq<char>, Seq<char>>, m2: Map<Seq<char>, Seq<char>>)
    requires
        dev_match(da, db, o, m1),
        extends(m2, m1),
    ensures
        dev_match(da, db, o, m2),
{
    assert forall|p: int| 0 <= p < da.nodes.len() implies #[trigger] pair_ok(m2, da, db, o, p) by {
        assert(pair_ok(m1, da, db, o, p));
    }
}

/// `m` carries each terminal net of `da` to the net on the matching terminal
/// of `db` in orientation `o`.
pub open spec fn binds_dev(m: Map<Seq<char>, Seq<char>>, da: DeviceV, db: DeviceV, o: bool) -> bool {
    forall|p: int| 0 <= p < da.nodes.len() ==> #[trigger] pair_ok(m, da, db, o, p)
}

/// Any correspondence that keeps `m0` and binds the terminals of `da` keeps
/// every binding of `cur`, which adds to `m0` only terminals of `da` below `p`.
proof fn lemma_keeps_cur(m0: Map<Seq<char>, Seq<char>>, cur: Map<Seq<char>, Seq<char>>, da: DeviceV, db: DeviceV, o: bool, p: int)
    requires
        extends(cur, m0),
        forall|x: Seq<char>| #[trigger] cur.contains_key(x) ==> m0.contains_key(x) || exists|q: int| 0 <= q < p && da.nodes[q] == x,
        forall|q: int| 0 <= q < p ==> #[trigger] pair_ok(cur, da, db, o, q),
        p <= da.nodes.len(),
    ensures
        forall|m: Map<Seq<char>, Seq<char>>| extends(m, m0) && #[trigger] binds_dev(m, da, db, o) ==> extends(m, cur),
{
    assert forall|m: Map<Seq<char>, Seq<char>>| extends(m, m0) && #[trigger] binds_dev(m, da, db, o) implies extends(m, cur) by {
        assert forall|x: Seq<char>| #[trigger] cur.contains_key(x) implies m.contains_key(x) && m[x] == cur[x] by {
            if !m0.contains_key(x) {
                let q = choose|q: int| 0 <= q < p && da.nodes[q] == x;
                assert(pair_ok(cur, da, db, o, q));
                assert(pair_ok(m, da, db, o, q));
            }
        }
    }
}

/// Binds the nets of device `da` to those of `db` in orientation `o`,
/// extending the correspondence; false, at the first terminal whose net is
/// bound elsewhere or whose partner is taken, exactly when no one-to-one
/// correspondence that keeps the current one binds these terminals.
fn bind_nets(
    da: &crate::spice::Device,
    db: &crate::spice::Device,
    o: bool,
    mu: &mut StringHashMap<String>,
    rev: &mut StringHashMap<String>,
) -> (ok: bool)
    requires
        da.nodes.len() == db.nodes.len(),
        mu_rev(sv(old(mu)@), sv(old(rev)@)),
    ensures
        mu_rev(sv(final(mu)@), sv(final(rev)@)),
        extends(sv(final(mu)@), sv(old(mu)@)),
        ok ==> forall|p: int| 0 <= p < da@.nodes.len() ==> #[trigger] pair_ok(sv(final(mu)@), da@, db@, o, p),
        ok ==> forall|x: Seq<char>|
            #[trigger] sv(final(mu)@).contains_key(x) ==> sv(old(mu)@).contains_key(x) || exists|q: int| 0 <= q < da@.nodes.len() && da@.nodes[q] == x,
        !ok ==> forall|m: Map<Seq<char>, Seq<char>>| m.is_injective() && extends(m, sv(old(mu)@)) ==> !#[trigger] binds_dev(m, da@, db@, o),
{
    let n = da.nodes.len();
    let ghost m0 = sv(mu@);
    let mut p: usize = 0;
    while p < n
        invariant
            p <= n == da.nodes.len() == db.nodes.len(),
            mu_rev(sv(mu@), sv(rev@)),
            extends(sv(mu@), m0),
            m0 == sv(old(mu)@),
            forall|q: int| 0 <= q < p ==> #[trigger] pair_ok(sv(mu@), da@, db@, o, q),
            forall|x: Seq<char>| #[trigger] sv(mu@).contains_key(x) ==> m0.contains_key(x) || exists|q: int| 0 <= q < p && da@.nodes[q] == x,
        decreases n - p,
    {
        let x = &da.nodes[p];
        let bp = bpos(da.kind, n, o, p);
        let y = &db.nodes[bp];
        let ghost mv = sv(mu@);
        let ghost rv = sv(rev@);
        proof {
            assert(x@ == da@.nodes[p as int]);
            assert(y@ == db@.nodes[bp as int]);
            assert(da@.nodes.len() == n);
            assert(bp as int == tpos(da@.kind, da@.nodes.len(), o, p as int));
        }
        match mu.get(x.as_str()) {
            Some(z) => {
                if *z != *y {
                    proof {
                        lemma_keeps_cur(m0, mv, da@, db@, o, p as int);
                        assert forall|m: Map<Seq<char>, Seq<char>>| m.is_injective() && extends(m, m0) implies !#[trigger] binds_dev(
                            m,
                            da@,
                            db@,
                            o,
                        ) by {
                            if binds_dev(m, da@, db@, o) {
                                assert(mu@.contains_key(x@) && mu@[x@] == *z);
                                assert(mv.contains_key(x@));
                                assert(mv[x@] == z@);
                                assert(extends(m, mv));
                                assert(m[x@] == z@);
                                assert(pair_ok(m, da@, db@, o, p as int));
                                assert(m[x@] == y@);
                                assert(z@ != y@);
                            }
                        }
                    }
                    return false;
                }
                proof {
                    assert(mv.contains_key(x@) && mv[x@] == y@);
                    assert(pair_ok(sv(mu@), da@, db@, o, p as int));
                }
            },
            None => {
                if rev.contains_key(y.as_str()) {
                    proof {
                        lemma_keeps_cur(m0, mv, da@, db@, o, p as int);
                        assert(rv.contains_key(y@));
                        let x2 = rv[y@];
                        assert(mv.contains_key(x2) && mv[x2] == y@);
                        assert(!mv.contains_key(x@));
                        assert forall|m: Map<Seq<char>, Seq<char>>| m.is_injective() && extends(m, m0) implies !#[trigger] binds_dev(
                            m,
                            da@,
                            db@,
                            o,
                        ) by {
                            if binds_dev(m, da@, db@, o) {
                                assert(extends(m, mv));
                                assert(pair_ok(m, da@, db@, o, p as int));
                                assert(m[x@] == y@);
                                assert(m[x2] == y@);
                                assert(x2 != x@);
                            }
                        }
                    }
                    return false;
                }
                mu.insert(x.clone(), y.clone());
                rev.insert(y.clone(), x.clone());
                proof {
                    let mv2 = sv(mu@);
                    let rv2 = sv(rev@);
                    assert(mv2 =~= mv.insert(x@, y@));
                    assert(rv2 =~= rv.insert(y@, x@));
                    assert(!mv.contains_key(x@));
                    assert(!rv.contains_key(y@));
                    assert forall|x2: Seq<char>| #[trigger] mv2.contains_key(x2) implies rv2.contains_key(mv2[x2]) && rv2[mv2[x2]] == x2 by {
                        if x2 != x@ {
                            assert(mv.contains_key(x2));
                            assert(mv[x2] != y@);
                        }
                    }
                    assert forall|y2: Seq<char>| #[trigger] rv2.contains_key(y2) implies mv2.contains_key(rv2[y2]) && mv2[rv2[y2]] == y2 by {
                        if y2 != y@ {
                            assert(rv.contains_key(y2));
                            assert(rv[y2] != x@);
                        }
                    }
                    assert forall|q: int| 0 <= q < p + 1 implies #[trigger] pair_ok(sv(mu@), da@, db@, o, q) by {
                        if q < p {
                            assert(pair_ok(mv, da@, db@, o, q));
                        } else {
                            assert(mv2[x@] == y@);
                        }
                    }
                    assert forall|x2: Seq<char>| #[trigger] mv2.contains_key(x2) implies m0.contains_key(x2) || exists|q: int|
                        0 <= q < p + 1 && da@.nodes[q] == x2 by {
                        if x2 == x@ {
                            assert(da@.nodes[p as int] == x2);
                        } else {
                            assert(mv.contains_key(x2));
                        }
                    }
                }
            },
        }
        p += 1;
    }
    true
}

/// Entry `e` pairs device `e.0` of `a` with device `e.1 - |a|` of `b`
/// (global indices: B's devices follow A's), of the same kind, model key and
/// arity.
pub open spec fn entry_ok(a: NetlistV, b: NetlistV, e: (usize, usize, bool)) -> bool {
    &&& e.0 < a.devices.len()
    &&& a.devices.len() <= e.1 < a.devices.len() + b.devices.len()
    &&& a.devices[e.0 as int].kind == b.devices[e.1 - a.devices.len()].kind
    &&& model_key(a.devices[e.0 as int]) == model_key(b.devices[e.1 - a.devices.len()])
    &&& a.devices[e.0 as int].nodes.len() == b.devices[e.1 - a.devices.len()].nodes.len()
}

/// `m` binds the terminals of every pair of `map`.
pub open spec fn all_bind(m: Map<Seq<char>, Seq<char>>, a: NetlistV, b: NetlistV, map: Seq<(usize, usize, bool)>) -> bool {
    forall|k: int|
        0 <= k < map.len() ==> #[trigger] binds_dev(m, a.devices[map[k].0 as int], b.devices[map[k].1 - a.devices.len()], map[k].2)
}

/// Some entry of `map` pairs device `i` of A.
pub open spec fn pairs_dev(map: Seq<(usize, usize, bool)>, i: int) -> bool {
    exists|k: int| 0 <= k < map.len() && #[trigger] map[k].0 == i
}

/// `map` pairs the devices of `a` one to one with those of `b`, each pair of
/// the same kind, model key and arity, and one one-to-one net correspondence
/// carries the terminals of every pair.
pub open spec fn pairing_ok(a: NetlistV, b: NetlistV, map: Seq<(usize, usize, bool)>) -> bool {
    &&& a.devices.len() == b.devices.len()
    &&& map.len() == a.devices.len()
    &&& forall|k: int| 0 <= k < map.len() ==> #[trigger] entry_ok(a, b, map[k])
    &&& forall|k: int, l: int|
        0 <= k < map.len() && 0 <= l < map.len() && k != l ==> (#[trigger] map[k]).0 != (#[trigger] map[l]).0 && map[k].1 != map[l].1
    &&& forall|i: int| 0 <= i < a.devices.len() ==> #[trigger] pairs_dev(map, i)
    &&& exists|m: Map<Seq<char>, Seq<char>>| m.is_injective() && #[trigger] all_bind(m, a, b, map)
}

/// Checks a device pairing reported by the search against the netlists: each
/// device of A paired once with a distinct device of B (global indices: B's
/// devices follow A's), same kind, model key and arity, and one consistent
/// one-to-one net correspondence. Returns the pairing by index of A when it
/// holds, and `None` exactly when it does not.
pub fn check_bijection(a: &Netlist, b: &Netlist, map: &Vec<(usize, usize, bool)>) -> (r: Option<(Vec<usize>, Vec<bool>, Ghost<Map<Seq<char>, Seq<char>>>)>)
    ensures
        r matches Some(w) ==> is_iso(a@, b@, w.0@, w.1@, w.2@),
        r matches Some(w) ==> map.len() == a.devices.len() && forall|k: int|
            0 <= k < map.len() ==> {
                &&& (#[trigger] map@[k]).0 < a.devices.len()
                &&& map@[k].1 >= a.devices.len()
                &&& w.0@[map@[k].0 as int] == map@[k].1 - a.devices.len()
            },
        r matches Some(w) ==> forall|k: int| 0 <= k < map.len() ==> w.1@[(#[trigger] map@[k]).0 as int] == map@[k].2,
        r matches Some(w) ==> forall|k: int, l: int|
            0 <= k < map.len() && 0 <= l < map.len() && k != l ==> (#[trigger] map@[k]).0 != (#[trigger] map@[l]).0,
        r is Some <==> pairing_ok(a@, b@, map@),
{
    let na = a.devices.len();
    let nb = b.devices.len();
    if na != nb || map.len() != na {
        return None;
    }
    let mut sigma: Vec<usize> = Vec::new();
    let mut orient: Vec<bool> = Vec::new();
    let mut used: Vec<bool> = Vec::new();
    let mut i: usize = 0;
    while i < na
        invariant
            i <= na == nb,
            sigma.len() == i && orient.len() == i && used.len() == i,
            forall|k: int| 0 <= k < i ==> #[trigger] sigma@[k] == usize::MAX,
            forall|k: int| 0 <= k < i ==> !#[trigger] used@[k],
        decreases na - i,
    {
        sigma.push(usize::MAX);
        orient.push(false);
        used.push(false);
        i += 1;
    }
    let mut mu: StringHashMap<String> = StringHashMap::new();
    let mut rev: StringHashMap<String> = StringHashMap::new();
    proof {
        assert(sv(mu@) =~= Map::<Seq<char>, Seq<char>>::empty());
        assert(sv(rev@) =~= Map::<Seq<char>, Seq<char>>::empty());
    }
    let mut k: usize = 0;
    while k < map.len()
        invariant
            k <= map.len() == na == nb,
            na == a.devices.len() && nb == b.devices.len(),
            sigma.len() == na && orient.len() == na && used.len() == nb,
            mu_rev(sv(mu@), sv(rev@)),
            forall|i: int| 0 <= i < na ==> (#[trigger] sigma@[i] == usize::MAX || (sigma@[i] < nb && used@[sigma@[i] as int])),
            forall|i: int| 0 <= i < na && sigma@[i] != usize::MAX ==> #[trigger] dev_match(
                a@.devices[i],
                b@.devices[sigma@[i] as int],
                orient@[i],
                sv(mu@),
            ),
            forall|i: int, j: int|
                0 <= i < na && 0 <= j < na && i != j && sigma@[i] != usize::MAX ==> #[trigger] sigma@[i] != #[trigger] sigma@[j],
            forall|kk: int|
                0 <= kk < k ==> {
                    &&& (#[trigger] map@[kk]).0 < na
                    &&& map@[kk].1 >= na
                    &&& sigma@[map@[kk].0 as int] == map@[kk].1 - na
                },
            forall|kk: int, l: int| 0 <= kk < k && 0 <= l < k && kk != l ==> (#[trigger] map@[kk]).0 != (#[trigger] map@[l]).0,
            forall|kk: int| 0 <= kk < k ==> #[trigger] entry_ok(a@, b@, map@[kk]),
            forall|kk: int| 0 <= kk < k ==> orient@[(#[trigger] map@[kk]).0 as int] == map@[kk].2,
            forall|i: int| 0 <= i < na && #[trigger] sigma@[i] != usize::MAX ==> exists|kk: int| 0 <= kk < k && #[trigger] map@[kk].0 == i,
            forall|j: int| 0 <= j < nb && #[trigger] used@[j] ==> exists|kk: int| 0 <= kk < k && #[trigger] map@[kk].1 == j + na,
            forall|m: Map<Seq<char>, Seq<char>>| m.is_injective() && #[trigger] all_bind(m, a@, b@, map@) ==> extends(m, sv(mu@)),
        decreases map.len() - k,
    {
        let (ag, bg, o) = map[k];
        if ag >= na || bg < na || bg - na >= nb {
            proof {
                assert(!entry_ok(a@, b@, map@[k as int]));
            }
            return None;
        }
        let j = bg - na;
        if sigma[ag] != usize::MAX || used[j] {
            proof {
                if sigma@[ag as int] != usize::MAX {
                    let kk = choose|kk: int| 0 <= kk < k && #[trigger] map@[kk].0 == ag as int;
                    assert(map@[kk].0 == map@[k as int].0);
                } else {
                    let kk = choose|kk: int| 0 <= kk < k && #[trigger] map@[kk].1 == j + na;
                    assert(map@[kk].1 == map@[k as int].1);
                }
            }
            return None;
        }
        let da = &a.devices[ag];
        let db = &b.devices[j];
        proof {
            assert(da@ == a@.devices[ag as int]);
            assert(db@ == b@.devices[j as int]);
        }
        let valued_kind = da.kind == 'R' || da.kind == 'C' || da.kind == 'L';
        if da.kind != db.kind || (!valued_kind && da.model != db.model) || da.nodes.len() != db.nodes.len() {
            proof {
                assert(!entry_ok(a@, b@, map@[k as int]));
            }
            return None;
        }
        let ghost m0 = sv(mu@);
        if !bind_nets(da, db, o, &mut mu, &mut rev) {
            proof {
                if pairing_ok(a@, b@, map@) {
                    let m = choose|m: Map<Seq<char>, Seq<char>>| m.is_injective() && #[trigger] all_bind(m, a@, b@, map@);
                    assert(extends(m, m0));
                    assert(binds_dev(m, a@.devices[map@[k as int].0 as int], b@.devices[map@[k as int].1 - a@.devices.len()], map@[k as int].2));
                    assert(binds_dev(m, da@, db@, o));
                }
            }
            return None;
        }
        proof {
            let m1 = sv(mu@);
            assert(da@.kind == db@.kind);
            assert(model_key(da@) == model_key(db@));
            assert(da@.nodes.len() == db@.nodes.len());
            assert(dev_match(da@, db@, o, m1));
            assert forall|i: int| 0 <= i < na && sigma@[i] != usize::MAX implies #[trigger] dev_match(
                a@.devices[i],
                b@.devices[sigma@[i] as int],
                orient@[i],
                m1,
            ) by {
                lemma_dev_match_extends(a@.devices[i], b@.devices[sigma@[i] as int], orient@[i], m0, m1);
            }
            assert forall|m: Map<Seq<char>, Seq<char>>| m.is_injective() && #[trigger] all_bind(m, a@, b@, map@) implies extends(m, m1) by {
                assert(extends(m, m0));
                assert(binds_dev(m, a@.devices[map@[k as int].0 as int], b@.devices[map@[k as int].1 - a@.devices.len()], map@[k as int].2));
                assert(binds_dev(m, da@, db@, o));
                assert forall|x: Seq<char>| #[trigger] m1.contains_key(x) implies m.contains_key(x) && m[x] == m1[x] by {
                    if !m0.contains_key(x) {
                        let q = choose|q: int| 0 <= q < da@.nodes.len() && da@.nodes[q] == x;
                        assert(pair_ok(m1, da@, db@, o, q));
                        assert(pair_ok(m, da@, db@, o, q));
                    }
                }
            }
        }
        let ghost s0 = sigma@;
        let ghost u0 = used@;
        let ghost or0 = orient@;
        sigma.set(ag, j);
        orient.set(ag, o);
        used.set(j, true);
        proof {
            assert forall|kk: int| 0 <= kk < k + 1 implies {
                &&& (#[trigger] map@[kk]).0 < na
                &&& map@[kk].1 >= na
                &&& sigma@[map@[kk].0 as int] == map@[kk].1 - na
            } by {
                if kk < k {
                    assert(s0[map@[kk].0 as int] != usize::MAX);
                    assert(map@[kk].0 != ag);
                }
            }
            assert forall|kk: int, l: int| 0 <= kk < k + 1 && 0 <= l < k + 1 && kk != l implies (#[trigger] map@[kk]).0 != (#[trigger] map@[l]).0 by {
                if kk == k {
                    assert(s0[map@[l].0 as int] != usize::MAX);
                } else if l == k {
                    assert(s0[map@[kk].0 as int] != usize::MAX);
                }
            }
            assert(entry_ok(a@, b@, map@[k as int])) by {
                assert(map@[k as int] == (ag, bg, o));
                assert(a@.devices[ag as int] == da@);
                assert(b@.devices[bg - na] == db@);
            }
            assert(orient@[ag as int] == o);
            assert forall|kk: int| 0 <= kk < k + 1 implies #[trigger] entry_ok(a@, b@, map@[kk]) by {
                if kk == k {
                    assert(map@[kk] == (ag, bg, o));
                }
            }
            assert forall|kk: int| 0 <= kk < k + 1 implies orient@[(#[trigger] map@[kk]).0 as int] == map@[kk].2 by {
                if kk < k {
                    assert(s0[map@[kk].0 as int] != usize::MAX);
                    assert(map@[kk].0 != ag);
                    assert(orient@[map@[kk].0 as int] == or0[map@[kk].0 as int]);
                } else {
                    assert(map@[kk] == (ag, bg, o));
                }
            }
            assert forall|i: int| 0 <= i < na && #[trigger] sigma@[i] != usize::MAX implies exists|kk: int| 0 <= kk < k + 1 && #[trigger] map@[kk].0 == i by {
                if i == ag as int {
                    assert(map@[k as int].0 == i);
                } else {
                    assert(s0[i] != usize::MAX);
                    let kk = choose|kk: int| 0 <= kk < k && #[trigger] map@[kk].0 == i;
                    assert(map@[kk].0 == i);
                }
            }
            assert forall|jj: int| 0 <= jj < nb && #[trigger] used@[jj] implies exists|kk: int| 0 <= kk < k + 1 && #[trigger] map@[kk].1 == jj + na by {
                if jj == j as int {
                    assert(map@[k as int].1 == jj + na);
                } else {
                    assert(u0[jj]);
                    let kk = choose|kk: int| 0 <= kk < k && #[trigger] map@[kk].1 == jj + na;
                    assert(map@[kk].1 == jj + na);
                }
            }
        }
        k += 1;
    }
    let mut i: usize = 0;
    while i < na
        invariant
            i <= na == sigma.len(),
            na == a.devices.len() && map.len() == na && nb == b.devices.len() && na == nb,
            orient.len() == na && used.len() == nb,
            mu_rev(sv(mu@), sv(rev@)),
            forall|i: int| 0 <= i < na ==> (#[trigger] sigma@[i] == usize::MAX || (sigma@[i] < nb && used@[sigma@[i] as int])),
            forall|i: int| 0 <= i < na && sigma@[i] != usize::MAX ==> #[trigger] dev_match(
                a@.devices[i],
                b@.devices[sigma@[i] as int],
                orient@[i],
                sv(mu@),
            ),
            forall|i: int, j: int|
                0 <= i < na && 0 <= j < na && i != j && sigma@[i] != usize::MAX ==> #[trigger] sigma@[i] != #[trigger] sigma@[j],
            forall|kk: int, l: int| 0 <= kk < map.len() && 0 <= l < map.len() && kk != l ==> (#[trigger] map@[kk]).0 != (#[trigger] map@[l]).0,
            forall|kk: int| 0 <= kk < map.len() ==> #[trigger] entry_ok(a@, b@, map@[kk]),
            forall|kk: int| 0 <= kk < map.len() ==> orient@[(#[trigger] map@[kk]).0 as int] == map@[kk].2,
            forall|k: int| 0 <= k < i ==> #[trigger] sigma@[k] != usize::MAX,
            forall|kk: int|
                0 <= kk < map.len() ==> {
                    &&& (#[trigger] map@[kk]).0 < na
                    &&& map@[kk].1 >= na
                    &&& sigma@[map@[kk].0 as int] == map@[kk].1 - na
                },
        decreases na - i,
    {
        if sigma[i] == usize::MAX {
            proof {
                if pairing_ok(a@, b@, map@) {
                    assert(pairs_dev(map@, i as int));
                    let kk = choose|kk: int| 0 <= kk < map.len() && #[trigger] map@[kk].0 == i as int;
                    assert(sigma@[map@[kk].0 as int] == map@[kk].1 - na);
                }
            }
            return None;
        }
        i += 1;
    }
    proof {
        let mv = sv(mu@);
        let rv = sv(rev@);
        assert(mv.is_injective()) by {
            assert forall|x: Seq<char>, y: Seq<char>| x != y && mv.dom().contains(x) && mv.dom().contains(y) implies #[trigger] mv[x]
                != #[trigger] mv[y] by {
                assert(rv[mv[x]] == x);
                assert(rv[mv[y]] == y);
            }
        }
        assert(is_iso(a@, b@, sigma@, orient@, mv));
        assert forall|kk: int| 0 <= kk < map.len() implies #[trigger] binds_dev(
            mv,
            a@.devices[map@[kk].0 as int],
            b@.devices[map@[kk].1 - a@.devices.len()],
            map@[kk].2,
        ) by {
            let i = map@[kk].0 as int;
            assert(0 <= kk < map@.len());
            assert(entry_ok(a@, b@, map@[kk]));
            assert(orient@[map@[kk].0 as int] == map@[kk].2);
            assert(sigma@[i] == map@[kk].1 - na);
            assert(dev_match(a@.devices[i], b@.devices[sigma@[i] as int], orient@[i], mv));
            assert forall|p: int| 0 <= p < a@.devices[i].nodes.len() implies #[trigger] pair_ok(
                mv,
                a@.devices[i],
                b@.devices[map@[kk].1 - a@.devices.len()],
                map@[kk].2,
                p,
            ) by {
                assert(pair_ok(mv, a@.devices[i], b@.devices[sigma@[i] as int], orient@[i], p));
            }
        }
        assert(all_bind(mv, a@, b@, map@));
        assert forall|kk: int, l: int| 0 <= kk < map.len() && 0 <= l < map.len() && kk != l implies (#[trigger] map@[kk]).0
            != (#[trigger] map@[l]).0 && map@[kk].1 != map@[l].1 by {
            assert(sigma@[map@[kk].0 as int] == map@[kk].1 - na);
            assert(sigma@[map@[l].0 as int] == map@[l].1 - na);
        }
        assert forall|i: int| 0 <= i < a@.devices.len() implies #[trigger] pairs_dev(map@, i) by {
            assert(sigma@[i] != usize::MAX);
        }
        assert(pairing_ok(a@, b@, map@));
    }
    Some((sigma, orient, Ghost(sv(mu@))))
}

} // verus!
