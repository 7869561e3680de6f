//! Colour refinement never tells apart two netlists that are the same circuit.
//!
//! If a one-to-one correspondence of devices and nets carries every connection
//! of `a` to `b` (MOSFET source and drain possibly swapped) and keeps the
//! anchors (supplies by upper-cased name, ports by name), then every device
//! and every net has the colour of its partner after each round, so every
//! refinement class holds as many members on each side and the divergence
//! report is empty.
use vstd::prelude::*;
use vstd::set_lib::{lemma_map_size, lemma_subset_equality};
use vstd::relations::injective_on;
use crate::compare::order;
use crate::graph::{all_nodes, graph_of, side_nets, terms_name, tv, iv, Graph};
use crate::iso::{
    is_iso, dev_match, pair_ok, tpos, pairing_by_dev, binds_terms, one_to_one, colours_kept, terms_of, found, pairing_ok, entry_ok, all_bind, binds_dev, pairs_dev,
};
use crate::refine::{
    colours, dev_key, dev_seed, dkey, bars, model_key, nonsup, graph_supply, lemma_order_contains, refine_spec, round_keys, round_spec, seed_colours, seed_keys, shape_of, lemma_order_no_dup, lemma_pos_in, mcols, net_key, net_seed, npos, nparts, pos_in, Shape,
};
use crate::compare::{dev_labels, divergence, is_supply, members, net_labels, outcome_core, LvsResult};
use crate::divergence::{asc_colours, class_list, classes_view, unbal};
use crate::sort::sorted_pairs;
use crate::text::{dec, lemma_dec_injective};
use crate::spice::{strs, DeviceV, NetlistV};

verus! {

/// `mu` keeps the anchors: every net of `a` has the seed of its image in
/// `b` — a supply goes to a supply of the same upper-cased name, a port to
/// the port of the same name, and any other net to a net that is neither.
pub open spec fn anchored(a: NetlistV, b: NetlistV, mu: Map<Seq<char>, Seq<char>>) -> bool {
    forall|x: Seq<char>| #[trigger] side_nets(a).contains(x) ==> net_seed(x, a.ports) == net_seed(mu[x], b.ports)
}

/// `a` and `b` are the same circuit up to the names of internal nets and
/// devices: a one-to-one correspondence carries every connection and keeps
/// the anchors.
pub open spec fn same_circuit(a: NetlistV, b: NetlistV) -> bool {
    exists|sigma: Seq<usize>, orient: Seq<bool>, mu: Map<Seq<char>, Seq<char>>|
        #![trigger is_iso(a, b, sigma, orient, mu)]
        is_iso(a, b, sigma, orient, mu) && anchored(a, b, mu)
}

/// What keeping the anchors means for each net of `a`: a port that is not a
/// supply goes to the port of `b` of the same name; a supply goes to a supply
/// of the same upper-cased name; any other net goes to a net of `b` that is
/// neither a port nor a supply.
pub proof fn lemma_anchored_names(a: NetlistV, b: NetlistV, mu: Map<Seq<char>, Seq<char>>, x: Seq<char>)
    requires
        anchored(a, b, mu),
        side_nets(a).contains(x),
    ensures
        a.ports.contains(x) && !is_supply(x) ==> mu[x] == x && b.ports.contains(x) && !is_supply(mu[x]),
        is_supply(x) ==> is_supply(mu[x]) && crate::text::upper(mu[x]) == crate::text::upper(x),
        !a.ports.contains(x) && !is_supply(x) ==> !b.ports.contains(mu[x]) && !is_supply(mu[x]),
{
    let y = mu[x];
    let sx = net_seed(x, a.ports);
    let sy = net_seed(y, b.ports);
    assert(sx == sy);
    let p = seq!['x', 'P', ':'];
    let q = seq!['x', 'S', ':'];
    if a.ports.contains(x) && !is_supply(x) {
        assert(sx == p + x);
        if is_supply(y) {
            assert(sy == q + crate::text::upper(y));
            assert(sx[1] == 'P' && sy[1] == 'S');
        } else if b.ports.contains(y) {
            assert(sy == p + y);
            assert(x =~= sx.skip(3));
            assert(y =~= sy.skip(3));
        } else {
            assert(sy == seq!['x', 'n']);
            assert(sx.len() >= 3);
        }
    } else if is_supply(x) {
        assert(sx == q + crate::text::upper(x));
        if is_supply(y) {
            assert(sy == q + crate::text::upper(y));
            assert(crate::text::upper(x) =~= sx.skip(3));
            assert(crate::text::upper(y) =~= sy.skip(3));
        } else if b.ports.contains(y) {
            assert(sy == p + y);
            assert(sx[1] == 'S' && sy[1] == 'P');
        } else {
            assert(sy == seq!['x', 'n']);
            assert(sx.len() >= 3);
        }
    } else {
        assert(sx == seq!['x', 'n']);
        if is_supply(y) {
            assert(sy == q + crate::text::upper(y));
            assert(sy.len() >= 3);
        } else if b.ports.contains(y) {
            assert(sy == p + y);
            assert(sy.len() >= 3);
        }
    }
}

/// `b` is `a` with its devices reordered by `sigma` (device `i` of `a` is
/// device `sigma[i]` of `b`) and possibly renamed, and its nets renamed one
/// to one by `mu`: supply and port nets keep their names, any other net gets
/// a name that is neither a supply nor a port. Kinds, models and terminal
/// order are kept.
pub open spec fn renames(a: NetlistV, b: NetlistV, sigma: Seq<usize>, mu: Map<Seq<char>, Seq<char>>) -> bool {
    &&& b.ports == a.ports
    &&& b.devices.len() == a.devices.len()
    &&& sigma.len() == a.devices.len()
    &&& forall|i: int| 0 <= i < sigma.len() ==> #[trigger] sigma[i] < b.devices.len()
    &&& forall|i: int, j: int| 0 <= i < sigma.len() && 0 <= j < sigma.len() && i != j ==> #[trigger] sigma[i] != #[trigger] sigma[j]
    &&& mu.is_injective()
    &&& forall|i: int|
        0 <= i < sigma.len() ==> {
            let d = a.devices[i];
            let e = #[trigger] b.devices[sigma[i] as int];
            &&& e.kind == d.kind
            &&& e.model == d.model
            &&& e.nodes.len() == d.nodes.len()
            &&& forall|p: int| 0 <= p < d.nodes.len() ==> mu.contains_key(#[trigger] d.nodes[p]) && e.nodes[p] == mu[d.nodes[p]]
        }
    &&& forall|x: Seq<char>|
        #[trigger] side_nets(a).contains(x) ==> {
            &&& mu.contains_key(x)
            &&& (is_supply(x) || a.ports.contains(x)) ==> mu[x] == x
            &&& !(is_supply(x) || a.ports.contains(x)) ==> !is_supply(mu[x]) && !a.ports.contains(mu[x])
        }
}

/// Renaming nets and devices and reordering devices, anchors kept, gives the
/// same circuit.
pub proof fn lemma_renamed_same_circuit(a: NetlistV, b: NetlistV, sigma: Seq<usize>, mu: Map<Seq<char>, Seq<char>>)
    requires
        renames(a, b, sigma, mu),
    ensures
        same_circuit(a, b),
{
    let orient = Seq::new(sigma.len(), |i: int| false);
    assert forall|i: int| 0 <= i < sigma.len() implies #[trigger] dev_match(
        a.devices[i],
        b.devices[sigma[i] as int],
        orient[i],
        mu,
    ) by {
        let d = a.devices[i];
        let e = b.devices[sigma[i] as int];
        assert forall|p: int| 0 <= p < d.nodes.len() implies #[trigger] pair_ok(mu, d, e, orient[i], p) by {
            assert(mu.contains_key(d.nodes[p]));
        }
    }
    assert(is_iso(a, b, sigma, orient, mu));
    assert forall|x: Seq<char>| #[trigger] side_nets(a).contains(x) implies net_seed(x, a.ports) == net_seed(mu[x], b.ports) by {
    }
    assert(anchored(a, b, mu));
}

/// A MOSFET's source and drain are interchangeable: exchanging the two
/// terminals of one MOSFET gives the same circuit.
pub proof fn lemma_sd_swap_same_circuit(a: NetlistV, k: int)
    requires
        a.devices.len() <= usize::MAX,
        0 <= k < a.devices.len(),
        a.devices[k].kind == 'M',
        a.devices[k].nodes.len() >= 4,
    ensures
        same_circuit(a, NetlistV { devices: a.devices.update(k, crate::compare::swap_nodes(a.devices[k], 0, 2)), ..a }),
{
    let b = NetlistV { devices: a.devices.update(k, crate::compare::swap_nodes(a.devices[k], 0, 2)), ..a };
    let n = a.devices.len();
    let sigma = Seq::new(n, |i: int| i as usize);
    let orient = Seq::new(n, |i: int| i == k);
    let mu = Map::new(|x: Seq<char>| true, |x: Seq<char>| x);
    assert(mu.is_injective());
    assert forall|i: int| 0 <= i < sigma.len() implies #[trigger] dev_match(a.devices[i], b.devices[sigma[i] as int], orient[i], mu) by {
        let da = a.devices[i];
        let db = b.devices[sigma[i] as int];
        assert(sigma[i] as int == i);
        assert forall|p: int| 0 <= p < da.nodes.len() implies #[trigger] pair_ok(mu, da, db, orient[i], p) by {
            assert(mu.contains_key(da.nodes[p]));
        }
    }
    assert(is_iso(a, b, sigma, orient, mu));
    assert(anchored(a, b, mu));
}

/// `e` is `d` with its nets renamed by `mu`.
pub open spec fn renamed_dev(d: DeviceV, e: DeviceV, mu: Map<Seq<char>, Seq<char>>) -> bool {
    &&& e.kind == d.kind
    &&& e.model == d.model
    &&& e.nodes.len() == d.nodes.len()
    &&& forall|p: int| 0 <= p < d.nodes.len() ==> mu.contains_key(#[trigger] d.nodes[p]) && e.nodes[p] == mu[d.nodes[p]]
}

/// Some position of `sigma` holds `q`.
pub open spec fn reached(sigma: Seq<usize>, q: int) -> bool {
    exists|i: int| 0 <= i < sigma.len() && sigma[i] == q
}

/// Sorting two names gives one result for either order.
proof fn lemma_sort_pair(x: Seq<char>, y: Seq<char>)
    ensures
        (if crate::compare::str_le(x, y) { seq![x, y] } else { seq![y, x] }) == (if crate::compare::str_le(y, x) {
            seq![y, x]
        } else {
            seq![x, y]
        }),
{
    crate::compare::lemma_str_le_total(x, y);
    if crate::compare::str_le(x, y) && crate::compare::str_le(y, x) {
        crate::compare::lemma_str_le_antisym(x, y);
    }
}

/// Renaming nets one to one does not make two devices parallel: equal
/// terminal signatures after renaming were equal before.
proof fn lemma_sig_terms_renamed(d1: DeviceV, d2: DeviceV, e1: DeviceV, e2: DeviceV, mu: Map<Seq<char>, Seq<char>>)
    requires
        mu.is_injective(),
        renamed_dev(d1, e1, mu),
        renamed_dev(d2, e2, mu),
        d1.kind == d2.kind,
        crate::compare::sig_terms(e1) == crate::compare::sig_terms(e2),
    ensures
        crate::compare::sig_terms(d1) == crate::compare::sig_terms(d2),
{
    let n1 = d1.nodes;
    let n2 = d2.nodes;
    let t1 = crate::compare::sig_terms(e1);
    let t2 = crate::compare::sig_terms(e2);
    let k = d1.kind;
    if k == 'M' && n1.len() >= 4 && n2.len() >= 4 {
        assert(t1[1] == mu[n1[1]] && t2[1] == mu[n2[1]]);
        assert(t1[3] == mu[n1[3]] && t2[3] == mu[n2[3]]);
        assert(n1[1] == n2[1]);
        assert(n1[3] == n2[3]);
        let (a1, b1, a2, b2) = (n1[0], n1[2], n2[0], n2[2]);
        assert((mu[a1] == mu[a2] && mu[b1] == mu[b2]) || (mu[a1] == mu[b2] && mu[b1] == mu[a2]));
        if mu[a1] == mu[a2] && mu[b1] == mu[b2] {
            assert(a1 == a2 && b1 == b2);
        } else {
            assert(a1 == b2 && b1 == a2);
            lemma_sort_pair(a1, b1);
            crate::compare::lemma_str_le_total(a1, b1);
            if crate::compare::str_le(a1, b1) && crate::compare::str_le(b1, a1) {
                crate::compare::lemma_str_le_antisym(a1, b1);
            }
        }
        assert(crate::compare::sig_terms(d1) =~= crate::compare::sig_terms(d2));
    } else if k == 'M' && (n1.len() >= 4 || n2.len() >= 4) {
        assert(t1.len() != t2.len());
    } else if (k == 'R' || k == 'C' || k == 'L') && n1.len() == 2 && n2.len() == 2 {
        let (a1, b1, a2, b2) = (n1[0], n1[1], n2[0], n2[1]);
        assert((mu[a1] == mu[a2] && mu[b1] == mu[b2]) || (mu[a1] == mu[b2] && mu[b1] == mu[a2]));
        if mu[a1] == mu[a2] && mu[b1] == mu[b2] {
            assert(a1 == a2 && b1 == b2);
            assert(n1 =~= n2);
        } else {
            assert(a1 == b2 && b1 == a2);
            crate::compare::lemma_str_le_total(a1, b1);
            if crate::compare::str_le(a1, b1) && crate::compare::str_le(b1, a1) {
                crate::compare::lemma_str_le_antisym(a1, b1);
            }
            assert(n1 =~= seq![a1, b1]);
            assert(n2 =~= seq![b1, a1]);
        }
        assert(crate::compare::sig_terms(d1) =~= crate::compare::sig_terms(d2));
    } else if (k == 'R' || k == 'C' || k == 'L') && (n1.len() == 2 || n2.len() == 2) {
        if n1.len() == 2 {
            assert(t1.len() == 2 && t2 == e2.nodes);
        } else {
            assert(t2.len() == 2 && t1 == e1.nodes);
        }
        assert(n1.len() == n2.len());
        assert(false);
    } else {
        assert(t1 == e1.nodes && t2 == e2.nodes);
        assert forall|p: int| 0 <= p < n1.len() implies n1[p] == n2[p] by {
            assert(e1.nodes[p] == e2.nodes[p]);
        }
        assert(n1 =~= n2);
    }
}

/// Renaming does not make two devices parallel: if no two devices of `a`
/// are parallel, none of `b` are (its subcircuit instances bearing distinct
/// names, as SPICE requires).
proof fn lemma_renamed_no_parallel(a: NetlistV, b: NetlistV, sigma: Seq<usize>, mu: Map<Seq<char>, Seq<char>>)
    requires
        renames(a, b, sigma, mu),
        forall|q: int| 0 <= q < b.devices.len() ==> #[trigger] reached(sigma, q),
        forall|p: int, q: int|
            0 <= p < b.devices.len() && 0 <= q < b.devices.len() && p != q && b.devices[p].kind == 'X' && b.devices[q].kind == 'X'
                ==> #[trigger] b.devices[p].name != #[trigger] b.devices[q].name,
        crate::compare::sigs(a.devices, Seq::new(a.devices.len(), |i: int| 0i64)).no_duplicates(),
    ensures
        crate::compare::sigs(b.devices, Seq::new(b.devices.len(), |i: int| 0i64)).no_duplicates(),
{
    let ka = crate::compare::sigs(a.devices, Seq::new(a.devices.len(), |i: int| 0i64));
    let kb = crate::compare::sigs(b.devices, Seq::new(b.devices.len(), |i: int| 0i64));
    assert forall|p: int, q: int| 0 <= p < kb.len() && 0 <= q < kb.len() && p != q implies kb[p] != kb[q] by {
        assert(reached(sigma, p) && reached(sigma, q));
        let i = choose|i: int| 0 <= i < sigma.len() && sigma[i] == p;
        let j = choose|j: int| 0 <= j < sigma.len() && sigma[j] == q;
        let (dp, dq) = (b.devices[p], b.devices[q]);
        let (ai, aj) = (a.devices[i], a.devices[j]);
        assert(renamed_dev(ai, dp, mu)) by {
            assert(dp == b.devices[sigma[i] as int]);
        }
        assert(renamed_dev(aj, dq, mu)) by {
            assert(dq == b.devices[sigma[j] as int]);
        }
        if kb[p] == kb[q] {
            let sp = crate::compare::psig(dp, 0);
            let sq = crate::compare::psig(dq, 0);
            assert(kb[p] == sp && kb[q] == sq);
            if dp.kind == 'X' || dq.kind == 'X' {
                assert(sp[0] == sq[0]);
                if dp.kind == 'X' {
                    assert(sp[0] =~= seq!['X']);
                    if dq.kind != 'X' {
                        assert(sq[0] =~= seq![dq.kind]);
                        assert(sq[0][0] == dq.kind);
                    }
                } else {
                    assert(sq[0] =~= seq!['X']);
                    assert(sp[0] =~= seq![dp.kind]);
                    assert(sp[0][0] == dp.kind);
                }
                assert(sp[1] == dp.name && sq[1] == dq.name);
            } else {
                assert(sp[0] =~= seq![dp.kind] && sq[0] =~= seq![dq.kind]);
                assert(sp[0][0] == dp.kind && sq[0][0] == dq.kind);
                assert(sp[1] == dp.model && sq[1] == dq.model);
                let tp = crate::compare::sig_terms(dp);
                let tq = crate::compare::sig_terms(dq);
                assert(sp.len() == tp.len() + 3 && sq.len() == tq.len() + 3);
                assert(tp =~= sp.subrange(2, sp.len() - 1));
                assert(tq =~= sq.subrange(2, sq.len() - 1));
                lemma_sig_terms_renamed(ai, aj, dp, dq, mu);
                assert(i != j);
                assert(ka[i] == crate::compare::psig(ai, 0) && ka[j] == crate::compare::psig(aj, 0));
                assert(crate::compare::psig(ai, 0) =~= crate::compare::psig(aj, 0));
            }
        }
    }
}

/// Two sequences matched element for element by a one-to-one `s` hold the
/// same elements as often.
proof fn lemma_matched_multiset<A>(x: Seq<A>, y: Seq<A>, s: Seq<int>)
    requires
        x.len() == y.len() == s.len(),
        forall|i: int| 0 <= i < s.len() ==> 0 <= #[trigger] s[i] < y.len() && y[s[i]] == x[i],
        forall|i: int, j: int| 0 <= i < s.len() && 0 <= j < s.len() && i != j ==> #[trigger] s[i] != #[trigger] s[j],
    ensures
        x.to_multiset() == y.to_multiset(),
    decreases x.len(),
{
    broadcast use vstd::seq_lib::group_to_multiset_ensures;

    if x.len() > 0 {
        let n = x.len() - 1;
        let j = s[n];
        let x2 = x.drop_last();
        let y2 = y.remove(j);
        let s2 = Seq::new(n as nat, |i: int| if s[i] > j { s[i] - 1 } else { s[i] });
        assert forall|i: int| 0 <= i < s2.len() implies 0 <= #[trigger] s2[i] < y2.len() && y2[s2[i]] == x2[i] by {
            assert(s[i] != j);
        }
        assert forall|i: int, k: int| 0 <= i < s2.len() && 0 <= k < s2.len() && i != k implies #[trigger] s2[i] != #[trigger] s2[k] by {
            assert(s[i] != j && s[k] != j && s[i] != s[k]);
        }
        lemma_matched_multiset(x2, y2, s2);
        assert(x =~= x2.push(x[n]));
        vstd::seq_lib::to_multiset_remove(y, j);
    }
}

/// The number of devices of kind `k` is how often `k` occurs among the kinds.
proof fn lemma_kind_count_multiset(ds: Seq<DeviceV>, k: char)
    ensures
        crate::compare::kind_count(ds, k) == ds.map_values(|d: DeviceV| d.kind).to_multiset().count(k),
    decreases ds.len(),
{
    broadcast use vstd::seq_lib::group_to_multiset_ensures;

    if ds.len() > 0 {
        lemma_kind_count_multiset(ds.drop_last(), k);
        assert(ds.map_values(|d: DeviceV| d.kind) =~= ds.drop_last().map_values(|d: DeviceV| d.kind).push(ds.last().kind));
    }
}

/// Renaming and reordering devices keeps the number of devices of each
/// kind, so a renamed circuit shows no difference of device kinds.
pub proof fn lemma_renamed_kinds(a: NetlistV, b: NetlistV, sigma: Seq<usize>, mu: Map<Seq<char>, Seq<char>>, r: Seq<(char, usize, usize)>)
    requires
        renames(a, b, sigma, mu),
        crate::compare::kind_diff_ok(r, a.devices, b.devices),
    ensures
        forall|k: char| crate::compare::kind_count(a.devices, k) == crate::compare::kind_count(b.devices, k),
        r.len() == 0,
{
    let x = a.devices.map_values(|d: DeviceV| d.kind);
    let y = b.devices.map_values(|d: DeviceV| d.kind);
    let s = Seq::new(sigma.len(), |i: int| sigma[i] as int);
    assert forall|i: int| 0 <= i < s.len() implies 0 <= #[trigger] s[i] < y.len() && y[s[i]] == x[i] by {
        assert(b.devices[sigma[i] as int].kind == a.devices[i].kind);
    }
    assert forall|i: int, j: int| 0 <= i < s.len() && 0 <= j < s.len() && i != j implies #[trigger] s[i] != #[trigger] s[j] by {
        assert(sigma[i] != sigma[j]);
    }
    lemma_matched_multiset(x, y, s);
    assert forall|k: char| crate::compare::kind_count(a.devices, k) == crate::compare::kind_count(b.devices, k) by {
        lemma_kind_count_multiset(a.devices, k);
        lemma_kind_count_multiset(b.devices, k);
    }
    if r.len() > 0 {
        assert(r[0].1 == crate::compare::kind_count(a.devices, r[0].0));
    }
}

/// A renamed circuit in which no two devices are parallel is unchanged by
/// the merging that precedes a topology comparison, so it is compared as the
/// same circuit (its subcircuit instances bearing distinct names, as SPICE
/// requires).
pub proof fn lemma_renamed_merged(a: NetlistV, b: NetlistV, sigma: Seq<usize>, mu: Map<Seq<char>, Seq<char>>)
    requires
        renames(a, b, sigma, mu),
        forall|q: int| 0 <= q < b.devices.len() ==> #[trigger] reached(sigma, q),
        forall|p: int, q: int|
            0 <= p < b.devices.len() && 0 <= q < b.devices.len() && p != q && b.devices[p].kind == 'X' && b.devices[q].kind == 'X'
                ==> #[trigger] b.devices[p].name != #[trigger] b.devices[q].name,
        a.devices.len() <= usize::MAX,
        crate::compare::sigs(a.devices, Seq::new(a.devices.len(), |i: int| 0i64)).no_duplicates(),
    ensures
        crate::compare::topo_merged(a) == a,
        crate::compare::topo_merged(b) == b,
        same_circuit(crate::compare::topo_merged(a), crate::compare::topo_merged(b)),
{
    lemma_renamed_no_parallel(a, b, sigma, mu);
    crate::compare::lemma_combine_no_parallel(a, Seq::new(a.devices.len(), |i: int| 0i64));
    crate::compare::lemma_combine_no_parallel(b, Seq::new(b.devices.len(), |i: int| 0i64));
    lemma_renamed_same_circuit(a, b, sigma, mu);
}

/// The graph index of the partner of net `j` of `a`.
pub open spec fn nmap(a: NetlistV, b: NetlistV, mu: Map<Seq<char>, Seq<char>>, j: int) -> int {
    side_nets(a).len() + pos_in(side_nets(b), mu[side_nets(a)[j]])
}

proof fn lemma_all_nodes_has(ds: Seq<DeviceV>, x: Seq<char>)
    requires
        all_nodes(ds).contains(x),
    ensures
        exists|i: int, p: int| 0 <= i < ds.len() && 0 <= p < ds[i].nodes.len() && #[trigger] ds[i].nodes[p] == x,
    decreases ds.len(),
{
    let pre = all_nodes(ds.drop_last());
    let k = choose|k: int| 0 <= k < all_nodes(ds).len() && all_nodes(ds)[k] == x;
    if k < pre.len() {
        assert(pre[k] == x);
        lemma_all_nodes_has(ds.drop_last(), x);
        let (i, p) = choose|i: int, p: int| 0 <= i < ds.drop_last().len() && 0 <= p < ds.drop_last()[i].nodes.len()
            && #[trigger] ds.drop_last()[i].nodes[p] == x;
        assert(ds[i] == ds.drop_last()[i]);
    } else {
        let p = k - pre.len();
        assert(ds.last().nodes[p] == x);
        assert(ds[ds.len() - 1].nodes[p] == x);
    }
}

proof fn lemma_tpos(kind: char, n: nat, o: bool, p: int)
    requires
        0 <= p < n,
    ensures
        0 <= tpos(kind, n, o, p) < n,
        tpos(kind, n, o, tpos(kind, n, o, p)) == p,
{
}

proof fn lemma_terms_a(g: &Graph, a: NetlistV, b: NetlistV, i: int, p: int)
    requires
        graph_of(g, a, b),
        0 <= i < a.devices.len(),
        0 <= p < a.devices[i].nodes.len(),
    ensures
        g.dev_terms@[i]@.len() == a.devices[i].nodes.len(),
        g.dev_terms@[i]@[p] < side_nets(a).len(),
        side_nets(a)[g.dev_terms@[i]@[p] as int] == a.devices[i].nodes[p],
{
    assert(terms_name(g.dev_terms@[i]@, a.devices[i].nodes, side_nets(a), 0));
}

proof fn lemma_terms_b(g: &Graph, a: NetlistV, b: NetlistV, k: int, q: int)
    requires
        graph_of(g, a, b),
        0 <= k < b.devices.len(),
        0 <= q < b.devices[k].nodes.len(),
    ensures
        g.dev_terms@[a.devices.len() + k]@.len() == b.devices[k].nodes.len(),
        side_nets(a).len() <= g.dev_terms@[a.devices.len() + k]@[q] < side_nets(a).len() + side_nets(b).len(),
        side_nets(b)[g.dev_terms@[a.devices.len() + k]@[q] - side_nets(a).len()] == b.devices[k].nodes[q],
{
    let ds = a.devices + b.devices;
    let i = a.devices.len() + k;
    assert(ds[i] == b.devices[k]);
    assert(terms_name(g.dev_terms@[i]@, ds[i].nodes, strs(g.net_name@), g.na_net as int));
    let t = g.dev_terms@[i]@[q];
    assert(strs(g.net_name@)[t as int] == b.devices[k].nodes[q]);
    assert((side_nets(a) + side_nets(b))[t as int] == side_nets(b)[t - side_nets(a).len()]);
}

proof fn lemma_terms_len(g: &Graph, a: NetlistV, b: NetlistV, d: int)
    requires
        graph_of(g, a, b),
        0 <= d < a.devices.len() + b.devices.len(),
    ensures
        d < a.devices.len() ==> g.dev_terms@[d]@.len() == a.devices[d].nodes.len(),
        d >= a.devices.len() ==> g.dev_terms@[d]@.len() == b.devices[d - a.devices.len()].nodes.len(),
{
    let ds = a.devices + b.devices;
    if d < a.devices.len() {
        assert(terms_name(g.dev_terms@[d]@, a.devices[d].nodes, side_nets(a), 0));
    } else {
        assert(terms_name(g.dev_terms@[d]@, ds[d].nodes, strs(g.net_name@), g.na_net as int));
        assert(ds[d] == b.devices[d - a.devices.len()]);
    }
}

/// The partner of terminal `p` of device `i` of `a` is on the partner of
/// its net.
proof fn lemma_partner_terms(
    g: &Graph,
    a: NetlistV,
    b: NetlistV,
    sigma: Seq<usize>,
    orient: Seq<bool>,
    mu: Map<Seq<char>, Seq<char>>,
    i: int,
    p: int,
)
    requires
        graph_of(g, a, b),
        is_iso(a, b, sigma, orient, mu),
        0 <= i < a.devices.len(),
        0 <= p < a.devices[i].nodes.len(),
    ensures
        mu.contains_key(side_nets(a)[g.dev_terms@[i]@[p] as int]),
        side_nets(b).contains(mu[side_nets(a)[g.dev_terms@[i]@[p] as int]]),
        nmap(a, b, mu, g.dev_terms@[i]@[p] as int) == g.dev_terms@[a.devices.len() + sigma[i]]@[tpos(
            a.devices[i].kind,
            a.devices[i].nodes.len(),
            orient[i],
            p,
        )],
{
    let da = a.devices[i];
    let k = sigma[i] as int;
    let db = b.devices[k];
    assert(dev_match(da, db, orient[i], mu));
    assert(pair_ok(mu, da, db, orient[i], p));
    let q = tpos(da.kind, da.nodes.len(), orient[i], p);
    lemma_tpos(da.kind, da.nodes.len(), orient[i], p);
    lemma_terms_a(g, a, b, i, p);
    lemma_terms_b(g, a, b, k, q);
    let t = g.dev_terms@[a.devices.len() + k]@[q];
    let y = mu[da.nodes[p]];
    assert(y == db.nodes[q]);
    lemma_order_no_dup(crate::graph::all_nodes(b.devices));
    lemma_pos_in(side_nets(b), y, t - side_nets(a).len());
}

/// Every net of `a` has a partner among the nets of `b`.
proof fn lemma_net_partner(
    g: &Graph,
    a: NetlistV,
    b: NetlistV,
    sigma: Seq<usize>,
    orient: Seq<bool>,
    mu: Map<Seq<char>, Seq<char>>,
    j: int,
)
    requires
        graph_of(g, a, b),
        is_iso(a, b, sigma, orient, mu),
        0 <= j < side_nets(a).len(),
    ensures
        mu.contains_key(side_nets(a)[j]),
        side_nets(b).contains(mu[side_nets(a)[j]]),
        side_nets(a).len() <= nmap(a, b, mu, j) < side_nets(a).len() + side_nets(b).len(),
        side_nets(b)[nmap(a, b, mu, j) - side_nets(a).len()] == mu[side_nets(a)[j]],
        exists|i: int, p: int|
            0 <= i < a.devices.len() && 0 <= p < a.devices[i].nodes.len() && #[trigger] g.dev_terms@[i]@[p] == j,
{
    let sa = side_nets(a);
    let x = sa[j];
    assert(sa.contains(x));
    lemma_order_contains(all_nodes(a.devices), x);
    lemma_all_nodes_has(a.devices, x);
    let (i, p) = choose|i: int, p: int| 0 <= i < a.devices.len() && 0 <= p < a.devices[i].nodes.len()
        && #[trigger] a.devices[i].nodes[p] == x;
    lemma_terms_a(g, a, b, i, p);
    lemma_order_no_dup(all_nodes(a.devices));
    let t = g.dev_terms@[i]@[p];
    assert(sa[t as int] == x);
    assert(t == j);
    lemma_partner_terms(g, a, b, sigma, orient, mu, i, p);
    let k = sigma[i] as int;
    let q = tpos(a.devices[i].kind, a.devices[i].nodes.len(), orient[i], p);
    lemma_tpos(a.devices[i].kind, a.devices[i].nodes.len(), orient[i], p);
    assert(dev_match(a.devices[i], b.devices[k], orient[i], mu));
    lemma_terms_b(g, a, b, k, q);
}

/// The set of positions of `c` in `k`.
pub open spec fn cset(k: Seq<u64>, c: u64) -> Set<int> {
    Set::new(|t: int| 0 <= t < k.len() && k[t] == c)
}

proof fn lemma_cset_members(k: Seq<u64>, c: u64)
    requires
        k.len() <= usize::MAX,
    ensures
        cset(k, c).finite(),
        cset(k, c).len() == crate::compare::members(k, c).len(),
    decreases k.len(),
{
    if k.len() == 0 {
        assert(cset(k, c) =~= Set::<int>::empty());
    } else {
        let k0 = k.drop_last();
        lemma_cset_members(k0, c);
        let n = k.len() - 1;
        if k.last() == c {
            assert(cset(k, c) =~= cset(k0, c).insert(n));
            assert(!cset(k0, c).contains(n));
        } else {
            assert(cset(k, c) =~= cset(k0, c));
        }
    }
}

/// An injective map of one finite set onto another keeps its size.
proof fn lemma_same_size(sa: Set<int>, sb: Set<int>, f: spec_fn(int) -> int)
    requires
        sa.finite(),
        forall|x: int, y: int| sa.contains(x) && sa.contains(y) && #[trigger] f(x) == #[trigger] f(y) ==> x == y,
        forall|x: int| sa.contains(x) ==> sb.contains(#[trigger] f(x)),
        forall|y: int| sb.contains(y) ==> exists|x: int| sa.contains(x) && #[trigger] f(x) == y,
    ensures
        sb.finite(),
        sa.len() == sb.len(),
{
    assert(injective_on(f, sa));
    assert(sa.map(f) =~= sb);
    lemma_map_size(sa, sb, f);
}

/// Some element of `sigma` is `k`.
pub open spec fn hit(sigma: Seq<usize>, k: int) -> bool {
    exists|i: int| 0 <= i < sigma.len() && #[trigger] sigma[i] == k
}

/// A one-to-one map of `0..n` into itself reaches every element.
proof fn lemma_onto(sigma: Seq<usize>, n: nat)
    requires
        sigma.len() == n,
        forall|i: int| 0 <= i < n ==> #[trigger] sigma[i] < n,
        forall|i: int, j: int| 0 <= i < n && 0 <= j < n && i != j ==> #[trigger] sigma[i] != #[trigger] sigma[j],
    ensures
        forall|k: int| 0 <= k < n ==> #[trigger] hit(sigma, k),
{
    let dom = vstd::set_lib::set_int_range(0, n as int);
    vstd::set_lib::lemma_int_range(0, n as int);
    let f = |i: int| sigma[i] as int;
    let img = dom.map(f);
    assert(injective_on(f, dom));
    lemma_map_size(dom, img, f);
    assert(img.subset_of(dom));
    lemma_subset_equality(img, dom);
    assert forall|k: int| 0 <= k < n implies #[trigger] hit(sigma, k) by {
        assert(dom.contains(k));
        assert(img.contains(k));
        let i = choose|i: int| dom.contains(i) && k == f(i);
        assert(sigma[i] == k);
    }
}

/// Distinct nets of `a` have distinct partners.
proof fn lemma_nmap_injective(
    g: &Graph,
    a: NetlistV,
    b: NetlistV,
    sigma: Seq<usize>,
    orient: Seq<bool>,
    mu: Map<Seq<char>, Seq<char>>,
    j1: int,
    j2: int,
)
    requires
        graph_of(g, a, b),
        is_iso(a, b, sigma, orient, mu),
        0 <= j1 < side_nets(a).len(),
        0 <= j2 < side_nets(a).len(),
        nmap(a, b, mu, j1) == nmap(a, b, mu, j2),
    ensures
        j1 == j2,
{
    lemma_net_partner(g, a, b, sigma, orient, mu, j1);
    lemma_net_partner(g, a, b, sigma, orient, mu, j2);
    let x1 = side_nets(a)[j1];
    let x2 = side_nets(a)[j2];
    assert(mu[x1] == mu[x2]);
    assert(mu.is_injective());
    if x1 != x2 {
        assert(mu.dom().contains(x1) && mu.dom().contains(x2));
    }
    lemma_order_no_dup(all_nodes(a.devices));
}

/// Every net of `b` is the partner of some net of `a`.
proof fn lemma_nmap_onto(
    g: &Graph,
    a: NetlistV,
    b: NetlistV,
    sigma: Seq<usize>,
    orient: Seq<bool>,
    mu: Map<Seq<char>, Seq<char>>,
    t: int,
)
    requires
        graph_of(g, a, b),
        is_iso(a, b, sigma, orient, mu),
        0 <= t < side_nets(b).len(),
    ensures
        exists|j: int| 0 <= j < side_nets(a).len() && #[trigger] nmap(a, b, mu, j) == side_nets(a).len() + t,
{
    let sb = side_nets(b);
    let y = sb[t];
    assert(sb.contains(y));
    lemma_order_contains(all_nodes(b.devices), y);
    lemma_all_nodes_has(b.devices, y);
    let (k, q) = choose|k: int, q: int| 0 <= k < b.devices.len() && 0 <= q < b.devices[k].nodes.len()
        && #[trigger] b.devices[k].nodes[q] == y;
    lemma_onto(sigma, a.devices.len());
    assert(hit(sigma, k));
    let i = choose|i: int| 0 <= i < sigma.len() && #[trigger] sigma[i] == k;
    let da = a.devices[i];
    assert(dev_match(da, b.devices[k], orient[i], mu));
    let p = tpos(da.kind, da.nodes.len(), orient[i], q);
    lemma_tpos(da.kind, da.nodes.len(), orient[i], q);
    lemma_terms_a(g, a, b, i, p);
    let j = g.dev_terms@[i]@[p] as int;
    lemma_partner_terms(g, a, b, sigma, orient, mu, i, p);
    lemma_terms_b(g, a, b, k, q);
    lemma_order_no_dup(all_nodes(b.devices));
    let tt = g.dev_terms@[a.devices.len() + k]@[q];
    assert(sb[tt - side_nets(a).len()] == y);
    assert(tt - side_nets(a).len() == t);
    assert(nmap(a, b, mu, j) == side_nets(a).len() + t);
}

/// Two duplicate-free lists in one-to-one correspondence by `phi`, with
/// `g2(phi(x)) == g1(x)`, have the same length and give the same multiset.
proof fn lemma_bij_multiset<X, Y, V>(
    s1: Seq<X>,
    s2: Seq<Y>,
    phi: spec_fn(X) -> Y,
    g1: spec_fn(X) -> V,
    g2: spec_fn(Y) -> V,
)
    requires
        s1.no_duplicates(),
        s2.no_duplicates(),
        forall|x: X| #[trigger] s1.contains(x) ==> s2.contains(phi(x)) && g2(phi(x)) == g1(x),
        forall|y: Y| #[trigger] s2.contains(y) ==> exists|x: X| s1.contains(x) && #[trigger] phi(x) == y,
        forall|x1: X, x2: X| s1.contains(x1) && s1.contains(x2) && #[trigger] phi(x1) == #[trigger] phi(x2) ==> x1 == x2,
    ensures
        s1.map_values(g1).to_multiset() == s2.map_values(g2).to_multiset(),
        s1.len() == s2.len(),
    decreases s1.len(),
{
    broadcast use vstd::seq_lib::group_to_multiset_ensures;
    if s1.len() == 0 {
        if s2.len() > 0 {
            assert(s2.contains(s2[0]));
        }
        assert(s1.map_values(g1) =~= Seq::<V>::empty());
        assert(s2.map_values(g2) =~= Seq::<V>::empty());
    } else {
        let x = s1.last();
        assert(s1.contains(x));
        let y = phi(x);
        assert(s2.contains(y));
        let k = choose|k: int| 0 <= k < s2.len() && s2[k] == y;
        let s1p = s1.drop_last();
        let s2p = s2.remove(k);
        assert forall|xx: X| #[trigger] s1p.contains(xx) implies s2p.contains(phi(xx)) && g2(phi(xx)) == g1(xx) by {
            let h = choose|h: int| 0 <= h < s1p.len() && s1p[h] == xx;
            assert(s1[h] == xx);
            assert(s1.contains(xx));
            assert(xx != x);
            assert(phi(xx) != y);
            let m = choose|m: int| 0 <= m < s2.len() && s2[m] == phi(xx);
            if m < k {
                assert(s2p[m] == phi(xx));
            } else {
                assert(m != k);
                assert(s2p[m - 1] == phi(xx));
            }
        }
        assert forall|yy: Y| #[trigger] s2p.contains(yy) implies exists|xx: X| s1p.contains(xx) && #[trigger] phi(xx) == yy by {
            let m = choose|m: int| 0 <= m < s2p.len() && s2p[m] == yy;
            if m < k {
                assert(s2[m] == yy);
            } else {
                assert(s2[m + 1] == yy);
            }
            assert(s2.contains(yy));
            assert(yy != y);
            let xx = choose|xx: X| s1.contains(xx) && #[trigger] phi(xx) == yy;
            let h = choose|h: int| 0 <= h < s1.len() && s1[h] == xx;
            assert(h != s1.len() - 1);
            assert(s1p[h] == xx);
        }
        assert(s2p.no_duplicates()) by {
            assert forall|u: int, v: int| 0 <= u < s2p.len() && 0 <= v < s2p.len() && u != v implies s2p[u] != s2p[v] by {
                let uu = if u < k { u } else { u + 1 };
                let vv = if v < k { v } else { v + 1 };
                assert(s2p[u] == s2[uu] && s2p[v] == s2[vv]);
            }
        }
        lemma_bij_multiset(s1p, s2p, phi, g1, g2);
        assert(s1.map_values(g1) =~= s1p.map_values(g1).push(g1(x)));
        assert(s2p.map_values(g2) =~= s2.map_values(g2).remove(k));
        assert(s2.map_values(g2)[k] == g1(x));
        assert(s2.map_values(g2).remove(k).to_multiset() == s2.map_values(g2).to_multiset().remove(g1(x)));
        assert(s2.map_values(g2).to_multiset().count(g1(x)) > 0) by {
            assert(s2.map_values(g2).contains(g1(x)));
        }
        assert(s1.map_values(g1).to_multiset() =~= s2.map_values(g2).to_multiset());
    }
}

/// The incidences of a net of `a` correspond one to one to those of its
/// partner: device to partner device, terminal to matching terminal.
proof fn lemma_incid_bij(
    g: &Graph,
    a: NetlistV,
    b: NetlistV,
    sigma: Seq<usize>,
    orient: Seq<bool>,
    mu: Map<Seq<char>, Seq<char>>,
    dc: Seq<u64>,
    j: int,
)
    requires
        graph_of(g, a, b),
        is_iso(a, b, sigma, orient, mu),
        0 <= j < side_nets(a).len(),
        dc.len() == g.dev_terms.len(),
        forall|i: int| 0 <= i < a.devices.len() ==> #[trigger] dc[a.devices.len() + sigma[i]] == dc[i],
    ensures
        iv(g.net_incid@)[j].len() == iv(g.net_incid@)[nmap(a, b, mu, j)].len(),
        nparts(iv(g.net_incid@)[j], g.dev_kind@, dc).to_multiset() == nparts(
            iv(g.net_incid@)[nmap(a, b, mu, j)],
            g.dev_kind@,
            dc,
        ).to_multiset(),
{
    let na = a.devices.len();
    let nan = side_nets(a).len();
    let ds = a.devices + b.devices;
    let t = tv(g.dev_terms@);
    let inc = iv(g.net_incid@);
    let n = g.net_name.len() as int;
    let big_j = nmap(a, b, mu, j);
    lemma_net_partner(g, a, b, sigma, orient, mu, j);
    assert(strs(g.net_name@).len() == n);
    assert(0 <= big_j < n);
    let s1 = inc[j];
    let s2 = inc[big_j];
    let kinds = g.dev_kind@;
    let phi = |e: (usize, usize)|
        ((na + sigma[e.0 as int]) as usize, tpos(kinds[e.0 as int], t[e.0 as int].len(), orient[e.0 as int], e.1 as int) as usize);
    let gg = |e: (usize, usize)| (dc[e.0 as int], npos(kinds[e.0 as int], e.1));
    assert forall|x: (usize, usize)| #[trigger] s1.contains(x) implies s2.contains(phi(x)) && gg(phi(x)) == gg(x) by {
        let h = choose|h: int| 0 <= h < s1.len() && s1[h] == x;
        assert(inc[j][h] == x);
        let d = x.0 as int;
        let p = x.1 as int;
        assert(d < t.len() && p < t[d].len() && t[d][p] == j);
        lemma_terms_len(g, a, b, d);
        assert(t[d] == g.dev_terms@[d]@);
        if d >= na {
            lemma_terms_b(g, a, b, d - na, p);
            assert(t[d] == g.dev_terms@[d]@);
        }
        assert(d < na);
        lemma_terms_a(g, a, b, d, p);
        lemma_partner_terms(g, a, b, sigma, orient, mu, d, p);
        let da = a.devices[d];
        let k = sigma[d] as int;
        assert(dev_match(da, b.devices[k], orient[d], mu));
        assert(kinds[d] == ds[d].kind);
        assert(ds[d] == da);
        assert(t[d].len() == da.nodes.len());
        let q = tpos(da.kind, da.nodes.len(), orient[d], p);
        lemma_tpos(da.kind, da.nodes.len(), orient[d], p);
        lemma_terms_b(g, a, b, k, q);
        assert(t[na + k][q] == big_j);
        assert(inc[big_j].contains(((na + k) as usize, q as usize)));
        assert(phi(x) == ((na + k) as usize, q as usize));
        assert(kinds[na + k] == ds[na + k].kind);
        assert(ds[na + k] == b.devices[k]);
        assert(npos(da.kind, q as usize) == npos(da.kind, p as usize));
    }
    assert forall|y: (usize, usize)| #[trigger] s2.contains(y) implies exists|x: (usize, usize)| s1.contains(x) && #[trigger] phi(x) == y by {
        let h = choose|h: int| 0 <= h < s2.len() && s2[h] == y;
        assert(inc[big_j][h] == y);
        let d2 = y.0 as int;
        let q = y.1 as int;
        assert(d2 < t.len() && q < t[d2].len() && t[d2][q] == big_j);
        lemma_terms_len(g, a, b, d2);
        assert(t[d2] == g.dev_terms@[d2]@);
        if d2 < na {
            lemma_terms_a(g, a, b, d2, q);
            assert(t[d2] == g.dev_terms@[d2]@);
        }
        assert(d2 >= na);
        let k = d2 - na;
        lemma_onto(sigma, na);
        assert(hit(sigma, k));
        let i = choose|i: int| 0 <= i < sigma.len() && #[trigger] sigma[i] == k;
        let da = a.devices[i];
        assert(dev_match(da, b.devices[k], orient[i], mu));
        lemma_terms_b(g, a, b, k, q);
        assert(t[d2].len() == b.devices[k].nodes.len());
        let p = tpos(da.kind, da.nodes.len(), orient[i], q);
        lemma_tpos(da.kind, da.nodes.len(), orient[i], q);
        lemma_terms_a(g, a, b, i, p);
        let jj = t[i][p] as int;
        lemma_partner_terms(g, a, b, sigma, orient, mu, i, p);
        assert(nmap(a, b, mu, jj) == big_j);
        lemma_nmap_injective(g, a, b, sigma, orient, mu, jj, j);
        assert(inc[j].contains((i as usize, p as usize)));
        assert(kinds[i] == ds[i].kind);
        assert(ds[i] == da);
        assert(t[i].len() == da.nodes.len());
        assert(phi((i as usize, p as usize)) == y);
    }
    assert forall|x1: (usize, usize), x2: (usize, usize)| s1.contains(x1) && s1.contains(x2) && #[trigger] phi(x1) == #[trigger] phi(x2) implies x1 == x2 by {
        let h1 = choose|h: int| 0 <= h < s1.len() && s1[h] == x1;
        let h2 = choose|h: int| 0 <= h < s1.len() && s1[h] == x2;
        assert(inc[j][h1] == x1 && inc[j][h2] == x2);
        let d1 = x1.0 as int;
        let d2 = x2.0 as int;
        lemma_terms_len(g, a, b, d1);
        lemma_terms_len(g, a, b, d2);
        assert(t[d1] == g.dev_terms@[d1]@);
        assert(t[d2] == g.dev_terms@[d2]@);
        if d1 >= na {
            lemma_terms_b(g, a, b, d1 - na, x1.1 as int);
            assert(t[d1] == g.dev_terms@[d1]@);
        }
        if d2 >= na {
            lemma_terms_b(g, a, b, d2 - na, x2.1 as int);
            assert(t[d2] == g.dev_terms@[d2]@);
        }
        assert(sigma[d1] < b.devices.len() && sigma[d2] < b.devices.len());
        assert(d1 == d2);
        lemma_tpos(kinds[d1], t[d1].len(), orient[d1], x1.1 as int);
        lemma_tpos(kinds[d1], t[d1].len(), orient[d1], x2.1 as int);
    }
    assert(s1.no_duplicates() && s2.no_duplicates());
    lemma_bij_multiset(s1, s2, phi, gg, gg);
    assert(nparts(s1, kinds, dc) =~= s1.map_values(gg));
    assert(nparts(s2, kinds, dc) =~= s2.map_values(gg));
}

/// Every device and every net of `a` has the colour of its partner.
pub open spec fn col_inv(
    a: NetlistV,
    b: NetlistV,
    sigma: Seq<usize>,
    mu: Map<Seq<char>, Seq<char>>,
    dc: Seq<u64>,
    nc: Seq<u64>,
) -> bool {
    &&& dc.len() == a.devices.len() + b.devices.len()
    &&& nc.len() == side_nets(a).len() + side_nets(b).len()
    &&& forall|i: int| 0 <= i < a.devices.len() ==> #[trigger] dc[a.devices.len() + sigma[i]] == dc[i]
    &&& forall|j: int| 0 <= j < side_nets(a).len() ==> #[trigger] nc[nmap(a, b, mu, j)] == nc[j]
}

proof fn lemma_sorted_same(s1: Seq<(u64, u64)>, s2: Seq<(u64, u64)>)
    requires
        s1.to_multiset() == s2.to_multiset(),
    ensures
        crate::sort::sorted_pairs(s1) == crate::sort::sorted_pairs(s2),
{
    let leq = |x: (u64, u64), y: (u64, u64)| crate::sort::ple(x, y);
    crate::sort::lemma_ple_total();
    s1.lemma_sort_by_ensures(leq);
    s2.lemma_sort_by_ensures(leq);
    vstd::seq_lib::lemma_sorted_unique(s1.sort_by(leq), s2.sort_by(leq), leq);
}

/// A net is a supply by name exactly when its image is.
proof fn lemma_seed_supply(x: Seq<char>, pa: Seq<Seq<char>>, y: Seq<char>, pb: Seq<Seq<char>>)
    requires
        net_seed(x, pa) == net_seed(y, pb),
    ensures
        is_supply(x) == is_supply(y),
{
    let sx = net_seed(x, pa);
    let sy = net_seed(y, pb);
    if is_supply(x) {
        assert(sx[1] == (seq!['x', 'S', ':'] + crate::text::upper(x))[1]);
        assert(sx[1] == 'S');
    } else if pa.contains(x) {
        assert(sx[1] == (seq!['x', 'P', ':'] + x)[1]);
        assert(sx[1] == 'P');
    } else {
        assert(sx[1] == 'n');
    }
    if is_supply(y) {
        assert(sy[1] == (seq!['x', 'S', ':'] + crate::text::upper(y))[1]);
        assert(sy[1] == 'S');
    } else if pb.contains(y) {
        assert(sy[1] == (seq!['x', 'P', ':'] + y)[1]);
        assert(sy[1] == 'P');
    } else {
        assert(sy[1] == 'n');
    }
}

proof fn lemma_dev_key_inv(
    g: &Graph,
    a: NetlistV,
    b: NetlistV,
    sigma: Seq<usize>,
    orient: Seq<bool>,
    mu: Map<Seq<char>, Seq<char>>,
    sh: Shape,
    dc: Seq<u64>,
    nc: Seq<u64>,
    i: int,
)
    requires
        graph_of(g, a, b),
        is_iso(a, b, sigma, orient, mu),
        sh.kinds == g.dev_kind@,
        sh.terms == tv(g.dev_terms@),
        col_inv(a, b, sigma, mu, dc, nc),
        0 <= i < a.devices.len(),
    ensures
        dev_key(sh, dc, nc, i) == dev_key(sh, dc, nc, a.devices.len() + sigma[i]),
{
    let na = a.devices.len();
    let k = sigma[i] as int;
    let d2 = na + k;
    let ds = a.devices + b.devices;
    let da = a.devices[i];
    let db = b.devices[k];
    assert(dev_match(da, db, orient[i], mu));
    assert(sh.kinds[i] == ds[i].kind && ds[i] == da);
    assert(sh.kinds[d2] == ds[d2].kind && ds[d2] == db);
    lemma_terms_len(g, a, b, i);
    lemma_terms_len(g, a, b, d2);
    let t1 = sh.terms[i];
    let t2 = sh.terms[d2];
    assert(t1 == g.dev_terms@[i]@ && t2 == g.dev_terms@[d2]@);
    let n = da.nodes.len();
    assert forall|p: int| 0 <= p < n implies #[trigger] t2[tpos(da.kind, n, orient[i], p)] == nmap(a, b, mu, t1[p] as int)
        && nc[t2[tpos(da.kind, n, orient[i], p)] as int] == nc[t1[p] as int] by {
        lemma_partner_terms(g, a, b, sigma, orient, mu, i, p);
        lemma_terms_a(g, a, b, i, p);
    }
    let c1 = mcols(da.kind, t1, nc);
    let c2 = mcols(db.kind, t2, nc);
    if da.kind == 'M' && n >= 4 {
        assert(t2[tpos(da.kind, n, orient[i], 0)] == nmap(a, b, mu, t1[0] as int));
        assert(t2[tpos(da.kind, n, orient[i], 1)] == nmap(a, b, mu, t1[1] as int));
        assert(t2[tpos(da.kind, n, orient[i], 2)] == nmap(a, b, mu, t1[2] as int));
        assert(t2[tpos(da.kind, n, orient[i], 3)] == nmap(a, b, mu, t1[3] as int));
        assert(c1 =~= c2);
    } else {
        assert forall|p: int| 0 <= p < n implies c2[p] == c1[p] by {
            assert(tpos(da.kind, n, orient[i], p) == p);
        }
        assert(c1 =~= c2);
    }
}

proof fn lemma_net_key_inv(
    g: &Graph,
    a: NetlistV,
    b: NetlistV,
    sigma: Seq<usize>,
    orient: Seq<bool>,
    mu: Map<Seq<char>, Seq<char>>,
    sh: Shape,
    dc: Seq<u64>,
    nc: Seq<u64>,
    j: int,
)
    requires
        graph_of(g, a, b),
        is_iso(a, b, sigma, orient, mu),
        sh.kinds == g.dev_kind@,
        sh.incid == iv(g.net_incid@),
        col_inv(a, b, sigma, mu, dc, nc),
        0 <= j < side_nets(a).len(),
    ensures
        net_key(sh, dc, nc, j) == net_key(sh, dc, nc, nmap(a, b, mu, j)),
{
    lemma_incid_bij(g, a, b, sigma, orient, mu, dc, j);
    let big_j = nmap(a, b, mu, j);
    lemma_sorted_same(nparts(sh.incid[j], sh.kinds, dc), nparts(sh.incid[big_j], sh.kinds, dc));
}

proof fn lemma_round_inv(
    g: &Graph,
    a: NetlistV,
    b: NetlistV,
    sigma: Seq<usize>,
    orient: Seq<bool>,
    mu: Map<Seq<char>, Seq<char>>,
    dc: Seq<u64>,
    nc: Seq<u64>,
)
    requires
        graph_of(g, a, b),
        is_iso(a, b, sigma, orient, mu),
        anchored(a, b, mu),
        col_inv(a, b, sigma, mu, dc, nc),
    ensures
        col_inv(
            a,
            b,
            sigma,
            mu,
            round_spec(shape_of(g, graph_supply(g)), dc, nc).0,
            round_spec(shape_of(g, graph_supply(g)), dc, nc).1,
        ),
{
    let sh = shape_of(g, graph_supply(g));
    let r = round_spec(sh, dc, nc);
    let o = order(round_keys(sh, dc, nc));
    let na = a.devices.len();
    let nan = side_nets(a).len();
    let names = strs(g.net_name@);
    assert(names.len() == g.net_name.len());
    assert(sh.incid.len() == g.net_name.len());
    assert(sh.terms.len() == g.dev_terms.len());
    assert forall|i: int| 0 <= i < na implies #[trigger] r.0[na + sigma[i]] == r.0[i] by {
        lemma_dev_key_inv(g, a, b, sigma, orient, mu, sh, dc, nc, i);
    }
    assert forall|j: int| 0 <= j < nan implies #[trigger] r.1[nmap(a, b, mu, j)] == r.1[j] by {
        let big_j = nmap(a, b, mu, j);
        lemma_net_partner(g, a, b, sigma, orient, mu, j);
        lemma_incid_bij(g, a, b, sigma, orient, mu, dc, j);
        lemma_net_key_inv(g, a, b, sigma, orient, mu, sh, dc, nc, j);
        let x = side_nets(a)[j];
        assert(side_nets(a).contains(x));
        assert(net_seed(x, a.ports) == net_seed(mu[x], b.ports));
        lemma_seed_supply(x, a.ports, mu[x], b.ports);
        assert(names[j] == x);
        assert(names[big_j] == side_nets(b)[big_j - nan]);
        assert(names[big_j] == mu[x]);
        assert(sh.sup[j] == sh.sup[big_j]);
    }
}

proof fn lemma_refine_inv(
    g: &Graph,
    a: NetlistV,
    b: NetlistV,
    sigma: Seq<usize>,
    orient: Seq<bool>,
    mu: Map<Seq<char>, Seq<char>>,
    dc: Seq<u64>,
    nc: Seq<u64>,
    prev: nat,
    fuel: nat,
)
    requires
        graph_of(g, a, b),
        is_iso(a, b, sigma, orient, mu),
        anchored(a, b, mu),
        col_inv(a, b, sigma, mu, dc, nc),
    ensures
        col_inv(
            a,
            b,
            sigma,
            mu,
            refine_spec(shape_of(g, graph_supply(g)), dc, nc, prev, fuel).0,
            refine_spec(shape_of(g, graph_supply(g)), dc, nc, prev, fuel).1,
        ),
    decreases fuel,
{
    if fuel > 0 {
        let sh = shape_of(g, graph_supply(g));
        let r = round_spec(sh, dc, nc);
        lemma_round_inv(g, a, b, sigma, orient, mu, dc, nc);
        if r.2 != prev {
            lemma_refine_inv(g, a, b, sigma, orient, mu, r.0, r.1, r.2, (fuel - 1) as nat);
        }
    }
}

proof fn lemma_seed_inv(
    g: &Graph,
    a: NetlistV,
    b: NetlistV,
    sigma: Seq<usize>,
    orient: Seq<bool>,
    mu: Map<Seq<char>, Seq<char>>,
)
    requires
        graph_of(g, a, b),
        is_iso(a, b, sigma, orient, mu),
        anchored(a, b, mu),
    ensures
        col_inv(a, b, sigma, mu, seed_colours(a, b).0, seed_colours(a, b).1),
{
    let k = seed_keys(a, b);
    let o = order(k);
    let s = seed_colours(a, b);
    let na = a.devices.len();
    let nd = a.devices.len() + b.devices.len();
    let nan = side_nets(a).len();
    let ds = a.devices + b.devices;
    assert(k.len() == nd + nan + side_nets(b).len());
    assert forall|i: int| 0 <= i < na implies #[trigger] s.0[na + sigma[i]] == s.0[i] by {
        let kk = sigma[i] as int;
        assert(dev_match(a.devices[i], b.devices[kk], orient[i], mu));
        assert(k[i] == dev_seed(ds[i]));
        assert(k[na + kk] == dev_seed(ds[na + kk]));
        assert(ds[i] == a.devices[i] && ds[na + kk] == b.devices[kk]);
        assert(dev_seed(a.devices[i]) =~= dev_seed(b.devices[kk]));
    }
    assert forall|j: int| 0 <= j < nan implies #[trigger] s.1[nmap(a, b, mu, j)] == s.1[j] by {
        let big_j = nmap(a, b, mu, j);
        lemma_net_partner(g, a, b, sigma, orient, mu, j);
        let x = side_nets(a)[j];
        assert(side_nets(a).contains(x));
        assert(k[nd + j] == net_seed(x, a.ports));
        assert(k[nd + big_j] == net_seed(side_nets(b)[big_j - nan], b.ports));
    }
}

proof fn lemma_unbal_empty(what: Seq<char>, col: Seq<u64>, na: int, labels: Seq<Seq<char>>, cs: Seq<u64>)
    requires
        forall|v: u64| #[trigger] members(col.take(na), v).len() == members(col.skip(na), v).len(),
    ensures
        unbal(what, col, na, labels, cs).len() == 0,
    decreases cs.len(),
{
    if cs.len() > 0 {
        lemma_unbal_empty(what, col, na, labels, cs.drop_last());
        assert(members(col.take(na), cs.last()).len() == members(col.skip(na), cs.last()).len());
    }
}

proof fn lemma_dev_classes_balance(
    a: NetlistV,
    b: NetlistV,
    sigma: Seq<usize>,
    orient: Seq<bool>,
    mu: Map<Seq<char>, Seq<char>>,
    nc: Seq<u64>,
    dc: Seq<u64>,
)
    requires
        is_iso(a, b, sigma, orient, mu),
        col_inv(a, b, sigma, mu, dc, nc),
        dc.len() <= usize::MAX,
    ensures
        forall|v: u64| #[trigger] members(dc.take(a.devices.len() as int), v).len() == members(
            dc.skip(a.devices.len() as int),
            v,
        ).len(),
{
    let na = a.devices.len() as int;
    assert forall|v: u64| #[trigger] members(dc.take(na), v).len() == members(dc.skip(na), v).len() by {
        let ka = dc.take(na);
        let kb = dc.skip(na);
        lemma_cset_members(ka, v);
        lemma_cset_members(kb, v);
        lemma_onto(sigma, a.devices.len());
        let f = |i: int| sigma[i] as int;
        assert forall|y: int| cset(kb, v).contains(y) implies exists|x: int| cset(ka, v).contains(x) && #[trigger] f(x) == y by {
            assert(kb[y] == dc[na + y]);
            assert(hit(sigma, y));
            let i = choose|i: int| 0 <= i < sigma.len() && #[trigger] sigma[i] == y;
            assert(dc[na + sigma[i]] == dc[i]);
            assert(ka[i] == dc[i]);
            assert(cset(ka, v).contains(i));
            assert(f(i) == y);
        }
        assert forall|x: int| cset(ka, v).contains(x) implies cset(kb, v).contains(#[trigger] f(x)) by {
            assert(dc[na + sigma[x]] == dc[x]);
            assert(ka[x] == dc[x]);
            assert(kb[sigma[x] as int] == dc[na + sigma[x]]);
        }
        lemma_same_size(cset(ka, v), cset(kb, v), f);
    }
}

proof fn lemma_net_preimage(
    g: &Graph,
    a: NetlistV,
    b: NetlistV,
    sigma: Seq<usize>,
    orient: Seq<bool>,
    mu: Map<Seq<char>, Seq<char>>,
    dc: Seq<u64>,
    nc: Seq<u64>,
    v: u64,
    y: int,
) -> (j: int)
    requires
        graph_of(g, a, b),
        is_iso(a, b, sigma, orient, mu),
        col_inv(a, b, sigma, mu, dc, nc),
        cset(nc.skip(side_nets(a).len() as int), v).contains(y),
    ensures
        cset(nc.take(side_nets(a).len() as int), v).contains(j),
        nmap(a, b, mu, j) - side_nets(a).len() == y,
{
    let nan = side_nets(a).len() as int;
    let ka = nc.take(nan);
    let kb = nc.skip(nan);
    assert(kb[y] == nc[nan + y]);
    lemma_nmap_onto(g, a, b, sigma, orient, mu, y);
    let j = choose|j: int| 0 <= j < side_nets(a).len() && #[trigger] nmap(a, b, mu, j) == nan + y;
    assert(nc[nmap(a, b, mu, j)] == nc[j]);
    assert(ka[j] == nc[j]);
    j
}

proof fn lemma_net_classes_balance(
    g: &Graph,
    a: NetlistV,
    b: NetlistV,
    sigma: Seq<usize>,
    orient: Seq<bool>,
    mu: Map<Seq<char>, Seq<char>>,
    dc: Seq<u64>,
    nc: Seq<u64>,
)
    requires
        graph_of(g, a, b),
        is_iso(a, b, sigma, orient, mu),
        col_inv(a, b, sigma, mu, dc, nc),
        nc.len() <= usize::MAX,
    ensures
        forall|v: u64| #[trigger] members(nc.take(side_nets(a).len() as int), v).len() == members(
            nc.skip(side_nets(a).len() as int),
            v,
        ).len(),
{
    let nan = side_nets(a).len() as int;
    assert forall|v: u64| #[trigger] members(nc.take(nan), v).len() == members(nc.skip(nan), v).len() by {
        let ka = nc.take(nan);
        let kb = nc.skip(nan);
        lemma_cset_members(ka, v);
        lemma_cset_members(kb, v);
        let f = |j: int| nmap(a, b, mu, j) - nan;
        assert forall|x: int| cset(ka, v).contains(x) implies cset(kb, v).contains(#[trigger] f(x)) by {
            lemma_net_partner(g, a, b, sigma, orient, mu, x);
        }
        assert forall|y: int| cset(kb, v).contains(y) implies exists|x: int| cset(ka, v).contains(x) && #[trigger] f(x) == y by {
            let j = lemma_net_preimage(g, a, b, sigma, orient, mu, dc, nc, v, y);
            assert(f(j) == y);
        }
        assert forall|x1: int, x2: int| cset(ka, v).contains(x1) && cset(ka, v).contains(x2) && #[trigger] f(x1) == #[trigger] f(x2) implies x1 == x2 by {
            lemma_nmap_injective(g, a, b, sigma, orient, mu, x1, x2);
        }
        lemma_same_size(cset(ka, v), cset(kb, v), f);
    }
}

proof fn lemma_dec_no_bar(n: nat)
    ensures
        forall|k: int| 0 <= k < dec(n).len() ==> #[trigger] dec(n)[k] != '|',
    decreases n,
{
    if n >= 10 {
        lemma_dec_no_bar(n / 10);
        assert forall|k: int| 0 <= k < dec(n).len() implies #[trigger] dec(n)[k] != '|' by {
            if k < dec(n / 10).len() {
                assert(dec(n)[k] == dec(n / 10)[k]);
            }
        }
    }
}

proof fn lemma_refine_len(sh: Shape, dc: Seq<u64>, nc: Seq<u64>, prev: nat, fuel: nat)
    requires
        nc.len() == sh.incid.len(),
    ensures
        refine_spec(sh, dc, nc, prev, fuel).1.len() == sh.incid.len(),
    decreases fuel,
{
    if fuel > 0 {
        let r = round_spec(sh, dc, nc);
        if r.2 != prev {
            lemma_refine_len(sh, r.0, r.1, r.2, (fuel - 1) as nat);
        }
    }
}

pub proof fn lemma_order_len<K>(k: Seq<K>)
    ensures
        order(k).len() <= k.len(),
    decreases k.len(),
{
    if k.len() > 0 {
        lemma_order_len(k.drop_last());
    }
}

proof fn lemma_nonsup_len(ks: Seq<Seq<char>>, sup: Seq<bool>)
    ensures
        nonsup(ks, sup).len() <= ks.len(),
    decreases ks.len(),
{
    if ks.len() > 0 {
        lemma_nonsup_len(ks.drop_last(), sup);
    }
}

proof fn lemma_bars_first(c: Seq<u64>)
    ensures
        bars(c).len() > 0 ==> bars(c)[0] == '|',
    decreases c.len(),
{
    if c.len() > 0 {
        lemma_bars_first(c.drop_last());
    }
}

/// Two device keys of a round that are equal carry equal colours.
proof fn lemma_dkey_colour(c1: u64, s1: Seq<u64>, c2: u64, s2: Seq<u64>)
    requires
        dkey(c1, s1) == dkey(c2, s2),
    ensures
        c1 == c2,
{
    let d1 = dec(c1 as nat);
    let d2 = dec(c2 as nat);
    let t1 = bars(s1);
    let t2 = bars(s2);
    let w = dkey(c1, s1);
    assert(w == seq!['D'] + d1 + t1);
    assert(w == seq!['D'] + d2 + t2);
    lemma_dec_no_bar(c1 as nat);
    lemma_dec_no_bar(c2 as nat);
    lemma_bars_first(s1);
    lemma_bars_first(s2);
    if d1.len() < d2.len() {
        let k: int = 1 + d1.len() as int;
        assert(w[k] == d2[k - 1]);
        if t1.len() > 0 {
            assert(w[k] == t1[0]);
        } else {
            assert(w.len() == 1 + d1.len());
        }
    } else if d2.len() < d1.len() {
        let k: int = 1 + d2.len() as int;
        assert(w[k] == d1[k - 1]);
        if t2.len() > 0 {
            assert(w[k] == t2[0]);
        } else {
            assert(w.len() == 1 + d2.len());
        }
    } else {
        assert forall|k: int| 0 <= k < d1.len() implies d1[k] == d2[k] by {
            assert(w[1 + k] == d1[k]);
            assert(w[1 + k] == d2[k]);
        }
        assert(d1 =~= d2);
    }
    lemma_dec_injective(c1 as nat, c2 as nat);
}

/// Members of `o` at the same position are equal.
proof fn lemma_pos_eq<K>(o: Seq<K>, x: K, y: K)
    requires
        o.contains(x),
        o.contains(y),
        pos_in(o, x) == pos_in(o, y),
    ensures
        x == y,
{
}

/// Devices of equal colour after the rounds had equal colour before them.
proof fn lemma_refine_dev(sh: Shape, dc: Seq<u64>, nc: Seq<u64>, prev: nat, fuel: nat, i: int, j: int)
    requires
        dc.len() == sh.terms.len(),
        sh.terms.len() + sh.incid.len() <= u64::MAX,
        0 <= i < dc.len(),
        0 <= j < dc.len(),
        refine_spec(sh, dc, nc, prev, fuel).0[i] == refine_spec(sh, dc, nc, prev, fuel).0[j],
    ensures
        dc[i] == dc[j],
    decreases fuel,
{
    if fuel > 0 {
        let r = round_spec(sh, dc, nc);
        let ks = round_keys(sh, dc, nc);
        let o = order(ks);
        assert(r.0.len() == dc.len());
        if r.2 != prev {
            lemma_refine_dev(sh, r.0, r.1, r.2, (fuel - 1) as nat, i, j);
        }
        assert(r.0[i] == r.0[j]);
        let ki = dev_key(sh, dc, nc, i);
        let kj = dev_key(sh, dc, nc, j);
        assert(ks[i] == ki);
        assert(ks[j] == kj);
        assert(ks.contains(ki));
        assert(ks.contains(kj));
        lemma_order_contains(ks, ki);
        lemma_order_contains(ks, kj);
        lemma_order_len(ks);
        lemma_nonsup_len(Seq::new(sh.incid.len(), |j: int| net_key(sh, dc, nc, j)), sh.sup);
        assert(pos_in(o, ki) as u64 == pos_in(o, kj) as u64);
        assert(0 <= pos_in(o, ki) < o.len());
        assert(0 <= pos_in(o, kj) < o.len());
        lemma_pos_eq(o, ki, kj);
        lemma_dkey_colour(dc[i], mcols(sh.kinds[i], sh.terms[i], nc), dc[j], mcols(sh.kinds[j], sh.terms[j], nc));
    }
}

/// Devices of equal colour have the same kind and the same model key.
pub proof fn lemma_colour_kind(a: NetlistV, b: NetlistV, g: &Graph, i: int, j: int)
    requires
        graph_of(g, a, b),
        g.dev_terms.len() + g.net_name.len() <= usize::MAX,
        0 <= i < a.devices.len() + b.devices.len(),
        0 <= j < a.devices.len() + b.devices.len(),
        colours(a, b, g).0[i] == colours(a, b, g).0[j],
    ensures
        (a.devices + b.devices)[i].kind == (a.devices + b.devices)[j].kind,
        model_key((a.devices + b.devices)[i]) == model_key((a.devices + b.devices)[j]),
{
    let s = seed_colours(a, b);
    let sh = shape_of(g, graph_supply(g));
    let ds = a.devices + b.devices;
    let nd = ds.len();
    assert(sh.terms.len() == g.dev_terms.len());
    assert(sh.incid.len() == g.net_name.len());
    lemma_refine_dev(sh, s.0, s.1, s.2, 64, i, j);
    let k = seed_keys(a, b);
    let o = order(k);
    assert(strs(g.net_name@).len() == g.net_name.len());
    lemma_order_len(k);
    assert(k[i] == dev_seed(ds[i]));
    assert(k[j] == dev_seed(ds[j]));
    assert(k.contains(k[i]));
    assert(k.contains(k[j]));
    lemma_order_contains(k, k[i]);
    lemma_order_contains(k, k[j]);
    assert(0 <= pos_in(o, k[i]) < o.len());
    assert(0 <= pos_in(o, k[j]) < o.len());
    lemma_pos_eq(o, k[i], k[j]);
    let e1 = dev_seed(ds[i]);
    let e2 = dev_seed(ds[j]);
    assert(e1[3] == ds[i].kind);
    assert(e2[3] == ds[j].kind);
    assert(e1.skip(4) =~= model_key(ds[i]));
    assert(e2.skip(4) =~= model_key(ds[j]));
}

/// Every net of `a` is a terminal of some device of `a`.
proof fn lemma_a_net_terminal(g: &Graph, a: NetlistV, b: NetlistV, j: int)
    requires
        graph_of(g, a, b),
        0 <= j < side_nets(a).len(),
    ensures
        exists|i: int, p: int| 0 <= i < a.devices.len() && 0 <= p < a.devices[i].nodes.len() && #[trigger] g.dev_terms@[i]@[p] == j,
{
    let sa = side_nets(a);
    let x = sa[j];
    assert(sa.contains(x));
    lemma_order_contains(all_nodes(a.devices), x);
    lemma_all_nodes_has(a.devices, x);
    let (i, p) = choose|i: int, p: int| 0 <= i < a.devices.len() && 0 <= p < a.devices[i].nodes.len()
        && #[trigger] a.devices[i].nodes[p] == x;
    lemma_terms_a(g, a, b, i, p);
    lemma_order_no_dup(all_nodes(a.devices));
    assert(sa[g.dev_terms@[i]@[p] as int] == x);
}

/// Terminal `p` of the device of `a` in pair `e` is on a net of `a` that `nm`
/// binds to the net of `b` on the matching terminal of its partner.
spec fn pair_lands(g: &Graph, a: NetlistV, b: NetlistV, nm: Seq<usize>, e: (usize, usize, bool), p: int) -> bool {
    let nan = side_nets(a).len();
    let q = tpos(a.devices[e.0 as int].kind, a.devices[e.0 as int].nodes.len(), e.2, p);
    &&& nm[g.dev_terms@[e.0 as int]@[p] as int] == g.dev_terms@[e.1 as int]@[q]
    &&& nan <= g.dev_terms@[e.1 as int]@[q] < nan + side_nets(b).len()
    &&& side_nets(b)[g.dev_terms@[e.1 as int]@[q] - nan] == b.devices[e.1 - a.devices.len()].nodes[q]
    &&& side_nets(a)[g.dev_terms@[e.0 as int]@[p] as int] == a.devices[e.0 as int].nodes[p]
    &&& g.dev_terms@[e.0 as int]@[p] < nan
}

/// A pairing the search found over the graph of `a` beside `b` and their
/// colours, covering every device of `a`, passes the check against the
/// netlists themselves.
pub proof fn lemma_found_pairs(a: NetlistV, b: NetlistV, g: &Graph, cc: Seq<u64>, map: Seq<(usize, usize, bool)>)
    requires
        graph_of(g, a, b),
        g.dev_terms.len() + g.net_name.len() <= usize::MAX,
        a.devices.len() == b.devices.len(),
        cc.len() == colours(a, b, g).1.len(),
        found(g, colours(a, b, g).0, cc, map),
        forall|i: int| 0 <= i < a.devices.len() ==> #[trigger] pairs_dev(map, i),
    ensures
        pairing_ok(a, b, map),
{
    let c = colours(a, b, g);
    let na = a.devices.len();
    let nan = side_nets(a).len();
    let nbn = side_nets(b).len();
    let sa = side_nets(a);
    let sb = side_nets(b);
    let ds = a.devices + b.devices;
    let nm = choose|nm: Seq<usize>|
        nm.len() == cc.len() && one_to_one(nm) && colours_kept(nm, cc) && forall|k: int|
            0 <= k < map.len() ==> #[trigger] binds_terms(
                nm,
                terms_of(g, map[k].0),
                terms_of(g, map[k].1),
                g.dev_kind@[map[k].0 as int],
                map[k].2,
            );
    lemma_order_no_dup(all_nodes(a.devices));
    lemma_order_no_dup(all_nodes(b.devices));
    // each pair: its terminals land on nets of b
    assert forall|k: int, p: int| 0 <= k < map.len() && 0 <= p < a.devices[map[k].0 as int].nodes.len() implies #[trigger] pair_lands(
        g,
        a,
        b,
        nm,
        map[k],
        p,
    ) by {
        let e = map[k];
        let i = e.0 as int;
        let kb = e.1 - na;
        assert(binds_terms(nm, terms_of(g, e.0), terms_of(g, e.1), g.dev_kind@[i], e.2));
        lemma_terms_len(g, a, b, i);
        lemma_terms_len(g, a, b, e.1 as int);
        assert(ds[i] == a.devices[i]);
        assert(g.dev_kind@[i] == a.devices[i].kind);
        assert(ds[e.1 as int] == b.devices[kb]);
        let q = tpos(a.devices[i].kind, a.devices[i].nodes.len(), e.2, p);
        lemma_tpos(a.devices[i].kind, a.devices[i].nodes.len(), e.2, p);
        assert(nm[terms_of(g, e.0)[p] as int] == terms_of(g, e.1)[q]);
        lemma_terms_a(g, a, b, i, p);
        assert(na + kb == e.1);
        lemma_terms_b(g, a, b, kb, q);
    }
    // every net of a is bound to a net of b
    assert forall|j: int| 0 <= j < nan implies nan <= #[trigger] nm[j] < nan + nbn by {
        lemma_a_net_terminal(g, a, b, j);
        let (i, p) = choose|i: int, p: int| 0 <= i < a.devices.len() && 0 <= p < a.devices[i].nodes.len()
            && #[trigger] g.dev_terms@[i]@[p] == j;
        assert(pairs_dev(map, i));
        let k = choose|k: int| 0 <= k < map.len() && #[trigger] map[k].0 == i;
        assert(pair_lands(g, a, b, nm, map[k], p));
        assert(nm[g.dev_terms@[map[k].0 as int]@[p] as int] == nm[j]);
    }
    let m = Map::new(|x: Seq<char>| sa.contains(x), |x: Seq<char>| sb[nm[pos_in(sa, x)] - nan]);
    assert(m.is_injective()) by {
        assert forall|x1: Seq<char>, x2: Seq<char>| x1 != x2 && m.dom().contains(x1) && m.dom().contains(x2) implies #[trigger] m[x1]
            != #[trigger] m[x2] by {
            let j1 = pos_in(sa, x1);
            let j2 = pos_in(sa, x2);
            assert(sa[j1] == x1 && sa[j2] == x2);
            assert(nan <= nm[j1] < nan + nbn);
            assert(nan <= nm[j2] < nan + nbn);
            assert(j1 != j2);
            assert(strs(g.net_name@).len() == g.net_name.len());
            let s0 = seed_colours(a, b);
            assert(seed_keys(a, b).len() == ds.len() + nan + nbn);
            assert(s0.1.len() == nan + nbn);
            lemma_refine_len(shape_of(g, graph_supply(g)), s0.0, s0.1, s0.2, 64);
            assert(c.1.len() == nan + nbn);
            assert(0 <= j1 < nm.len() && 0 <= j2 < nm.len());
            assert(nm[j1] != usize::MAX);
            assert(nm[j1] != nm[j2]);
            assert(sb.no_duplicates());
        }
    }
    assert forall|k: int| 0 <= k < map.len() implies #[trigger] binds_dev(
        m,
        a.devices[map[k].0 as int],
        b.devices[map[k].1 - a.devices.len()],
        map[k].2,
    ) by {
        let e = map[k];
        let da = a.devices[e.0 as int];
        let db = b.devices[e.1 - na];
        assert forall|p: int| 0 <= p < da.nodes.len() implies #[trigger] pair_ok(m, da, db, e.2, p) by {
            let t = g.dev_terms@[e.0 as int]@[p];
            assert(pair_lands(g, a, b, nm, map[k], p));
            assert(nm[t as int] == g.dev_terms@[e.1 as int]@[tpos(da.kind, da.nodes.len(), e.2, p)]);
            assert(sa[t as int] == da.nodes[p]);
            assert(sa.contains(da.nodes[p]));
            lemma_pos_in(sa, da.nodes[p], t as int);
        }
    }
    assert(all_bind(m, a, b, map));
    assert forall|k: int| 0 <= k < map.len() implies #[trigger] entry_ok(a, b, map[k]) by {
        let e = map[k];
        lemma_colour_kind(a, b, g, e.0 as int, e.1 as int);
        assert(ds[e.0 as int] == a.devices[e.0 as int]);
        assert(ds[e.1 as int] == b.devices[e.1 - na]);
        lemma_terms_len(g, a, b, e.0 as int);
        lemma_terms_len(g, a, b, e.1 as int);
    }
    assert forall|k: int, l: int| 0 <= k < map.len() && 0 <= l < map.len() && k != l implies (#[trigger] map[k]).0 != (
    #[trigger] map[l]).0 && map[k].1 != map[l].1 by {
    }
}

/// Nets of equal seed colour have the same anchor (supply, port or other).
proof fn lemma_seed_net(a: NetlistV, b: NetlistV, g: &Graph, t: int, u: int)
    requires
        graph_of(g, a, b),
        g.dev_terms.len() + g.net_name.len() <= usize::MAX,
        0 <= t < side_nets(a).len(),
        side_nets(a).len() <= u < side_nets(a).len() + side_nets(b).len(),
        seed_colours(a, b).1[t] == seed_colours(a, b).1[u],
    ensures
        net_seed(side_nets(a)[t], a.ports) == net_seed(side_nets(b)[u - side_nets(a).len()], b.ports),
{
    let k = seed_keys(a, b);
    let o = order(k);
    let nd = a.devices.len() + b.devices.len();
    let nan = side_nets(a).len();
    assert(strs(g.net_name@).len() == g.net_name.len());
    assert(k.len() == nd + nan + side_nets(b).len());
    assert(k[nd + t] == net_seed(side_nets(a)[t], a.ports));
    assert(k[nd + u] == net_seed(side_nets(b)[u - nan], b.ports));
    assert(k.contains(k[nd + t]));
    assert(k.contains(k[nd + u]));
    lemma_order_contains(k, k[nd + t]);
    lemma_order_contains(k, k[nd + u]);
    lemma_order_len(k);
    assert(0 <= pos_in(o, k[nd + t]) < o.len());
    assert(0 <= pos_in(o, k[nd + u]) < o.len());
    lemma_pos_eq(o, k[nd + t], k[nd + u]);
}

/// A confirmed pairing the search found with net colours that keep the
/// anchors gives a net correspondence that keeps them: supplies go to
/// supplies of the same name, ports to ports of the same name.
pub proof fn lemma_found_anchored(
    a: NetlistV,
    b: NetlistV,
    g: &Graph,
    cc: Seq<u64>,
    map: Seq<(usize, usize, bool)>,
    sigma: Seq<usize>,
    orient: Seq<bool>,
    mu: Map<Seq<char>, Seq<char>>,
)
    requires
        graph_of(g, a, b),
        g.dev_terms.len() + g.net_name.len() <= usize::MAX,
        cc.len() == colours(a, b, g).1.len(),
        forall|j: int, k: int| 0 <= j < cc.len() && 0 <= k < cc.len() && #[trigger] cc[j] == #[trigger] cc[k] ==> seed_colours(a, b).1[j] == seed_colours(a, b).1[k],
        found(g, colours(a, b, g).0, cc, map),
        forall|i: int| 0 <= i < a.devices.len() ==> #[trigger] pairs_dev(map, i),
        is_iso(a, b, sigma, orient, mu),
        forall|k: int| 0 <= k < map.len() ==> sigma[(#[trigger] map[k]).0 as int] == map[k].1 - a.devices.len() && orient[map[k].0 as int] == map[k].2,
    ensures
        anchored(a, b, mu),
{
    let na = a.devices.len();
    let nan = side_nets(a).len();
    let nbn = side_nets(b).len();
    let sa = side_nets(a);
    let sb = side_nets(b);
    let ds = a.devices + b.devices;
    let nm = choose|nm: Seq<usize>|
        nm.len() == cc.len() && one_to_one(nm) && colours_kept(nm, cc) && forall|k: int|
            0 <= k < map.len() ==> #[trigger] binds_terms(
                nm,
                terms_of(g, map[k].0),
                terms_of(g, map[k].1),
                g.dev_kind@[map[k].0 as int],
                map[k].2,
            );
    lemma_order_no_dup(all_nodes(a.devices));
    assert forall|x: Seq<char>| #[trigger] sa.contains(x) implies net_seed(x, a.ports) == net_seed(mu[x], b.ports) by {
        let t = pos_in(sa, x);
        assert(sa[t] == x);
        lemma_a_net_terminal(g, a, b, t);
        let (i, p) = choose|i: int, p: int| 0 <= i < a.devices.len() && 0 <= p < a.devices[i].nodes.len()
            && #[trigger] g.dev_terms@[i]@[p] == t;
        lemma_terms_a(g, a, b, i, p);
        assert(pairs_dev(map, i));
        let k = choose|k: int| 0 <= k < map.len() && #[trigger] map[k].0 == i;
        let e = map[k];
        let kb = e.1 - na;
        assert(binds_terms(nm, terms_of(g, e.0), terms_of(g, e.1), g.dev_kind@[i], e.2));
        lemma_terms_len(g, a, b, i);
        lemma_terms_len(g, a, b, e.1 as int);
        assert(ds[i] == a.devices[i]);
        assert(g.dev_kind@[i] == a.devices[i].kind);
        assert(ds[e.1 as int] == b.devices[kb]);
        let q = tpos(a.devices[i].kind, a.devices[i].nodes.len(), e.2, p);
        lemma_tpos(a.devices[i].kind, a.devices[i].nodes.len(), e.2, p);
        assert(nm[terms_of(g, e.0)[p] as int] == terms_of(g, e.1)[q]);
        assert(na + kb == e.1);
        lemma_terms_b(g, a, b, kb, q);
        let u = g.dev_terms@[e.1 as int]@[q];
        assert(nm[t] == u);
        assert(sigma[i] == kb);
        assert(orient[i] == e.2);
        assert(dev_match(a.devices[i], b.devices[sigma[i] as int], orient[i], mu));
        assert(pair_ok(mu, a.devices[i], b.devices[sigma[i] as int], orient[i], p));
        assert(mu[x] == sb[u - nan]);
        assert(strs(g.net_name@).len() == g.net_name.len());
        let s0 = seed_colours(a, b);
        assert(seed_keys(a, b).len() == ds.len() + nan + nbn);
        assert(s0.1.len() == nan + nbn);
        lemma_refine_len(shape_of(g, graph_supply(g)), s0.0, s0.1, s0.2, 64);
        assert(nm.len() == nan + nbn);
        assert(u < g.net_name.len());
        assert(nm[t] != usize::MAX);
        assert(cc[t] == cc[nm[t] as int]);
        assert(cc[t] == cc[u as int]);
        lemma_seed_net(a, b, g, t, u as int);
    }
}

/// Two netlists that are the same circuit can be paired over their graph:
/// each device of A with the partner the correspondence gives it, under one
/// one-to-one net binding that keeps the refinement colours, whatever test of
/// pairs is used as long as it never rejects one. So a search over all such
/// pairings never finds none.
pub proof fn lemma_same_circuit_pairs<F: Fn(usize, usize) -> bool>(a: NetlistV, b: NetlistV, g: &Graph, cc: Seq<u64>, compatible: &F)
    requires
        graph_of(g, a, b),
        same_circuit(a, b),
        forall|i: usize, j: usize| !#[trigger] compatible.ensures((i, j), false),
        cc.len() == colours(a, b, g).1.len(),
        forall|j: int, k: int|
            0 <= j < cc.len() && 0 <= k < cc.len() && colours(a, b, g).1[j] == colours(a, b, g).1[k] && seed_colours(a, b).1[j]
                == seed_colours(a, b).1[k] ==> #[trigger] cc[j] == #[trigger] cc[k],
    ensures
        exists|f: Seq<(usize, bool)>, nm: Seq<usize>| #[trigger] pairing_by_dev(g, colours(a, b, g).0, cc, f, nm, compatible),
{
    let (sigma, orient, mu) = choose|sigma: Seq<usize>, orient: Seq<bool>, mu: Map<Seq<char>, Seq<char>>|
        #![trigger is_iso(a, b, sigma, orient, mu)]
        is_iso(a, b, sigma, orient, mu) && anchored(a, b, mu);
    let s = seed_colours(a, b);
    lemma_seed_inv(g, a, b, sigma, orient, mu);
    assert(col_inv(a, b, sigma, mu, s.0, s.1));
    lemma_refine_inv(g, a, b, sigma, orient, mu, s.0, s.1, s.2, 64);
    let c = colours(a, b, g);
    assert(col_inv(a, b, sigma, mu, c.0, c.1));
    let dc = c.0;
    let nc = cc;
    let na = a.devices.len();
    let nan = side_nets(a).len();
    let nbn = side_nets(b).len();
    assert(strs(g.net_name@).len() == g.net_name.len());
    assert(nc.len() == nan + nbn);
    let f = Seq::new(na, |i: int| ((na + sigma[i]) as usize, orient[i]));
    let nm = Seq::new((nan + nbn) as nat, |j: int| if j < nan { nmap(a, b, mu, j) as usize } else { usize::MAX });
    assert forall|j: int| 0 <= j < nan implies #[trigger] nm[j] == nmap(a, b, mu, j) && nan <= nm[j] < nan + nbn by {
        lemma_net_partner(g, a, b, sigma, orient, mu, j);
    }
    assert forall|i: int| 0 <= i < f.len() implies {
        &&& g.na_dev <= (#[trigger] f[i]).0 < g.dev_terms.len()
        &&& dc[f[i].0 as int] == dc[i]
        &&& g.dev_terms@[i].len() == g.dev_terms@[f[i].0 as int].len()
        &&& !compatible.ensures((i as usize, f[i].0), false)
    } by {
        let k = sigma[i] as int;
        assert(dev_match(a.devices[i], b.devices[k], orient[i], mu));
        lemma_terms_len(g, a, b, i);
        lemma_terms_len(g, a, b, na + k);
        assert(dc[na + sigma[i]] == dc[i]);
    }
    assert forall|i1: int, i2: int| 0 <= i1 < f.len() && 0 <= i2 < f.len() && i1 != i2 implies (#[trigger] f[i1]).0 != (
    #[trigger] f[i2]).0 by {
        assert(sigma[i1] != sigma[i2]);
    }
    assert(one_to_one(nm)) by {
        assert forall|a1: int, a2: int|
            0 <= a1 < nm.len() && 0 <= a2 < nm.len() && a1 != a2 && #[trigger] nm[a1] != usize::MAX implies nm[a1] != #[trigger] nm[a2] by {
            if a1 < nan && a2 < nan && nm[a1] == nm[a2] {
                lemma_nmap_injective(g, a, b, sigma, orient, mu, a1, a2);
            }
        }
    }
    assert(colours_kept(nm, nc)) by {
        assert forall|x: int| 0 <= x < nm.len() && #[trigger] nm[x] != usize::MAX implies nc[x] == nc[nm[x] as int] by {
            assert(x < nan);
            assert(c.1[nmap(a, b, mu, x)] == c.1[x]);
            assert(s.1[nmap(a, b, mu, x)] == s.1[x]);
        }
    }
    assert forall|i: int| 0 <= i < f.len() implies #[trigger] binds_terms(
        nm,
        terms_of(g, i as usize),
        terms_of(g, f[i].0),
        g.dev_kind@[i],
        f[i].1,
    ) by {
        let ta = terms_of(g, i as usize);
        let tb = terms_of(g, f[i].0);
        lemma_terms_len(g, a, b, i);
        assert(g.dev_kind@[i] == (a.devices + b.devices)[i].kind);
        assert((a.devices + b.devices)[i] == a.devices[i]);
        assert forall|p: int| 0 <= p < ta.len() implies #[trigger] nm[ta[p] as int] == tb[tpos(g.dev_kind@[i], ta.len(), f[i].1, p)] by {
            lemma_terms_a(g, a, b, i, p);
            lemma_partner_terms(g, a, b, sigma, orient, mu, i, p);
            assert(nm[ta[p] as int] == nmap(a, b, mu, ta[p] as int));
        }
    }
    assert(pairing_by_dev(g, dc, nc, f, nm, compatible));
}

/// Two netlists that are the same circuit (a one-to-one correspondence of
/// devices and nets carries every connection, and supplies and ports stay in
/// place) are never told apart by the colour refinement, whatever order the
/// graph lists incidences in: they have as many devices and as many nets,
/// and no refinement class is unbalanced.
pub proof fn lemma_same_circuit_balances(a: NetlistV, b: NetlistV, g: &Graph)
    requires
        graph_of(g, a, b),
        same_circuit(a, b),
    ensures
        divergence(a, b, g).len() == 0,
        a.devices.len() == b.devices.len(),
        side_nets(a).len() == side_nets(b).len(),
{
    let (sigma, orient, mu) = choose|sigma: Seq<usize>, orient: Seq<bool>, mu: Map<Seq<char>, Seq<char>>|
        #![trigger is_iso(a, b, sigma, orient, mu)]
        is_iso(a, b, sigma, orient, mu) && anchored(a, b, mu);
    let s = seed_colours(a, b);
    lemma_seed_inv(g, a, b, sigma, orient, mu);
    lemma_refine_inv(g, a, b, sigma, orient, mu, s.0, s.1, s.2, 64);
    let c = colours(a, b, g);
    assert(col_inv(a, b, sigma, mu, c.0, c.1));
    assert(strs(g.net_name@).len() == g.net_name.len());
    lemma_dev_classes_balance(a, b, sigma, orient, mu, c.1, c.0);
    lemma_net_classes_balance(g, a, b, sigma, orient, mu, c.0, c.1);
    let l1 = class_list("device"@, c.0, a.devices.len() as int, dev_labels(a, b));
    let l2 = class_list("net"@, c.1, side_nets(a).len() as int, net_labels(a, b));
    lemma_unbal_empty("device"@, c.0, a.devices.len() as int, dev_labels(a, b), asc_colours(c.0));
    lemma_unbal_empty("net"@, c.1, side_nets(a).len() as int, net_labels(a, b), asc_colours(c.1));
    let xs = l1 + l2;
    assert(xs.len() == 0);
    let ks = Seq::new(xs.len(), |k: int| ((xs[k].a_count + xs[k].b_count) as u64, k as u64));
    assert(ks =~= Seq::<(u64, u64)>::empty());
    crate::sort::lemma_is_sorted(ks, Seq::<(u64, u64)>::empty());
    assert(sorted_pairs(ks).len() == 0);
    // equal numbers of nets: the partners of A's nets are exactly B's nets
    let nan = side_nets(a).len() as int;
    let nbn = side_nets(b).len() as int;
    let f = |j: int| nmap(a, b, mu, j) - nan;
    vstd::set_lib::lemma_int_range(0, nan);
    let ra = vstd::set_lib::set_int_range(0, nan);
    let rb = vstd::set_lib::set_int_range(0, nbn);
    assert forall|x: int| ra.contains(x) implies rb.contains(#[trigger] f(x)) by {
        lemma_net_partner(g, a, b, sigma, orient, mu, x);
    }
    assert forall|y: int| rb.contains(y) implies exists|x: int| ra.contains(x) && #[trigger] f(x) == y by {
        lemma_nmap_onto(g, a, b, sigma, orient, mu, y);
        let j = choose|j: int| 0 <= j < side_nets(a).len() && #[trigger] nmap(a, b, mu, j) == nan + y;
        assert(f(j) == y);
    }
    assert forall|x1: int, x2: int| ra.contains(x1) && ra.contains(x2) && #[trigger] f(x1) == #[trigger] f(x2) implies x1 == x2 by {
        lemma_nmap_injective(g, a, b, sigma, orient, mu, x1, x2);
    }
    lemma_same_size(ra, rb, f);
    vstd::set_lib::lemma_int_range(0, nbn);
}

/// A comparison of two netlists that are the same circuit finds as many
/// devices and as many nets on each side and no unbalanced class: a
/// divergence report is only ever made for netlists that differ.
pub proof fn lemma_same_circuit_never_diverges(a: NetlistV, b: NetlistV, r: LvsResult)
    requires
        outcome_core(a, b, r),
        same_circuit(a, b),
    ensures
        r.unbalanced.len() == 0,
        r.a_devices == r.b_devices,
        r.a_nets == r.b_nets,
{
    let g = choose|g: Graph| graph_of(&g, a, b) && colours(a, b, &g).2 == r.iterations as nat && divergence(a, b, &g)
        == classes_view(r.unbalanced@);
    lemma_same_circuit_balances(a, b, &g);
    assert(classes_view(r.unbalanced@).len() == r.unbalanced.len());
}

} // verus!
