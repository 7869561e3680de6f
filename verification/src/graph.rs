//! The device/net graph of two netlists side by side: the devices of A then
//! those of B, the nets of A then those of B. The nets of a side are the node
//! names on its device terminals, in order of first appearance.
use vstd::prelude::*;
use vstd::hash_map::StringHashMap;
use crate::compare::order;
use crate::spice::{strs, Device, DeviceV, Netlist, NetlistV};

verus! {

/// All terminal nodes of `ds`, device after device.
pub open spec fn all_nodes(ds: Seq<DeviceV>) -> Seq<Seq<char>>
    decreases ds.len(),
{
    if ds.len() == 0 {
        Seq::empty()
    } else {
        all_nodes(ds.drop_last()) + ds.last().nodes
    }
}

/// The nets of one side: its distinct terminal nodes in order of first appearance.
pub open spec fn side_nets(nl: NetlistV) -> Seq<Seq<char>> {
    order(all_nodes(nl.devices))
}

pub open spec fn tv(t: Seq<Vec<usize>>) -> Seq<Seq<usize>> {
    t.map_values(|v: Vec<usize>| v@)
}

pub open spec fn iv(t: Seq<Vec<(usize, usize)>>) -> Seq<Seq<(usize, usize)>> {
    t.map_values(|v: Vec<(usize, usize)>| v@)
}

/// `inc[j]` lists each (device, terminal) of `t` on net `j` exactly once, for
/// each of the `n` nets.
pub open spec fn incid_ok(t: Seq<Seq<usize>>, inc: Seq<Seq<(usize, usize)>>, n: int) -> bool {
    &&& inc.len() == n
    &&& forall|j: int, k: int|
        0 <= j < n && 0 <= k < inc[j].len() ==> {
            &&& (#[trigger] inc[j][k]).0 < t.len()
            &&& inc[j][k].1 < t[inc[j][k].0 as int].len()
            &&& t[inc[j][k].0 as int][inc[j][k].1 as int] == j
        }
    &&& forall|j: int| 0 <= j < n ==> (#[trigger] inc[j]).no_duplicates()
    &&& forall|d: int, p: int|
        0 <= d < t.len() && 0 <= p < t[d].len() ==> #[trigger] t[d][p] < n && inc[t[d][p] as int].contains(
            (d as usize, p as usize),
        )
}

/// The terminals of device `e` sit in `t` and name its nodes among `nm`, at
/// positions from `n0` on.
pub open spec fn terms_name(t: Seq<usize>, nodes: Seq<Seq<char>>, nm: Seq<Seq<char>>, n0: int) -> bool {
    &&& t.len() == nodes.len()
    &&& forall|q: int| 0 <= q < t.len() ==> n0 <= #[trigger] t[q] < nm.len() && nm[t[q] as int] == nodes[q]
}

proof fn lemma_terms_name_grow(t: Seq<usize>, nodes: Seq<Seq<char>>, nm: Seq<Seq<char>>, nm2: Seq<Seq<char>>, n0: int)
    requires
        terms_name(t, nodes, nm, n0),
        nm.len() <= nm2.len(),
        nm2.take(nm.len() as int) == nm,
    ensures
        terms_name(t, nodes, nm2, n0),
{
    assert forall|q: int| 0 <= q < t.len() implies n0 <= #[trigger] t[q] < nm2.len() && nm2[t[q] as int] == nodes[q] by {
        assert(nm2.take(nm.len() as int)[t[q] as int] == nm2[t[q] as int]);
    }
}

proof fn lemma_all_nodes_step(ds: Seq<DeviceV>, i: int)
    requires
        0 <= i < ds.len(),
    ensures
        all_nodes(ds.take(i + 1)) == all_nodes(ds.take(i)) + ds[i].nodes,
{
    assert(ds.take(i + 1).drop_last() =~= ds.take(i));
}

proof fn lemma_order_push<K>(k: Seq<K>, x: K)
    ensures
        order(k.push(x)) == if order(k).contains(x) {
            order(k)
        } else {
            order(k).push(x)
        },
{
    assert(k.push(x).drop_last() =~= k);
}

/// `x` comes before `y`: by device, then by terminal.
pub open spec fn pair_lt(x: (usize, usize), y: (usize, usize)) -> bool {
    x.0 < y.0 || (x.0 == y.0 && x.1 < y.1)
}

/// Each net's incidences are listed in ascending order of (device, terminal).
pub open spec fn incid_sorted(inc: Seq<Seq<(usize, usize)>>) -> bool {
    forall|j: int, k1: int, k2: int|
        0 <= j < inc.len() && 0 <= k1 < k2 < inc[j].len() ==> pair_lt(#[trigger] inc[j][k1], #[trigger] inc[j][k2])
}

/// Appends the devices and nets of `nl` to a graph under construction.
fn add_side(
    terms: &mut Vec<Vec<usize>>,
    names: &mut Vec<String>,
    incid: &mut Vec<Vec<(usize, usize)>>,
    nl: &Netlist,
)
    requires
        incid_ok(tv(old(terms)@), iv(old(incid)@), old(names).len() as int),
        incid_sorted(iv(old(incid)@)),
    ensures
        incid_sorted(iv(final(incid)@)),
        final(terms).len() == old(terms).len() + nl.devices.len(),
        tv(final(terms)@).take(old(terms).len() as int) == tv(old(terms)@),
        strs(final(names)@) == strs(old(names)@) + side_nets(nl@),
        forall|i: int| 0 <= i < nl.devices.len() ==> #[trigger] terms_name(
            final(terms)@[old(terms).len() + i]@,
            nl@.devices[i].nodes,
            strs(final(names)@),
            old(names).len() as int,
        ),
        incid_ok(tv(final(terms)@), iv(final(incid)@), final(names).len() as int),
{
    let ghost t0 = terms.len();
    let ghost n0 = names.len();
    let ghost n0s = strs(names@);
    let ghost tv0 = tv(terms@);
    let ghost ds = nl@.devices;
    let mut map: StringHashMap<usize> = StringHashMap::new();
    proof {
        assert(ds.take(0) =~= Seq::<DeviceV>::empty());
        assert(order(all_nodes(ds.take(0))) =~= Seq::<Seq<char>>::empty());
        assert(tv(terms@).take(t0 as int) =~= tv0);
        assert(strs(names@) =~= n0s + order(all_nodes(ds.take(0))));
    }
    let mut i: usize = 0;
    while i < nl.devices.len()
        invariant
            i <= nl.devices.len(),
            ds == nl@.devices,
            t0 + i == terms.len(),
            n0 <= names.len(),
            tv(terms@).take(t0 as int) == tv0,
            strs(names@) == n0s + order(all_nodes(ds.take(i as int))),
            n0s.len() == n0,
            forall|s: Seq<char>| #[trigger] map@.contains_key(s) ==> n0 <= map@[s] < names.len()
                && names@[map@[s] as int]@ == s,
            forall|s: Seq<char>| order(all_nodes(ds.take(i as int))).contains(s) ==> #[trigger] map@.contains_key(s),
            forall|s: Seq<char>| #[trigger] map@.contains_key(s) ==> order(all_nodes(ds.take(i as int))).contains(s),
            forall|e: int| 0 <= e < i ==> #[trigger] terms_name(terms@[t0 + e]@, ds[e].nodes, strs(names@), n0 as int),
            incid_ok(tv(terms@), iv(incid@), names.len() as int),
            incid_sorted(iv(incid@)),
        decreases nl.devices.len() - i,
    {
        let d: &Device = &nl.devices[i];
        let did = terms.len();
        let mut cur: Vec<usize> = Vec::new();
        let ghost pre = all_nodes(ds.take(i as int));
        proof {
            assert(d@ == ds[i as int]);
            assert(d@.nodes.take(0) =~= Seq::<Seq<char>>::empty());
            assert(pre + d@.nodes.take(0) =~= pre);
            assert(tv(terms@).push(cur@) =~= tv(terms@).push(Seq::<usize>::empty()));
            assert forall|j: int| 0 <= j < names.len() implies !(#[trigger] iv(incid@)[j]).contains(
                (did, 0usize),
            ) by {
                if iv(incid@)[j].contains((did, 0usize)) {
                    let k = choose|k: int| 0 <= k < iv(incid@)[j].len() && iv(incid@)[j][k] == (did, 0usize);
                    assert(iv(incid@)[j][k].0 < tv(terms@).len());
                }
            }
        }
        let mut p: usize = 0;
        while p < d.nodes.len()
            invariant
                i < nl.devices.len(),
                ds == nl@.devices,
                d@ == ds[i as int],
                did == terms.len(),
                t0 + i == terms.len(),
                p <= d.nodes.len(),
                cur.len() == p,
                n0 <= names.len(),
                n0s.len() == n0,
                tv(terms@).take(t0 as int) == tv0,
                pre == all_nodes(ds.take(i as int)),
                strs(names@) == n0s + order(pre + d@.nodes.take(p as int)),
                forall|s: Seq<char>| #[trigger] map@.contains_key(s) ==> n0 <= map@[s] < names.len()
                    && names@[map@[s] as int]@ == s,
                forall|s: Seq<char>| order(pre + d@.nodes.take(p as int)).contains(s) ==> #[trigger] map@.contains_key(s),
                forall|s: Seq<char>| #[trigger] map@.contains_key(s) ==> order(pre + d@.nodes.take(p as int)).contains(s),
                forall|e: int| 0 <= e < i ==> #[trigger] terms_name(terms@[t0 + e]@, ds[e].nodes, strs(names@), n0 as int),
                forall|q: int| 0 <= q < p ==> n0 <= #[trigger] cur@[q] < names.len()
                    && names@[cur@[q] as int]@ == d@.nodes[q],
                incid_ok(tv(terms@).push(cur@), iv(incid@), names.len() as int),
                incid_sorted(iv(incid@)),
            decreases d.nodes.len() - p,
        {
            let node = &d.nodes[p];
            let ghost k = pre + d@.nodes.take(p as int);
            proof {
                assert(pre + d@.nodes.take(p + 1) =~= k.push(node@));
                lemma_order_push(k, node@);
                assert(node@ == d@.nodes[p as int]);
            }
            let ghost tt = tv(terms@).push(cur@);
            let nid: usize;
            match map.get(node.as_str()) {
                Some(x) => {
                    nid = *x;
                    proof {
                        assert(order(k).contains(node@));
                    }
                },
                None => {
                    nid = names.len();
                    let ghost nm0 = names@;
                    let ghost ib = iv(incid@);
                    names.push(node.clone());
                    incid.push(Vec::new());
                    map.insert(node.clone(), nid);
                    proof {
                        assert(!order(k).contains(node@));
                        assert(strs(names@) =~= strs(nm0).push(node@));
                        assert(strs(names@).take(nm0.len() as int) =~= strs(nm0));
                        assert forall|e: int| 0 <= e < i implies #[trigger] terms_name(terms@[t0 + e]@, ds[e].nodes, strs(names@), n0 as int) by {
                            lemma_terms_name_grow(terms@[t0 + e]@, ds[e].nodes, strs(nm0), strs(names@), n0 as int);
                        }
                        assert(iv(incid@) =~= ib.push(Seq::<(usize, usize)>::empty()));
                        assert forall|j: int, kk: int|
                            0 <= j < names.len() && 0 <= kk < iv(incid@)[j].len() implies {
                                &&& (#[trigger] iv(incid@)[j][kk]).0 < tt.len()
                                &&& iv(incid@)[j][kk].1 < tt[iv(incid@)[j][kk].0 as int].len()
                                &&& tt[iv(incid@)[j][kk].0 as int][iv(incid@)[j][kk].1 as int] == j
                            } by {
                            assert(j < nid);
                            assert(iv(incid@)[j] == ib[j]);
                        }
                        assert forall|j: int, k1: int, k2: int|
                            0 <= j < iv(incid@).len() && 0 <= k1 < k2 < iv(incid@)[j].len() implies pair_lt(
                            #[trigger] iv(incid@)[j][k1],
                            #[trigger] iv(incid@)[j][k2],
                        ) by {
                            assert(j < nid);
                            assert(iv(incid@)[j] == ib[j]);
                        }
                        assert forall|j: int| 0 <= j < names.len() implies (#[trigger] iv(
                            incid@,
                        )[j]).no_duplicates() by {
                            if j < nid {
                                assert(iv(incid@)[j] == ib[j]);
                            }
                        }
                        assert forall|e: int, q: int| 0 <= e < tt.len() && 0 <= q < tt[e].len() implies #[trigger] tt[e][q]
                            < names.len() && iv(incid@)[tt[e][q] as int].contains((e as usize, q as usize)) by {
                            let j = tt[e][q] as int;
                            assert(ib[j].contains((e as usize, q as usize)));
                            assert(iv(incid@)[j] == ib[j]);
                        }
                        assert forall|s: Seq<char>| #[trigger] map@.contains_key(s) implies order(
                            pre + d@.nodes.take(p + 1),
                        ).contains(s) by {
                            if s != node@ {
                                assert(order(k).contains(s));
                                let h = choose|h: int| 0 <= h < order(k).len() && order(k)[h] == s;
                                assert(order(k).push(node@)[h] == s);
                            } else {
                                assert(order(k).push(node@).last() == s);
                            }
                        }
                    }
                },
            }
            let ghost inc0 = iv(incid@);
            incid[nid].push((did, p));
            cur.push(nid);
            proof {
                let inc1 = iv(incid@);
                let t1 = tv(terms@).push(cur@);
                assert(t1 =~= tt.update(did as int, tt[did as int].push(nid)));
                assert(inc1 =~= inc0.update(nid as int, inc0[nid as int].push((did, p))));
                assert(!inc0[nid as int].contains((did, p))) by {
                    if inc0[nid as int].contains((did, p)) {
                        let kk = choose|kk: int| 0 <= kk < inc0[nid as int].len() && inc0[nid as int][kk] == (did, p);
                        assert(inc0[nid as int][kk].1 < tt[did as int].len());
                    }
                }
                assert forall|j: int, kk: int|
                    0 <= j < names.len() && 0 <= kk < inc1[j].len() implies {
                        &&& (#[trigger] inc1[j][kk]).0 < t1.len()
                        &&& inc1[j][kk].1 < t1[inc1[j][kk].0 as int].len()
                        &&& t1[inc1[j][kk].0 as int][inc1[j][kk].1 as int] == j
                    } by {
                    if j == nid && kk == inc0[j].len() {
                    } else {
                        assert(inc1[j][kk] == inc0[j][kk]);
                    }
                }
                assert forall|j: int, k1: int, k2: int|
                    0 <= j < inc1.len() && 0 <= k1 < k2 < inc1[j].len() implies pair_lt(#[trigger] inc1[j][k1], #[trigger] inc1[j][k2]) by {
                    if j == nid && k2 == inc0[j].len() {
                        let e = inc0[j][k1];
                        assert(e.0 < tt.len());
                        assert(e.1 < tt[e.0 as int].len());
                        assert(inc1[j][k1] == e);
                    } else {
                        assert(inc1[j][k1] == inc0[j][k1]);
                        assert(inc1[j][k2] == inc0[j][k2]);
                    }
                }
                assert forall|j: int| 0 <= j < names.len() implies (#[trigger] inc1[j]).no_duplicates() by {
                    if j == nid {
                        assert(inc0[j].no_duplicates());
                    } else {
                        assert(inc1[j] == inc0[j]);
                    }
                }
                assert forall|e: int, q: int| 0 <= e < t1.len() && 0 <= q < t1[e].len() implies #[trigger] t1[e][q]
                    < names.len() && inc1[t1[e][q] as int].contains((e as usize, q as usize)) by {
                    if e == did && q == p {
                        assert(inc1[nid as int].last() == (did, p));
                    } else {
                        assert(t1[e][q] == tt[e][q]);
                        let j = tt[e][q] as int;
                        assert(inc0[j].contains((e as usize, q as usize)));
                        let kk = choose|kk: int| 0 <= kk < inc0[j].len() && inc0[j][kk] == (e as usize, q as usize);
                        assert(inc1[j][kk] == inc0[j][kk]);
                    }
                }
            }
            p += 1;
        }
        let ghost c = cur@;
        let ghost old_terms = terms@;
        terms.push(cur);
        proof {
            assert(d@.nodes.take(p as int) =~= d@.nodes);
            lemma_all_nodes_step(ds, i as int);
            assert(terms@[did as int]@ == c);
            assert(tv(terms@) =~= tv(old_terms).push(c));
            assert(terms_name(c, ds[i as int].nodes, strs(names@), n0 as int));
            assert forall|e: int| 0 <= e < i + 1 implies #[trigger] terms_name(terms@[t0 + e]@, ds[e].nodes, strs(names@), n0 as int) by {
                if e < i {
                    assert(terms@[t0 + e] == old_terms[t0 + e]);
                }
            }
            assert(tv(terms@) =~= tv(terms@).take(did as int).push(c));
            assert(tv(terms@).take(did as int) =~= tv(terms@.take(did as int)));
            assert(tv(terms@).take(t0 as int) =~= tv0);
        }
        i += 1;
    }
    proof {
        assert(ds.take(i as int) =~= ds);
    }
}

/// The graph of two netlists A and B: devices of A then of B, nets of A then
/// of B, with each device's terminal nets and each net's (device, terminal)
/// incidences.
pub struct Graph {
    /// The number of devices of A.
    pub na_dev: usize,
    /// The number of nets of A.
    pub na_net: usize,
    pub dev_kind: Vec<char>,
    pub dev_terms: Vec<Vec<usize>>,
    pub net_name: Vec<String>,
    pub net_incid: Vec<Vec<(usize, usize)>>,
}

/// `g` is the graph of `a` beside `b`.
pub open spec fn graph_of(g: &Graph, a: NetlistV, b: NetlistV) -> bool {
    let ds = a.devices + b.devices;
    &&& g.na_dev == a.devices.len()
    &&& g.na_net == side_nets(a).len()
    &&& g.dev_kind.len() == ds.len()
    &&& g.dev_terms.len() == ds.len()
    &&& forall|i: int| 0 <= i < ds.len() ==> #[trigger] g.dev_kind@[i] == ds[i].kind
    &&& strs(g.net_name@) == side_nets(a) + side_nets(b)
    &&& forall|i: int| 0 <= i < a.devices.len() ==> #[trigger] terms_name(
        g.dev_terms@[i]@,
        a.devices[i].nodes,
        side_nets(a),
        0,
    )
    &&& forall|i: int| a.devices.len() <= i < ds.len() ==> #[trigger] terms_name(
        g.dev_terms@[i]@,
        ds[i].nodes,
        strs(g.net_name@),
        g.na_net as int,
    )
    &&& incid_ok(tv(g.dev_terms@), iv(g.net_incid@), g.net_name.len() as int)
}

fn push_kinds(kinds: &mut Vec<char>, nl: &Netlist)
    ensures
        final(kinds)@ == old(kinds)@ + nl@.devices.map_values(|d: DeviceV| d.kind),
{
    let mut i: usize = 0;
    while i < nl.devices.len()
        invariant
            i <= nl.devices.len(),
            kinds@ == old(kinds)@ + nl@.devices.take(i as int).map_values(|d: DeviceV| d.kind),
        decreases nl.devices.len() - i,
    {
        kinds.push(nl.devices[i].kind);
        proof {
            assert(nl@.devices.take(i + 1).map_values(|d: DeviceV| d.kind) =~= nl@.devices.take(
                i as int,
            ).map_values(|d: DeviceV| d.kind).push(nl@.devices[i as int].kind));
        }
        i += 1;
    }
    proof {
        assert(nl@.devices.take(i as int) =~= nl@.devices);
    }
}

/// Builds the graph of `a` beside `b`, each net's incidences listed in
/// ascending order of device and terminal.
pub fn build_graph(a: &Netlist, b: &Netlist) -> (g: Graph)
    ensures
        graph_of(&g, a@, b@),
        incid_sorted(iv(g.net_incid@)),
{
    let mut terms: Vec<Vec<usize>> = Vec::new();
    let mut names: Vec<String> = Vec::new();
    let mut incid: Vec<Vec<(usize, usize)>> = Vec::new();
    let mut kinds: Vec<char> = Vec::new();
    proof {
        assert(tv(terms@) =~= Seq::<Seq<usize>>::empty());
        assert(iv(incid@) =~= Seq::<Seq<(usize, usize)>>::empty());
    }
    let ghost tb = terms.len();
    let ghost nb = names.len();
    add_side(&mut terms, &mut names, &mut incid, a);
    let na_dev = terms.len();
    let na_net = names.len();
    let ghost ta = terms@;
    let ghost nma = strs(names@);
    proof {
        assert(nma =~= side_nets(a@));
        assert forall|i: int| 0 <= i < na_dev implies #[trigger] terms_name(ta[i]@, a@.devices[i].nodes, nma, 0) by {
            assert(terms_name(ta[tb + i]@, a@.devices[i].nodes, nma, nb as int));
            assert(tb == 0 && nb == 0);
        }
    }
    add_side(&mut terms, &mut names, &mut incid, b);
    push_kinds(&mut kinds, a);
    push_kinds(&mut kinds, b);
    let g = Graph { na_dev, na_net, dev_kind: kinds, dev_terms: terms, net_name: names, net_incid: incid };
    proof {
        let ds = a@.devices + b@.devices;
        assert forall|i: int| 0 <= i < ds.len() implies #[trigger] g.dev_kind@[i] == ds[i].kind by {
            if i < na_dev {
                assert(g.dev_kind@[i] == a@.devices.map_values(|d: DeviceV| d.kind)[i]);
            } else {
                assert(g.dev_kind@[i] == b@.devices.map_values(|d: DeviceV| d.kind)[i - na_dev]);
            }
        }
        assert forall|i: int| 0 <= i < a@.devices.len() implies #[trigger] terms_name(
            g.dev_terms@[i]@,
            a@.devices[i].nodes,
            side_nets(a@),
            0,
        ) by {
            assert(tv(g.dev_terms@).take(na_dev as int)[i] == tv(ta)[i]);
            assert(terms_name(ta[i]@, a@.devices[i].nodes, nma, 0));
        }
        assert forall|i: int| a@.devices.len() <= i < ds.len() implies #[trigger] terms_name(
            g.dev_terms@[i]@,
            ds[i].nodes,
            strs(g.net_name@),
            g.na_net as int,
        ) by {
            let k = i - na_dev;
            assert(terms_name(g.dev_terms@[na_dev + k]@, b@.devices[k].nodes, strs(g.net_name@), na_net as int));
        }
    }
    g
}

} // verus!
