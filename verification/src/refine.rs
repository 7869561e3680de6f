//! Colour refinement on the graph of two netlists.
//!
//! A colour is the number of a key in a registry: keys are numbered in order
//! of first appearance, so a colour is the position of its key among the
//! distinct keys of a round (`order`). The seeds key a device by kind and
//! model and a net by its anchor: a supply by its upper-cased name, a port by
//! its name, any other net alike. Each round keys a device by its colour and
//! its terminals' colours (MOSFET source and drain unordered) and a net by its
//! colour and the sorted list of (device colour, terminal position) it touches
//! (MOSFET source and drain positions alike); supply nets keep their colour.
//! Rounds stop when the number of distinct keys no longer grows, or after 64.
use vstd::prelude::*;
use vstd::hash_map::StringHashMap;
use crate::compare::{order, is_supply, is_supply_name};
use crate::graph::{graph_of, side_nets, incid_ok, tv, iv, Graph};
use crate::sort::{sorted_pairs, sort_pairs};
use crate::spice::{strs, DeviceV, Netlist, NetlistV};
use crate::text::{dec, upper, chars_of, upper_vec, push_dec_u64, push_str, push_all, string_of, lemma_dec_digits, lemma_dec_injective};

verus! {

/// The position of `x` in `o` (meaningful when `x` occurs in `o` once).
pub open spec fn pos_in<K>(o: Seq<K>, x: K) -> int {
    choose|g: int| 0 <= g < o.len() && o[g] == x
}

pub proof fn lemma_order_no_dup<K>(k: Seq<K>)
    ensures
        order(k).no_duplicates(),
    decreases k.len(),
{
    if k.len() > 0 {
        lemma_order_no_dup(k.drop_last());
    }
}

pub proof fn lemma_order_contains<K>(k: Seq<K>, x: K)
    ensures
        order(k).contains(x) == k.contains(x),
    decreases k.len(),
{
    if k.len() > 0 {
        let o = order(k.drop_last());
        lemma_order_contains(k.drop_last(), x);
        if k.drop_last().contains(x) {
            let i = choose|i: int| 0 <= i < k.drop_last().len() && k.drop_last()[i] == x;
            assert(k[i] == x);
        }
        if k.contains(x) && !k.drop_last().contains(x) {
            let i = choose|i: int| 0 <= i < k.len() && k[i] == x;
            if i < k.len() - 1 {
                assert(k.drop_last()[i] == x);
            }
            assert(k.last() == x);
        }
        if order(k).contains(x) && !o.contains(x) {
            assert(!o.contains(k.last()) ==> order(k) == o.push(k.last()));
            let h = choose|h: int| 0 <= h < order(k).len() && order(k)[h] == x;
            assert(k.last() == x);
            assert(k[k.len() - 1] == x);
        }
        if o.contains(x) {
            let h = choose|h: int| 0 <= h < o.len() && o[h] == x;
            assert(order(k)[h] == x);
        }
        if k.last() == x {
            if !o.contains(x) {
                assert(order(k).last() == x);
            }
        }
    }
}

pub proof fn lemma_pos_in<K>(o: Seq<K>, x: K, g: int)
    requires
        o.no_duplicates(),
        0 <= g < o.len(),
        o[g] == x,
    ensures
        pos_in(o, x) == g,
{
    let h = pos_in(o, x);
    assert(0 <= h < o.len() && o[h] == x);
}

proof fn lemma_order_take_step<K>(k: Seq<K>, i: int)
    requires
        0 <= i < k.len(),
    ensures
        order(k.take(i + 1)) == if order(k.take(i)).contains(k[i]) {
            order(k.take(i))
        } else {
            order(k.take(i)).push(k[i])
        },
{
    assert(k.take(i + 1).drop_last() =~= k.take(i));
}

/// Numbers the keys: each key gets the position of its text among the
/// distinct keys in order of first appearance.
pub fn intern_all(keys: &Vec<String>) -> (r: (Vec<u64>, u64))
    ensures
        r.1 == order(strs(keys@)).len(),
        r.0.len() == keys.len(),
        forall|t: int| 0 <= t < keys.len() ==> #[trigger] r.0@[t] == pos_in(order(strs(keys@)), keys@[t]@)
            && r.0@[t] < r.1,
{
    let ghost k = strs(keys@);
    let mut map: StringHashMap<u64> = StringHashMap::new();
    let mut ids: Vec<u64> = Vec::new();
    let mut n: u64 = 0;
    proof {
        assert(k.take(0) =~= Seq::<Seq<char>>::empty());
    }
    let mut i: usize = 0;
    while i < keys.len()
        invariant
            i <= keys.len(),
            k == strs(keys@),
            ids.len() == i,
            n == order(k.take(i as int)).len(),
            n <= i,
            forall|s: Seq<char>| #[trigger] map@.contains_key(s) ==> map@[s] < n && order(k.take(i as int))[map@[s] as int] == s,
            forall|s: Seq<char>| order(k.take(i as int)).contains(s) ==> #[trigger] map@.contains_key(s),
            forall|t: int| 0 <= t < i ==> #[trigger] ids@[t] < n && order(k.take(i as int))[ids@[t] as int] == k[t],
        decreases keys.len() - i,
    {
        let ghost o = order(k.take(i as int));
        proof {
            lemma_order_take_step(k, i as int);
            assert(k[i as int] == keys@[i as int]@);
        }
        match map.get(keys[i].as_str()) {
            Some(x) => {
                let id = *x;
                ids.push(id);
                proof {
                    assert(o.contains(k[i as int]));
                }
            },
            None => {
                proof {
                    if o.contains(k[i as int]) {
                        assert(map@.contains_key(k[i as int]));
                    }
                }
                ids.push(n);
                map.insert(keys[i].clone(), n);
                proof {
                    let o2 = o.push(k[i as int]);
                    assert(order(k.take(i + 1)) == o2);
                    assert forall|s: Seq<char>| #[trigger] map@.contains_key(s) implies map@[s] < n + 1 && o2[map@[s] as int] == s by {
                        if s != k[i as int] {
                            assert(o2[map@[s] as int] == o[map@[s] as int]);
                        }
                    }
                    assert forall|s: Seq<char>| o2.contains(s) implies #[trigger] map@.contains_key(s) by {
                        if s != k[i as int] {
                            let h = choose|h: int| 0 <= h < o2.len() && o2[h] == s;
                            assert(o[h] == s);
                        }
                    }
                    assert forall|t: int| 0 <= t < i + 1 implies #[trigger] ids@[t] < n + 1 && o2[ids@[t] as int] == k[t] by {
                        if t < i {
                            assert(o2[ids@[t] as int] == o[ids@[t] as int]);
                        }
                    }
                }
                n += 1;
            },
        }
        i += 1;
    }
    proof {
        assert(k.take(i as int) =~= k);
        lemma_order_no_dup(k);
        assert forall|t: int| 0 <= t < keys.len() implies #[trigger] ids@[t] == pos_in(order(k), keys@[t]@) && ids@[t] < n by {
            lemma_pos_in(order(k), k[t], ids@[t] as int);
        }
    }
    (ids, n)
}

/// The key of a net for the bijection search: its refined colour and its
/// seed colour.
pub open spec fn pair_key(c: u64, s: u64) -> Seq<char> {
    dec(c as nat) + seq![':'] + dec(s as nat)
}

proof fn lemma_pair_key(c1: u64, s1: u64, c2: u64, s2: u64)
    requires
        pair_key(c1, s1) == pair_key(c2, s2),
    ensures
        c1 == c2 && s1 == s2,
{
    let d1 = dec(c1 as nat);
    let d2 = dec(c2 as nat);
    let w = pair_key(c1, s1);
    lemma_dec_digits(c1 as nat);
    lemma_dec_digits(c2 as nat);
    if d1.len() < d2.len() {
        assert(w[d1.len() as int] == ':');
        assert(w[d1.len() as int] == d2[d1.len() as int]);
    } else if d2.len() < d1.len() {
        assert(w[d2.len() as int] == ':');
        assert(w[d2.len() as int] == d1[d2.len() as int]);
    } else {
        assert forall|k: int| 0 <= k < d1.len() implies d1[k] == d2[k] by {
            assert(w[k] == d1[k]);
            assert(w[k] == d2[k]);
        }
        assert(d1 =~= d2);
        let t1 = dec(s1 as nat);
        let t2 = dec(s2 as nat);
        assert(w.skip(d1.len() as int + 1) =~= t1);
        assert(pair_key(c2, s2).skip(d2.len() as int + 1) =~= t2);
        lemma_dec_injective(s1 as nat, s2 as nat);
    }
    lemma_dec_injective(c1 as nat, c2 as nat);
}

/// One colour for each net that tells nets apart exactly when their
/// refined colours or their seed colours (their anchors) differ.
pub fn anchor_colours(nc: &Vec<u64>, sc: &Vec<u64>) -> (ac: Vec<u64>)
    requires
        nc.len() == sc.len(),
    ensures
        ac.len() == nc.len(),
        forall|j: int, k: int|
            0 <= j < ac.len() && 0 <= k < ac.len() ==> (#[trigger] ac@[j] == #[trigger] ac@[k] <==> (nc@[j] == nc@[k] && sc@[j] == sc@[k])),
{
    let mut keys: Vec<String> = Vec::new();
    let mut j: usize = 0;
    while j < nc.len()
        invariant
            j <= nc.len() == sc.len(),
            keys.len() == j,
            forall|t: int| 0 <= t < j ==> #[trigger] keys@[t]@ == pair_key(nc@[t], sc@[t]),
        decreases nc.len() - j,
    {
        let mut v: Vec<char> = Vec::new();
        push_dec_u64(&mut v, nc[j]);
        v.push(':');
        push_dec_u64(&mut v, sc[j]);
        proof {
            assert(v@ =~= pair_key(nc@[j as int], sc@[j as int]));
        }
        keys.push(string_of(&v));
        j += 1;
    }
    let (ids, _n) = intern_all(&keys);
    proof {
        let k = strs(keys@);
        let o = order(k);
        assert forall|j: int, t: int| 0 <= j < ids.len() && 0 <= t < ids.len() implies (#[trigger] ids@[j] == #[trigger] ids@[t] <==> (
        nc@[j] == nc@[t] && sc@[j] == sc@[t])) by {
            assert(k[j] == keys@[j]@);
            assert(k[t] == keys@[t]@);
            if ids@[j] == ids@[t] {
                assert(k.contains(k[j]));
                assert(k.contains(k[t]));
                lemma_order_contains(k, k[j]);
                lemma_order_contains(k, k[t]);
                assert(o[pos_in(o, k[j])] == k[j]);
                assert(o[pos_in(o, k[t])] == k[t]);
                lemma_pair_key(nc@[j], sc@[j], nc@[t], sc@[t]);
            }
        }
    }
    ids
}

// ---------------------------------------------------------------- seeds

/// A resistor, capacitor or inductor: its last token is a value, not a model.
pub open spec fn valued(kind: char) -> bool {
    kind == 'R' || kind == 'C' || kind == 'L'
}

/// What of a device's model token identifies its type: the model itself,
/// or nothing for a valued device, whose token is a value that parallel
/// combination changes and that the caller's compatibility test judges.
pub open spec fn model_key(d: DeviceV) -> Seq<char> {
    if valued(d.kind) {
        Seq::empty()
    } else {
        d.model
    }
}

/// The seed key of a device: its kind and its model key.
pub open spec fn dev_seed(d: DeviceV) -> Seq<char> {
    seq!['d', 'D', ':', d.kind] + model_key(d)
}

/// The seed key of a net: a supply by its upper-cased name, a port by its
/// name, any other net alike.
pub open spec fn net_seed(name: Seq<char>, ports: Seq<Seq<char>>) -> Seq<char> {
    if is_supply(name) {
        seq!['x', 'S', ':'] + upper(name)
    } else if ports.contains(name) {
        seq!['x', 'P', ':'] + name
    } else {
        seq!['x', 'n']
    }
}

/// The seed keys: every device of A then of B, every net of A then of B.
pub open spec fn seed_keys(a: NetlistV, b: NetlistV) -> Seq<Seq<char>> {
    (a.devices + b.devices).map_values(|d: DeviceV| dev_seed(d)) + side_nets(a).map_values(
        |n: Seq<char>| net_seed(n, a.ports),
    ) + side_nets(b).map_values(|n: Seq<char>| net_seed(n, b.ports))
}

fn contains_string(v: &Vec<String>, s: &String) -> (r: bool)
    ensures
        r == strs(v@).contains(s@),
{
    let mut i: usize = 0;
    while i < v.len()
        invariant
            i <= v.len(),
            forall|k: int| 0 <= k < i ==> v@[k]@ != s@,
        decreases v.len() - i,
    {
        if v[i] == *s {
            proof {
                assert(strs(v@)[i as int] == s@);
            }
            return true;
        }
        i += 1;
    }
    proof {
        if strs(v@).contains(s@) {
            let k = choose|k: int| 0 <= k < strs(v@).len() && strs(v@)[k] == s@;
            assert(v@[k]@ == s@);
        }
    }
    false
}

fn net_seed_exec(name: &String, ports: &Vec<String>) -> (r: String)
    ensures
        r@ == net_seed(name@, strs(ports@)),
{
    let mut v: Vec<char> = Vec::new();
    v.push('x');
    if is_supply_name(name.as_str()) {
        v.push('S');
        v.push(':');
        let up = upper_vec(&chars_of(name.as_str()));
        push_all(&mut v, &up);
        proof {
            assert(v@ =~= seq!['x', 'S', ':'] + upper(name@));
        }
    } else if contains_string(ports, name) {
        v.push('P');
        v.push(':');
        push_all(&mut v, &chars_of(name.as_str()));
        proof {
            assert(v@ =~= seq!['x', 'P', ':'] + name@);
        }
    } else {
        v.push('n');
        proof {
            assert(v@ =~= seq!['x', 'n']);
        }
    }
    string_of(&v)
}

fn push_dev_seeds(keys: &mut Vec<String>, nl: &Netlist)
    ensures
        strs(final(keys)@) == strs(old(keys)@) + nl@.devices.map_values(|d: DeviceV| dev_seed(d)),
{
    let mut i: usize = 0;
    while i < nl.devices.len()
        invariant
            i <= nl.devices.len(),
            strs(keys@) == strs(old(keys)@) + nl@.devices.take(i as int).map_values(|d: DeviceV| dev_seed(d)),
        decreases nl.devices.len() - i,
    {
        let d = &nl.devices[i];
        let mut v: Vec<char> = Vec::new();
        v.push('d');
        v.push('D');
        v.push(':');
        v.push(d.kind);
        if !(d.kind == 'R' || d.kind == 'C' || d.kind == 'L') {
            push_all(&mut v, &chars_of(d.model.as_str()));
        }
        let ghost k0 = keys@;
        keys.push(string_of(&v));
        proof {
            assert(d@ == nl@.devices[i as int]);
            assert(v@ =~= dev_seed(d@));
            assert(strs(keys@) =~= strs(k0).push(v@));
            assert(nl@.devices.take(i + 1).map_values(|d: DeviceV| dev_seed(d)) =~= nl@.devices.take(
                i as int,
            ).map_values(|d: DeviceV| dev_seed(d)).push(dev_seed(nl@.devices[i as int])));
        }
        i += 1;
    }
    proof {
        assert(nl@.devices.take(i as int) =~= nl@.devices);
    }
}

fn push_net_seeds(keys: &mut Vec<String>, names: &Vec<String>, lo: usize, hi: usize, ports: &Vec<String>)
    requires
        lo <= hi <= names.len(),
    ensures
        strs(final(keys)@) == strs(old(keys)@) + strs(names@).subrange(lo as int, hi as int).map_values(
            |n: Seq<char>| net_seed(n, strs(ports@)),
        ),
{
    let mut j: usize = lo;
    while j < hi
        invariant
            lo <= j <= hi <= names.len(),
            strs(keys@) == strs(old(keys)@) + strs(names@).subrange(lo as int, j as int).map_values(
                |n: Seq<char>| net_seed(n, strs(ports@)),
            ),
        decreases hi - j,
    {
        let k = net_seed_exec(&names[j], ports);
        let ghost k0 = keys@;
        keys.push(k);
        proof {
            assert(strs(keys@) =~= strs(k0).push(k@));
            assert(strs(names@).subrange(lo as int, j + 1).map_values(|n: Seq<char>| net_seed(n, strs(ports@)))
                =~= strs(names@).subrange(lo as int, j as int).map_values(
                |n: Seq<char>| net_seed(n, strs(ports@)),
            ).push(net_seed(names@[j as int]@, strs(ports@))));
        }
        j += 1;
    }
}

/// The seed keys of the graph of `a` beside `b`.
fn seed_keys_exec(a: &Netlist, b: &Netlist, g: &Graph) -> (keys: Vec<String>)
    requires
        graph_of(g, a@, b@),
    ensures
        strs(keys@) == seed_keys(a@, b@),
{
    let mut keys: Vec<String> = Vec::new();
    proof {
        assert(strs(g.net_name@).len() == g.net_name.len());
        assert(g.na_net <= g.net_name.len());
    }
    push_dev_seeds(&mut keys, a);
    push_dev_seeds(&mut keys, b);
    push_net_seeds(&mut keys, &g.net_name, 0, g.na_net, &a.ports);
    push_net_seeds(&mut keys, &g.net_name, g.na_net, g.net_name.len(), &b.ports);
    proof {
        let na = side_nets(a@);
        let nb = side_nets(b@);
        assert(strs(g.net_name@).subrange(0, g.na_net as int) =~= na);
        assert(strs(g.net_name@).subrange(g.na_net as int, g.net_name.len() as int) =~= nb);
        assert((a@.devices + b@.devices).map_values(|d: DeviceV| dev_seed(d)) =~= a@.devices.map_values(
            |d: DeviceV| dev_seed(d),
        ) + b@.devices.map_values(|d: DeviceV| dev_seed(d)));
        assert(strs(keys@) =~= seed_keys(a@, b@));
    }
    keys
}

// ---------------------------------------------------------------- rounds

/// What the refinement reads of a graph: device kinds, terminal nets, net
/// incidences and which nets are held fixed as supplies.
pub ghost struct Shape {
    pub kinds: Seq<char>,
    pub terms: Seq<Seq<usize>>,
    pub incid: Seq<Seq<(usize, usize)>>,
    pub sup: Seq<bool>,
}

pub open spec fn shape_of(g: &Graph, sup: Seq<bool>) -> Shape {
    Shape { kinds: g.dev_kind@, terms: tv(g.dev_terms@), incid: iv(g.net_incid@), sup }
}

pub open spec fn shape_ok(sh: Shape) -> bool {
    &&& sh.kinds.len() == sh.terms.len()
    &&& sh.sup.len() == sh.incid.len()
    &&& incid_ok(sh.terms, sh.incid, sh.incid.len() as int)
}

/// The terminal colours a device is keyed by: a MOSFET's source and drain
/// unordered (gate and bulk in place), any other device's in order.
pub open spec fn mcols(kind: char, t: Seq<usize>, nc: Seq<u64>) -> Seq<u64> {
    if kind == 'M' && t.len() >= 4 {
        let d = nc[t[0] as int];
        let s = nc[t[2] as int];
        seq![if d <= s { d } else { s }, nc[t[1] as int], if d <= s { s } else { d }, nc[t[3] as int]]
    } else {
        t.map_values(|x: usize| nc[x as int])
    }
}

pub open spec fn bars(c: Seq<u64>) -> Seq<char>
    decreases c.len(),
{
    if c.len() == 0 {
        Seq::empty()
    } else {
        bars(c.drop_last()) + seq!['|'] + dec(c.last() as nat)
    }
}

/// A device key: `D`, its colour, then `|` and each terminal colour.
pub open spec fn dkey(c: u64, cols: Seq<u64>) -> Seq<char> {
    seq!['D'] + dec(c as nat) + bars(cols)
}

/// The position a net records for terminal `p` of a device of `kind`: a
/// MOSFET's source and drain (0 and 2) alike.
pub open spec fn npos(kind: char, p: usize) -> u64 {
    if kind == 'M' && (p == 0 || p == 2) {
        99
    } else {
        p as u64
    }
}

pub open spec fn nparts(inc: Seq<(usize, usize)>, kinds: Seq<char>, dc: Seq<u64>) -> Seq<(u64, u64)> {
    inc.map_values(|x: (usize, usize)| (dc[x.0 as int], npos(kinds[x.0 as int], x.1)))
}

pub open spec fn commas(ps: Seq<(u64, u64)>) -> Seq<char>
    decreases ps.len(),
{
    if ps.len() == 0 {
        Seq::empty()
    } else {
        commas(ps.drop_last()) + (if ps.len() > 1 {
            seq![',']
        } else {
            Seq::empty()
        }) + dec(ps.last().0 as nat) + seq![':'] + dec(ps.last().1 as nat)
    }
}

/// A net key: `N`, its colour, `|`, then its (device colour, position) pairs
/// in ascending order.
pub open spec fn nkey(c: u64, ps: Seq<(u64, u64)>) -> Seq<char> {
    seq!['N'] + dec(c as nat) + seq!['|'] + commas(sorted_pairs(ps))
}

pub open spec fn dev_key(sh: Shape, dc: Seq<u64>, nc: Seq<u64>, i: int) -> Seq<char> {
    dkey(dc[i], mcols(sh.kinds[i], sh.terms[i], nc))
}

pub open spec fn net_key(sh: Shape, dc: Seq<u64>, nc: Seq<u64>, j: int) -> Seq<char> {
    nkey(nc[j], nparts(sh.incid[j], sh.kinds, dc))
}

/// The keys of the nets that are not held fixed.
pub open spec fn nonsup(ks: Seq<Seq<char>>, sup: Seq<bool>) -> Seq<Seq<char>>
    decreases ks.len(),
{
    if ks.len() == 0 {
        Seq::empty()
    } else if sup[ks.len() - 1] {
        nonsup(ks.drop_last(), sup)
    } else {
        nonsup(ks.drop_last(), sup).push(ks.last())
    }
}

/// The keys of one round, in registry order: every device, then every net
/// that is not held fixed.
pub open spec fn round_keys(sh: Shape, dc: Seq<u64>, nc: Seq<u64>) -> Seq<Seq<char>> {
    Seq::new(sh.terms.len(), |i: int| dev_key(sh, dc, nc, i)) + nonsup(
        Seq::new(sh.incid.len(), |j: int| net_key(sh, dc, nc, j)),
        sh.sup,
    )
}

/// One round: the new device and net colours and the number of distinct keys.
pub open spec fn round_spec(sh: Shape, dc: Seq<u64>, nc: Seq<u64>) -> (Seq<u64>, Seq<u64>, nat) {
    let o = order(round_keys(sh, dc, nc));
    (
        Seq::new(sh.terms.len(), |i: int| pos_in(o, dev_key(sh, dc, nc, i)) as u64),
        Seq::new(
            sh.incid.len(),
            |j: int|
                if sh.sup[j] {
                    nc[j]
                } else {
                    pos_in(o, net_key(sh, dc, nc, j)) as u64
                },
        ),
        o.len(),
    )
}

fn dev_key_exec(kind: char, t: &Vec<usize>, c: u64, nc: &Vec<u64>) -> (r: String)
    requires
        forall|q: int| 0 <= q < t.len() ==> #[trigger] t@[q] < nc.len(),
    ensures
        r@ == dkey(c, mcols(kind, t@, nc@)),
{
    let mut cols: Vec<u64> = Vec::new();
    if kind == 'M' && t.len() >= 4 {
        let d = nc[t[0]];
        let s = nc[t[2]];
        cols.push(if d <= s { d } else { s });
        cols.push(nc[t[1]]);
        cols.push(if d <= s { s } else { d });
        cols.push(nc[t[3]]);
        proof {
            assert(cols@ =~= mcols(kind, t@, nc@));
        }
    } else {
        let mut q: usize = 0;
        while q < t.len()
            invariant
                q <= t.len(),
                forall|q: int| 0 <= q < t.len() ==> #[trigger] t@[q] < nc.len(),
                cols@ == t@.take(q as int).map_values(|x: usize| nc@[x as int]),
            decreases t.len() - q,
        {
            cols.push(nc[t[q]]);
            proof {
                assert(t@.take(q + 1).map_values(|x: usize| nc@[x as int]) =~= t@.take(q as int).map_values(
                    |x: usize| nc@[x as int],
                ).push(nc@[t@[q as int] as int]));
            }
            q += 1;
        }
        proof {
            assert(t@.take(q as int) =~= t@);
            assert(cols@ =~= mcols(kind, t@, nc@));
        }
    }
    let mut v: Vec<char> = Vec::new();
    v.push('D');
    push_dec_u64(&mut v, c);
    proof {
        assert(cols@.take(0) =~= Seq::<u64>::empty());
        assert(v@ =~= seq!['D'] + dec(c as nat) + bars(cols@.take(0)));
    }
    let mut k: usize = 0;
    while k < cols.len()
        invariant
            k <= cols.len(),
            v@ == seq!['D'] + dec(c as nat) + bars(cols@.take(k as int)),
        decreases cols.len() - k,
    {
        v.push('|');
        push_dec_u64(&mut v, cols[k]);
        proof {
            assert(cols@.take(k + 1).drop_last() =~= cols@.take(k as int));
            assert(v@ =~= seq!['D'] + dec(c as nat) + bars(cols@.take(k + 1)));
        }
        k += 1;
    }
    proof {
        assert(cols@.take(k as int) =~= cols@);
    }
    string_of(&v)
}

fn net_key_exec(inc: &Vec<(usize, usize)>, kinds: &Vec<char>, dc: &Vec<u64>, c: u64) -> (r: String)
    requires
        kinds.len() == dc.len(),
        forall|k: int| 0 <= k < inc.len() ==> (#[trigger] inc@[k]).0 < kinds.len(),
    ensures
        r@ == nkey(c, nparts(inc@, kinds@, dc@)),
{
    let mut parts: Vec<(u64, u64)> = Vec::new();
    let mut k: usize = 0;
    while k < inc.len()
        invariant
            k <= inc.len(),
            kinds.len() == dc.len(),
            forall|k: int| 0 <= k < inc.len() ==> (#[trigger] inc@[k]).0 < kinds.len(),
            parts@ == nparts(inc@.take(k as int), kinds@, dc@),
        decreases inc.len() - k,
    {
        let (d, p) = inc[k];
        let pos: u64 = if kinds[d] == 'M' && (p == 0 || p == 2) { 99 } else { p as u64 };
        parts.push((dc[d], pos));
        proof {
            assert(inc@[k as int] == (d, p));
            assert(nparts(inc@.take(k + 1), kinds@, dc@) =~= nparts(inc@.take(k as int), kinds@, dc@).push(
                (dc@[d as int], npos(kinds@[d as int], p)),
            ));
        }
        k += 1;
    }
    proof {
        assert(inc@.take(k as int) =~= inc@);
    }
    let sorted = sort_pairs(&parts);
    let mut v: Vec<char> = Vec::new();
    v.push('N');
    push_dec_u64(&mut v, c);
    v.push('|');
    proof {
        assert(sorted@.take(0) =~= Seq::<(u64, u64)>::empty());
        assert(v@ =~= seq!['N'] + dec(c as nat) + seq!['|'] + commas(sorted@.take(0)));
    }
    let mut i: usize = 0;
    while i < sorted.len()
        invariant
            i <= sorted.len(),
            v@ == seq!['N'] + dec(c as nat) + seq!['|'] + commas(sorted@.take(i as int)),
        decreases sorted.len() - i,
    {
        let ghost v0 = v@;
        if i > 0 {
            v.push(',');
        }
        push_dec_u64(&mut v, sorted[i].0);
        v.push(':');
        push_dec_u64(&mut v, sorted[i].1);
        proof {
            let t1 = sorted@.take(i + 1);
            assert(t1.drop_last() =~= sorted@.take(i as int));
            assert(t1.last() == sorted@[i as int]);
            assert(commas(t1) == commas(sorted@.take(i as int)) + (if t1.len() > 1 {
                seq![',']
            } else {
                Seq::<char>::empty()
            }) + dec(t1.last().0 as nat) + seq![':'] + dec(t1.last().1 as nat));
            assert(v@ =~= seq!['N'] + dec(c as nat) + seq!['|'] + commas(t1));
        }
        i += 1;
    }
    proof {
        assert(sorted@.take(i as int) =~= sorted@);
    }
    string_of(&v)
}

proof fn lemma_nonsup_step(ks: Seq<Seq<char>>, sup: Seq<bool>, j: int)
    requires
        0 <= j < ks.len(),
    ensures
        nonsup(ks.take(j + 1), sup) == if sup[j] {
            nonsup(ks.take(j), sup)
        } else {
            nonsup(ks.take(j), sup).push(ks[j])
        },
{
    assert(ks.take(j + 1).drop_last() =~= ks.take(j));
}

/// One refinement round on `g` with supplies `sup` held fixed.
fn round(g: &Graph, sup: &Vec<bool>, dc: &Vec<u64>, nc: &Vec<u64>) -> (r: (Vec<u64>, Vec<u64>, u64))
    requires
        shape_ok(shape_of(g, sup@)),
        dc.len() == g.dev_terms.len(),
        nc.len() == g.net_incid.len(),
    ensures
        r.0@ == round_spec(shape_of(g, sup@), dc@, nc@).0,
        r.1@ == round_spec(shape_of(g, sup@), dc@, nc@).1,
        r.2 as nat == round_spec(shape_of(g, sup@), dc@, nc@).2,
{
    let ghost sh = shape_of(g, sup@);
    let ghost dks = Seq::new(sh.terms.len(), |i: int| dev_key(sh, dc@, nc@, i));
    let ghost nks = Seq::new(sh.incid.len(), |j: int| net_key(sh, dc@, nc@, j));
    let ndev = g.dev_terms.len();
    let nnet = g.net_incid.len();
    let mut keys: Vec<String> = Vec::new();
    let mut i: usize = 0;
    while i < ndev
        invariant
            i <= ndev == g.dev_terms.len() == dc.len() == g.dev_kind.len(),
            nnet == g.net_incid.len() == nc.len(),
            sh == shape_of(g, sup@),
            shape_ok(sh),
            dks == Seq::new(sh.terms.len(), |i: int| dev_key(sh, dc@, nc@, i)),
            strs(keys@) == dks.take(i as int),
        decreases ndev - i,
    {
        proof {
            assert forall|q: int| 0 <= q < g.dev_terms@[i as int].len() implies #[trigger] g.dev_terms@[i as int]@[q]
                < nc.len() by {
                assert(sh.terms[i as int][q] < sh.incid.len());
            }
        }
        let k = dev_key_exec(g.dev_kind[i], &g.dev_terms[i], dc[i], nc);
        let ghost k0 = keys@;
        keys.push(k);
        proof {
            assert(strs(keys@) =~= strs(k0).push(k@));
            assert(dks.take(i + 1) =~= dks.take(i as int).push(dks[i as int]));
        }
        i += 1;
    }
    proof {
        assert(dks.take(ndev as int) =~= dks);
        assert(nks.take(0) =~= Seq::<Seq<char>>::empty());
        assert(strs(keys@) =~= dks + nonsup(nks.take(0), sup@));
    }
    let mut slots: Vec<usize> = Vec::new();
    let mut j: usize = 0;
    while j < nnet
        invariant
            j <= nnet == g.net_incid.len() == nc.len() == sup.len(),
            ndev == g.dev_terms.len() == dc.len() == g.dev_kind.len(),
            sh == shape_of(g, sup@),
            shape_ok(sh),
            dks.len() == ndev,
            nks == Seq::new(sh.incid.len(), |j: int| net_key(sh, dc@, nc@, j)),
            strs(keys@) == dks + nonsup(nks.take(j as int), sup@),
            slots.len() == j,
            forall|jj: int| 0 <= jj < j && !sup@[jj] ==> #[trigger] slots@[jj] < keys.len() && strs(keys@)[slots@[jj] as int] == nks[jj],
        decreases nnet - j,
    {
        proof {
            lemma_nonsup_step(nks, sup@, j as int);
        }
        if sup[j] {
            slots.push(0);
        } else {
            proof {
                assert forall|k: int| 0 <= k < g.net_incid@[j as int].len() implies (#[trigger] g.net_incid@[j as int]@[k]).0
                    < g.dev_kind.len() by {
                    assert(sh.incid[j as int][k].0 < sh.terms.len());
                }
            }
            let k = net_key_exec(&g.net_incid[j], &g.dev_kind, dc, nc[j]);
            slots.push(keys.len());
            let ghost k0 = keys@;
            keys.push(k);
            proof {
                assert(strs(keys@) =~= strs(k0).push(k@));
                assert(k@ == nks[j as int]);
            }
        }
        proof {
            assert(strs(keys@) =~= dks + nonsup(nks.take(j + 1), sup@));
        }
        j += 1;
    }
    proof {
        assert(nks.take(nnet as int) =~= nks);
        assert(strs(keys@) == round_keys(sh, dc@, nc@));
    }
    let (ids, n) = intern_all(&keys);
    let ghost o = order(strs(keys@));
    let mut nd: Vec<u64> = Vec::new();
    let mut i: usize = 0;
    while i < ndev
        invariant
            i <= ndev == g.dev_terms.len() == dc.len(),
            ids.len() == keys.len(),
            strs(keys@) == dks + nonsup(nks, sup@),
            dks.len() == ndev,
            o == order(strs(keys@)),
            forall|t: int| 0 <= t < keys.len() ==> #[trigger] ids@[t] == pos_in(o, keys@[t]@),
            nd@ == Seq::new(ndev as nat, |i: int| pos_in(o, dks[i]) as u64).take(i as int),
        decreases ndev - i,
    {
        nd.push(ids[i]);
        proof {
            assert(keys@[i as int]@ == strs(keys@)[i as int]);
            assert(ids@[i as int] == pos_in(o, dks[i as int]));
            assert(Seq::new(ndev as nat, |i: int| pos_in(o, dks[i]) as u64).take(i + 1) =~= Seq::new(
                ndev as nat,
                |i: int| pos_in(o, dks[i]) as u64,
            ).take(i as int).push(pos_in(o, dks[i as int]) as u64));
        }
        i += 1;
    }
    let ghost nspec = Seq::new(
        nnet as nat,
        |j: int|
            if sup@[j] {
                nc@[j]
            } else {
                pos_in(o, nks[j]) as u64
            },
    );
    let mut nn: Vec<u64> = Vec::new();
    let mut j: usize = 0;
    while j < nnet
        invariant
            j <= nnet == nc.len() == sup.len() == slots.len(),
            ids.len() == keys.len(),
            forall|jj: int| 0 <= jj < nnet && !sup@[jj] ==> #[trigger] slots@[jj] < keys.len() && strs(keys@)[slots@[jj] as int] == nks[jj],
            o == order(strs(keys@)),
            forall|t: int| 0 <= t < keys.len() ==> #[trigger] ids@[t] == pos_in(o, keys@[t]@),
            nspec == Seq::new(
                nnet as nat,
                |j: int|
                    if sup@[j] {
                        nc@[j]
                    } else {
                        pos_in(o, nks[j]) as u64
                    },
            ),
            nn@ == nspec.take(j as int),
        decreases nnet - j,
    {
        if sup[j] {
            nn.push(nc[j]);
        } else {
            let s = slots[j];
            nn.push(ids[s]);
            proof {
                assert(keys@[s as int]@ == strs(keys@)[s as int]);
            }
        }
        proof {
            assert(nspec.take(j + 1) =~= nspec.take(j as int).push(nspec[j as int]));
        }
        j += 1;
    }
    proof {
        assert(Seq::new(ndev as nat, |i: int| pos_in(o, dks[i]) as u64).take(ndev as int) =~= Seq::new(
            ndev as nat,
            |i: int| pos_in(o, dks[i]) as u64,
        ));
        assert(nspec.take(nnet as int) =~= nspec);
        assert(nd@ =~= round_spec(sh, dc@, nc@).0);
        assert(nn@ =~= round_spec(sh, dc@, nc@).1);
    }
    (nd, nn, n)
}

// ---------------------------------------------------------------- refinement

/// The degree from which a net counts as a supply: a twentieth of the devices
/// (at least one device counted), and never below 32.
pub open spec fn gate(ndev: nat) -> nat {
    let m: nat = if ndev == 0 { 1 } else { ndev };
    if m / 20 > 32 {
        m / 20
    } else {
        32
    }
}

/// The nets held fixed: supplies by name, and nets touched by at least
/// `gate` terminals.
pub open spec fn supply_of(names: Seq<Seq<char>>, incid: Seq<Seq<(usize, usize)>>, ndev: nat) -> Seq<bool> {
    Seq::new(names.len(), |j: int| is_supply(names[j]) || incid[j].len() >= gate(ndev))
}

/// Rounds until the number of distinct keys equals the previous one, at most
/// `fuel` rounds: the final colours and the number of rounds run.
pub open spec fn refine_spec(sh: Shape, dc: Seq<u64>, nc: Seq<u64>, prev: nat, fuel: nat) -> (
    Seq<u64>,
    Seq<u64>,
    nat,
)
    decreases fuel,
{
    if fuel == 0 {
        (dc, nc, 0)
    } else {
        let r = round_spec(sh, dc, nc);
        if r.2 == prev {
            (r.0, r.1, 1)
        } else {
            let q = refine_spec(sh, r.0, r.1, r.2, (fuel - 1) as nat);
            (q.0, q.1, q.2 + 1)
        }
    }
}

/// The seed colours of the graph of `a` beside `b` and the number of
/// distinct seeds.
pub open spec fn seed_colours(a: NetlistV, b: NetlistV) -> (Seq<u64>, Seq<u64>, nat) {
    let k = seed_keys(a, b);
    let o = order(k);
    let nd = a.devices.len() + b.devices.len();
    (
        Seq::new(nd, |i: int| pos_in(o, k[i]) as u64),
        Seq::new((k.len() - nd) as nat, |j: int| pos_in(o, k[nd + j]) as u64),
        o.len(),
    )
}

/// The supplies of a graph.
pub open spec fn graph_supply(g: &Graph) -> Seq<bool> {
    supply_of(strs(g.net_name@), iv(g.net_incid@), g.dev_terms.len() as nat)
}

/// The refined colours of the devices and nets of `g`, the graph of `a`
/// beside `b`, and the number of rounds.
pub open spec fn colours(a: NetlistV, b: NetlistV, g: &Graph) -> (Seq<u64>, Seq<u64>, nat) {
    let s = seed_colours(a, b);
    refine_spec(shape_of(g, graph_supply(g)), s.0, s.1, s.2, 64)
}

fn supply_exec(g: &Graph) -> (sup: Vec<bool>)
    requires
        g.net_incid.len() == g.net_name.len(),
    ensures
        sup@ == graph_supply(g),
{
    let ndev = g.dev_terms.len();
    let m = if ndev == 0 { 1 } else { ndev };
    let gate_n = if m / 20 > 32 { m / 20 } else { 32 };
    let ghost spec_sup = graph_supply(g);
    let mut sup: Vec<bool> = Vec::new();
    let mut j: usize = 0;
    while j < g.net_name.len()
        invariant
            j <= g.net_name.len() == g.net_incid.len(),
            gate_n == gate(g.dev_terms.len() as nat),
            spec_sup == graph_supply(g),
            sup@ == spec_sup.take(j as int),
        decreases g.net_name.len() - j,
    {
        let b = is_supply_name(g.net_name[j].as_str()) || g.net_incid[j].len() >= gate_n;
        sup.push(b);
        proof {
            assert(strs(g.net_name@)[j as int] == g.net_name@[j as int]@);
            assert(iv(g.net_incid@)[j as int] == g.net_incid@[j as int]@);
            assert(spec_sup.take(j + 1) =~= spec_sup.take(j as int).push(spec_sup[j as int]));
        }
        j += 1;
    }
    proof {
        assert(spec_sup.take(j as int) =~= spec_sup);
    }
    sup
}

/// Refines the colours of `g`, the graph of `a` beside `b`: the device
/// colours, the net colours and the number of rounds run.
pub fn refine(a: &Netlist, b: &Netlist, g: &Graph) -> (r: (Vec<u64>, Vec<u64>, usize, Vec<u64>))
    requires
        graph_of(g, a@, b@),
    ensures
        r.3@ == seed_colours(a@, b@).1,
        r.0@ == colours(a@, b@, g).0,
        r.1@ == colours(a@, b@, g).1,
        r.2 as nat == colours(a@, b@, g).2,
        r.0.len() == g.dev_terms.len(),
        r.1.len() == g.net_name.len(),
        1 <= r.2 <= 64,
        g.dev_terms.len() + g.net_name.len() <= usize::MAX,
{
    let keys = seed_keys_exec(a, b, g);
    let (ids, n) = intern_all(&keys);
    let ghost s = seed_colours(a@, b@);
    let ghost k = seed_keys(a@, b@);
    let ndev = g.dev_terms.len();
    proof {
        assert(strs(g.net_name@).len() == g.net_name.len());
        assert(k.len() == ndev + g.net_name.len());
        assert(strs(keys@).len() == keys.len());
    }
    let mut dc: Vec<u64> = Vec::new();
    let mut i: usize = 0;
    while i < ndev
        invariant
            i <= ndev == g.dev_terms.len() == a@.devices.len() + b@.devices.len(),
            ids.len() == keys.len() == k.len(),
            k == strs(keys@),
            s == seed_colours(a@, b@),
            k == seed_keys(a@, b@),
            forall|t: int| 0 <= t < keys.len() ==> #[trigger] ids@[t] == pos_in(order(k), keys@[t]@),
            dc@ == s.0.take(i as int),
        decreases ndev - i,
    {
        dc.push(ids[i]);
        proof {
            assert(keys@[i as int]@ == k[i as int]);
            assert(s.0.take(i + 1) =~= s.0.take(i as int).push(s.0[i as int]));
        }
        i += 1;
    }
    let mut nc: Vec<u64> = Vec::new();
    let mut j: usize = 0;
    while j < g.net_name.len()
        invariant
            j <= g.net_name.len(),
            ndev == g.dev_terms.len() == a@.devices.len() + b@.devices.len(),
            ids.len() == keys.len() == k.len() == ndev + g.net_name.len(),
            k == strs(keys@),
            s == seed_colours(a@, b@),
            k == seed_keys(a@, b@),
            forall|t: int| 0 <= t < keys.len() ==> #[trigger] ids@[t] == pos_in(order(k), keys@[t]@),
            nc@ == s.1.take(j as int),
        decreases g.net_name.len() - j,
    {
        nc.push(ids[ndev + j]);
        proof {
            assert(keys@[ndev + j]@ == k[ndev + j]);
            assert(s.1.take(j + 1) =~= s.1.take(j as int).push(s.1[j as int]));
        }
        j += 1;
    }
    proof {
        assert(dc@ =~= s.0);
        assert(nc@ =~= s.1);
    }
    let mut sc: Vec<u64> = Vec::new();
    let mut j: usize = 0;
    while j < nc.len()
        invariant
            j <= nc.len(),
            sc@ == nc@.take(j as int),
        decreases nc.len() - j,
    {
        sc.push(nc[j]);
        proof {
            assert(nc@.take(j + 1) =~= nc@.take(j as int).push(nc@[j as int]));
        }
        j += 1;
    }
    proof {
        assert(nc@.take(j as int) =~= nc@);
    }
    let sup = supply_exec(g);
    let ghost sh = shape_of(g, sup@);
    let mut prev: u64 = n;
    let mut iters: usize = 0;
    let mut done = false;
    while iters < 64 && !done
        invariant
            iters <= 64,
            sh == shape_of(g, sup@),
            shape_ok(sh),
            sup@ == graph_supply(g),
            graph_of(g, a@, b@),
            dc.len() == g.dev_terms.len(),
            nc.len() == g.net_incid.len(),
            sc@ == seed_colours(a@, b@).1,
            done ==> 1 <= iters && colours(a@, b@, g) == (dc@, nc@, iters as nat),
            !done ==> {
                let q = refine_spec(sh, dc@, nc@, prev as nat, (64 - iters) as nat);
                colours(a@, b@, g) == (q.0, q.1, (q.2 + iters) as nat)
            },
        decreases 64 - iters,
    {
        let (nd, nn, cnt) = round(g, &sup, &dc, &nc);
        iters += 1;
        dc = nd;
        nc = nn;
        if cnt == prev {
            done = true;
        }
        prev = cnt;
    }
    (dc, nc, iters, sc)
}

} // verus!
