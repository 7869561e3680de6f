//! Netlist comparison by graph colour refinement (1-WL), confirmed by an
//! explicit device/net bijection.
//!
//! Both netlists are first normalised by merging electrically parallel devices.
//! Colours are refined on the disjoint union of the two device/net graphs: a
//! device's colour folds in its kind/model and its terminals' net colours (MOSFET
//! source and drain unordered); a net's colour folds in the multiset of
//! (device colour, terminal position) it touches. Ports are anchored by name,
//! supply nets by name (or by a degree far above any signal net) and held fixed.
//! The sides MATCH when ports, counts and every colour class balance; a balanced
//! refinement is then confirmed by constructing a device/net bijection.
//!
//! Device parameters (W/L, values) are numbers with tolerances; this module
//! leaves them to the caller, who supplies the length key used to keep
//! different-length MOSFET fingers apart, a compatibility test between merged
//! devices, and the parameter audit of a topology-only bijection.
use vstd::prelude::*;
use vstd::hash_map::StringHashMap;
use crate::spice::{devs, strs, pairs, copy_device, copy_strings, Device, DeviceV, Netlist, NetlistV};
use crate::sort::sort_pairs;
use crate::graph::{build_graph, graph_of, side_nets, tv, Graph};
use crate::refine::{anchor_colours, colours, refine, seed_colours};
use crate::divergence::{by_size, class_list, classes, classes_view, lemma_members_bound, order_by_size, unbal, ClassV};
use crate::iso::{check_bijection, circuit_iso, is_iso, search, search_ok, search_size, tree_bound, Outcome, VERIFY_BUDGET};
use crate::invariance::{
    anchored, lemma_found_anchored, lemma_found_pairs, lemma_same_circuit_never_diverges, lemma_same_circuit_pairs, same_circuit,
};
use crate::text::{
    chars_of, dec, enc, enc_list, lemma_enc_list_injective, lower, lower_vec, push_all, push_dec,
    push_enc, push_str, string_of, eq_chars, push_dec_u64,
};

verus! {

/// A refinement class whose two sides hold different numbers of members.
#[derive(Debug, Clone)]
pub struct Unbalanced {
    /// `device` or `net`.
    pub what: String,
    pub a_count: usize,
    pub b_count: usize,
    /// Up to four side-tagged member names from each side.
    pub a_examples: Vec<String>,
    pub b_examples: Vec<String>,
}

/// A device that matches topologically but carries an out-of-tolerance
/// parameter; the values are as the caller's parameter model writes them.
#[derive(Debug, Clone)]
pub struct PropDiff {
    pub kind: char,
    pub a_device: String,
    pub b_device: String,
    pub param: String,
    pub a_value: String,
    pub b_value: String,
}

/// The verdict and its diagnostics.
#[derive(Debug, Clone)]
pub struct LvsResult {
    pub matched: bool,
    /// `matched` rests on an explicitly constructed device/net bijection.
    pub verified: bool,
    pub a_devices: usize,
    pub b_devices: usize,
    pub a_nets: usize,
    pub b_nets: usize,
    pub only_in_a_ports: Vec<String>,
    pub only_in_b_ports: Vec<String>,
    /// (kind, count in A, count in B) for each kind whose counts differ.
    pub device_kind_diff: Vec<(char, usize, usize)>,
    pub unbalanced: Vec<Unbalanced>,
    pub property_diffs: Vec<PropDiff>,
    pub iterations: usize,
    /// Qualifier on the verdict (refuted false MATCH, parameter mismatch,
    /// unresolved symmetry); `None` for a clean verified MATCH or a plain MISMATCH.
    pub note: Option<String>,
}

/// `r` is the empty result: not matched, nothing counted.
pub open spec fn empty_result(r: LvsResult) -> bool {
    &&& !r.matched && !r.verified
    &&& r.a_devices == 0 && r.b_devices == 0 && r.a_nets == 0 && r.b_nets == 0
    &&& r.only_in_a_ports@.len() == 0 && r.only_in_b_ports@.len() == 0
    &&& r.device_kind_diff@.len() == 0 && r.unbalanced@.len() == 0
    &&& r.property_diffs@.len() == 0 && r.iterations == 0 && r.note is None
}

impl LvsResult {
    /// An empty result: not matched, nothing counted.
    pub fn empty() -> (r: LvsResult)
        ensures
            empty_result(r),
    {
        LvsResult {
            matched: false,
            verified: false,
            a_devices: 0,
            b_devices: 0,
            a_nets: 0,
            b_nets: 0,
            only_in_a_ports: Vec::new(),
            only_in_b_ports: Vec::new(),
            device_kind_diff: Vec::new(),
            unbalanced: Vec::new(),
            property_diffs: Vec::new(),
            iterations: 0,
            note: None,
        }
    }
}

impl Default for LvsResult {
    /// An empty result: not matched, nothing counted.
    fn default() -> (r: LvsResult)
        ensures
            empty_result(r),
    {
        LvsResult::empty()
    }
}

// ---------------------------------------------------------------- supplies

/// `s` after its last `/`, `.` or `:` (the leaf of a hierarchical or bus name).
pub open spec fn leaf(s: Seq<char>) -> Seq<char>
    decreases s.len(),
{
    if s.len() == 0 {
        s
    } else if s.last() == '/' || s.last() == '.' || s.last() == ':' {
        Seq::empty()
    } else {
        leaf(s.drop_last()).push(s.last())
    }
}

/// The conventional power and ground net names (lower case).
pub open spec fn supply_word(w: Seq<char>) -> bool {
    ||| w == "0"@ ||| w == "vdd"@ ||| w == "vss"@ ||| w == "gnd"@ ||| w == "vcc"@
    ||| w == "vee"@ ||| w == "vpwr"@ ||| w == "vgnd"@ ||| w == "vnb"@ ||| w == "vpb"@
    ||| w == "vbn"@ ||| w == "vbp"@ ||| w == "vdda"@ ||| w == "vssa"@ ||| w == "vccd"@
    ||| w == "vssd"@ ||| w == "avdd"@ ||| w == "avss"@ ||| w == "dvdd"@ ||| w == "dvss"@
    ||| w == "vbb"@ ||| w == "vpp"@ ||| w == "vsub"@
}

/// A net is a supply by name when the leaf of its name, ASCII lower-cased, is a
/// conventional power/ground name.
pub open spec fn is_supply(name: Seq<char>) -> bool {
    supply_word(lower(leaf(name)))
}

/// Whether a net is a supply does not depend on the ASCII case of its name,
/// nor on the instance path in front of it: `VDD`, `vdd` and `x1/u2/Vdd` are
/// all supplies, and a name that is not one does not become one there.
pub proof fn lemma_supply_names(x: Seq<char>, path: Seq<char>)
    ensures
        is_supply(crate::text::upper(x)) == is_supply(x),
        is_supply(lower(x)) == is_supply(x),
        is_supply(path.push('/') + x) == is_supply(x),
{
    lemma_leaf_case(x);
    lemma_leaf_after(path, '/', x);
    let l = leaf(x);
    assert(lower(crate::text::upper(l)) =~= lower(l)) by {
        assert forall|i: int| 0 <= i < l.len() implies #[trigger] lower(crate::text::upper(l))[i] == lower(l)[i] by {
            let c = l[i];
            if 'a' <= c && c <= 'z' {
                assert((c as u32) - 32 >= 'A' as u32);
            }
        }
    }
    assert(lower(lower(l)) =~= lower(l)) by {
        assert forall|i: int| 0 <= i < l.len() implies #[trigger] lower(lower(l))[i] == lower(l)[i] by {
            let c = l[i];
            if 'A' <= c && c <= 'Z' {
                assert((c as u32) + 32 >= 'a' as u32);
            }
        }
    }
}

proof fn lemma_leaf_case(x: Seq<char>)
    ensures
        leaf(crate::text::upper(x)) == crate::text::upper(leaf(x)),
        leaf(lower(x)) == lower(leaf(x)),
    decreases x.len(),
{
    if x.len() > 0 {
        let p = x.drop_last();
        let c = x.last();
        lemma_leaf_case(p);
        assert(crate::text::upper(x).drop_last() =~= crate::text::upper(p));
        assert(lower(x).drop_last() =~= lower(p));
        assert(crate::text::upper(x).last() == crate::text::upper_char(c));
        assert(lower(x).last() == crate::text::lower_char(c));
        if 'a' <= c && c <= 'z' {
            assert((c as u32) - 32 >= 'A' as u32);
        }
        if 'A' <= c && c <= 'Z' {
            assert((c as u32) + 32 >= 'a' as u32);
        }
        assert(crate::text::upper(leaf(p).push(c)) =~= crate::text::upper(leaf(p)).push(crate::text::upper_char(c)));
        assert(lower(leaf(p).push(c)) =~= lower(leaf(p)).push(crate::text::lower_char(c)));
        assert(crate::text::upper(Seq::<char>::empty()) =~= Seq::<char>::empty());
        assert(lower(Seq::<char>::empty()) =~= Seq::<char>::empty());
    }
}

proof fn lemma_leaf_after(p: Seq<char>, sep: char, x: Seq<char>)
    requires
        sep == '/' || sep == '.' || sep == ':',
    ensures
        leaf(p.push(sep) + x) == leaf(x),
    decreases x.len(),
{
    if x.len() == 0 {
        assert(p.push(sep) + x =~= p.push(sep));
    } else {
        lemma_leaf_after(p, sep, x.drop_last());
        assert((p.push(sep) + x).drop_last() =~= p.push(sep) + x.drop_last());
        assert((p.push(sep) + x).last() == x.last());
    }
}

fn is_word(v: &Vec<char>, w: &str) -> (r: bool)
    ensures
        r == (v@ == w@),
{
    eq_chars(v, &chars_of(w))
}

fn supply_word_exec(w: &Vec<char>) -> (r: bool)
    ensures
        r == supply_word(w@),
{
    is_word(w, "0") || is_word(w, "vdd") || is_word(w, "vss") || is_word(w, "gnd") || is_word(w, "vcc")
        || is_word(w, "vee") || is_word(w, "vpwr") || is_word(w, "vgnd") || is_word(w, "vnb")
        || is_word(w, "vpb") || is_word(w, "vbn") || is_word(w, "vbp") || is_word(w, "vdda")
        || is_word(w, "vssa") || is_word(w, "vccd") || is_word(w, "vssd") || is_word(w, "avdd")
        || is_word(w, "avss") || is_word(w, "dvdd") || is_word(w, "dvss") || is_word(w, "vbb")
        || is_word(w, "vpp") || is_word(w, "vsub")
}

/// Whether `name` is a supply net by its name (see `is_supply`).
pub fn is_supply_name(name: &str) -> (r: bool)
    ensures
        r == is_supply(name@),
{
    let v = chars_of(name);
    let mut j = v.len();
    proof {
        assert(v@.take(j as int) =~= v@);
        assert(v@.skip(j as int) =~= Seq::<char>::empty());
        assert(leaf(v@) =~= leaf(v@.take(j as int)) + v@.skip(j as int));
    }
    while j > 0 && v[j - 1] != '/' && v[j - 1] != '.' && v[j - 1] != ':'
        invariant
            j <= v.len(),
            leaf(v@) == leaf(v@.take(j as int)) + v@.skip(j as int),
        decreases j,
    {
        proof {
            let t = v@.take(j as int);
            assert(t.drop_last() =~= v@.take(j - 1));
            assert(v@.skip(j - 1) =~= seq![t.last()] + v@.skip(j as int));
            assert(leaf(t) == leaf(t.drop_last()).push(t.last()));
            assert(leaf(v@.take(j - 1)).push(t.last()) + v@.skip(j as int) =~= leaf(v@.take(j - 1))
                + v@.skip(j - 1));
        }
        j -= 1;
    }
    proof {
        if j > 0 {
            assert(v@.take(j as int).last() == v@[j - 1]);
        }
        assert(leaf(v@.take(j as int)) =~= Seq::<char>::empty());
        assert(leaf(v@) =~= v@.skip(j as int));
    }
    let mut lf: Vec<char> = Vec::new();
    let mut k = j;
    while k < v.len()
        invariant
            j <= k <= v.len(),
            lf@ == v@.subrange(j as int, k as int),
        decreases v.len() - k,
    {
        lf.push(v[k]);
        k += 1;
    }
    proof {
        assert(lf@ =~= v@.skip(j as int));
    }
    let lc = lower_vec(&lf);
    supply_word_exec(&lc)
}


// ---------------------------------------------------------------- parallel merge

/// `a <= b` in the order of `String`: lexicographic by character.
pub open spec fn str_le(a: Seq<char>, b: Seq<char>) -> bool
    decreases a.len(),
{
    if a.len() == 0 {
        true
    } else if b.len() == 0 {
        false
    } else if a[0] != b[0] {
        a[0] < b[0]
    } else {
        str_le(a.drop_first(), b.drop_first())
    }
}

proof fn lemma_str_le_at(a: Seq<char>, b: Seq<char>, i: int)
    requires
        0 <= i <= a.len(),
        i <= b.len(),
        forall|k: int| 0 <= k < i ==> a[k] == b[k],
    ensures
        str_le(a, b) == str_le(a.skip(i), b.skip(i)),
    decreases i,
{
    if i > 0 {
        lemma_str_le_at(a.drop_first(), b.drop_first(), i - 1);
        assert(a.drop_first().skip(i - 1) =~= a.skip(i));
        assert(b.drop_first().skip(i - 1) =~= b.skip(i));
    } else {
        assert(a.skip(0) =~= a);
        assert(b.skip(0) =~= b);
    }
}

fn str_le_exec(a: &Vec<char>, b: &Vec<char>) -> (r: bool)
    ensures
        r == str_le(a@, b@),
{
    let mut i: usize = 0;
    while i < a.len() && i < b.len() && a[i] == b[i]
        invariant
            i <= a.len(),
            i <= b.len(),
            forall|k: int| 0 <= k < i ==> a@[k] == b@[k],
        decreases a.len() - i,
    {
        i += 1;
    }
    proof {
        lemma_str_le_at(a@, b@, i as int);
        if i < a.len() && i < b.len() {
            assert(a@.skip(i as int)[0] == a@[i as int]);
            assert(b@.skip(i as int)[0] == b@[i as int]);
        }
    }
    if i == a.len() {
        true
    } else if i == b.len() {
        false
    } else {
        a[i] < b[i]
    }
}

/// The terminals that decide whether two devices are parallel: a MOSFET's
/// source and drain unordered (gate and bulk in place, further terminals
/// dropped); a two-terminal R/C/L's ends unordered; other kinds in order.
pub open spec fn sig_terms(d: DeviceV) -> Seq<Seq<char>> {
    let n = d.nodes;
    if d.kind == 'M' && n.len() >= 4 {
        if str_le(n[0], n[2]) {
            seq![n[0], n[1], n[2], n[3]]
        } else {
            seq![n[2], n[1], n[0], n[3]]
        }
    } else if (d.kind == 'R' || d.kind == 'C' || d.kind == 'L') && n.len() == 2 {
        if str_le(n[0], n[1]) {
            n
        } else {
            seq![n[1], n[0]]
        }
    } else {
        n
    }
}

/// The text of a length key.
pub open spec fn lkey_str(lk: i64) -> Seq<char> {
    if lk < 0 {
        seq!['-'] + dec((-lk) as nat)
    } else {
        dec(lk as nat)
    }
}

/// The parallel signature of a device with length key `lk`: devices with equal
/// signatures are electrically parallel (same kind, model, terminal
/// connectivity and length key). An `X` instance is keyed by its name and nodes
/// instead, so distinct instances never merge.
pub open spec fn psig(d: DeviceV, lk: i64) -> Seq<Seq<char>> {
    if d.kind == 'X' {
        seq![seq!['X'], d.name] + d.nodes + seq![lkey_str(0)]
    } else {
        seq![seq![d.kind], d.model] + sig_terms(d) + seq![lkey_str(lk)]
    }
}

/// Only parallel devices share a signature: two devices with equal
/// signatures are of one kind; two instances are the same instance name on
/// the same nodes; other devices have one model, and two MOSFETs share their
/// gate and bulk and connect the same pair of source/drain nets, in either
/// order.
pub proof fn lemma_psig_parallel(d1: DeviceV, lk1: i64, d2: DeviceV, lk2: i64)
    requires
        psig(d1, lk1) == psig(d2, lk2),
    ensures
        d1.kind == d2.kind,
        d1.kind == 'X' ==> d1.name == d2.name && d1.nodes == d2.nodes,
        d1.kind != 'X' ==> d1.model == d2.model,
        d1.kind == 'M' && d1.nodes.len() >= 4 && d2.nodes.len() >= 4 ==> {
            let (n1, n2) = (d1.nodes, d2.nodes);
            &&& n1[1] == n2[1]
            &&& n1[3] == n2[3]
            &&& ((n1[0] == n2[0] && n1[2] == n2[2]) || (n1[0] == n2[2] && n1[2] == n2[0]))
        },
{
    let s1 = psig(d1, lk1);
    let s2 = psig(d2, lk2);
    assert(s1[0] == s2[0]);
    if d1.kind == 'X' {
        assert(s1[0] == seq!['X']);
        assert(s1[0][0] == d1.kind);
    } else {
        assert(s1[0] == seq![d1.kind]);
    }
    if d2.kind == 'X' {
        assert(s2[0] == seq!['X']);
    } else {
        assert(s2[0] == seq![d2.kind]);
    }
    assert(s1[0][0] == s2[0][0]);
    assert(d1.kind == d2.kind);
    assert(s1[1] == s2[1]);
    if d1.kind == 'X' {
        assert(s1.len() == d1.nodes.len() + 3);
        assert(s2.len() == d2.nodes.len() + 3);
        assert forall|i: int| 0 <= i < d1.nodes.len() implies d1.nodes[i] == d2.nodes[i] by {
            assert(s1[2 + i] == d1.nodes[i]);
            assert(s2[2 + i] == d2.nodes[i]);
        }
        assert(d1.nodes =~= d2.nodes);
    } else if d1.kind == 'M' && d1.nodes.len() >= 4 && d2.nodes.len() >= 4 {
        let n1 = d1.nodes;
        let n2 = d2.nodes;
        let t1 = sig_terms(d1);
        let t2 = sig_terms(d2);
        assert(t1.len() == 4 && t2.len() == 4);
        assert forall|i: int| 0 <= i < 4 implies t1[i] == t2[i] by {
            assert(s1[2 + i] == t1[i]);
            assert(s2[2 + i] == t2[i]);
        }
    }
}

pub open spec fn sigs(ds: Seq<DeviceV>, lks: Seq<i64>) -> Seq<Seq<Seq<char>>> {
    Seq::new(ds.len(), |i: int| psig(ds[i], lks[i]))
}

/// The distinct keys of `k`, in order of first occurrence.
pub open spec fn order<K>(k: Seq<K>) -> Seq<K>
    decreases k.len(),
{
    if k.len() == 0 {
        Seq::empty()
    } else {
        let o = order(k.drop_last());
        if o.contains(k.last()) {
            o
        } else {
            o.push(k.last())
        }
    }
}

/// The positions of `key` in `k`, ascending.
pub open spec fn members<K>(k: Seq<K>, key: K) -> Seq<usize>
    decreases k.len(),
{
    if k.len() == 0 {
        Seq::empty()
    } else if k.last() == key {
        members(k.drop_last(), key).push((k.len() - 1) as usize)
    } else {
        members(k.drop_last(), key)
    }
}

/// The groups of parallel devices: positions sharing a signature, groups in
/// order of first occurrence.
pub open spec fn groups_spec(ds: Seq<DeviceV>, lks: Seq<i64>) -> Seq<Seq<usize>> {
    let k = sigs(ds, lks);
    order(k).map_values(|key: Seq<Seq<char>>| members(k, key))
}

/// The device standing for a group: its first member, renamed `name(×n)` when
/// the group has `n > 1` members.
pub open spec fn merged(ds: Seq<DeviceV>, m: Seq<usize>) -> DeviceV {
    let first = ds[m[0] as int];
    if m.len() == 1 {
        first
    } else {
        DeviceV { name: first.name + "(\u{d7}"@ + dec(m.len()) + ")"@, ..first }
    }
}

/// A netlist with each group of parallel devices merged into one device.
pub open spec fn combine_spec(nl: NetlistV, lks: Seq<i64>) -> NetlistV {
    NetlistV {
        devices: groups_spec(nl.devices, lks).map_values(|m: Seq<usize>| merged(nl.devices, m)),
        ..nl
    }
}

pub open spec fn gv(g: Seq<Vec<usize>>) -> Seq<Seq<usize>> {
    g.map_values(|v: Vec<usize>| v@)
}

/// The parallel signature of `d` with length key `lk`, as text parts (see
/// `psig`): devices with equal signatures are merged.
pub fn parallel_sig(d: &Device, lk: i64) -> (r: Vec<Vec<char>>)
    ensures
        crate::spice::vv(r@) == psig(d@, lk),
{
    let mut r: Vec<Vec<char>> = Vec::new();
    let lkv: i64 = if d.kind == 'X' { 0 } else { lk };
    if d.kind == 'X' {
        let mut kx: Vec<char> = Vec::new();
        kx.push('X');
        r.push(kx);
        r.push(chars_of(d.name.as_str()));
        proof {
            assert(crate::spice::vv(r@) =~= seq![seq!['X'], d@.name] + d@.nodes.take(0));
        }
        let mut k: usize = 0;
        while k < d.nodes.len()
            invariant
                k <= d.nodes.len(),
                crate::spice::vv(r@) == seq![seq!['X'], d@.name] + d@.nodes.take(k as int),
            decreases d.nodes.len() - k,
        {
            let ghost r0 = r@;
            r.push(chars_of(d.nodes[k].as_str()));
            proof {
                assert(crate::spice::vv(r@) =~= crate::spice::vv(r0).push(d@.nodes[k as int]));
                assert(d@.nodes.take(k + 1) =~= d@.nodes.take(k as int).push(d@.nodes[k as int]));
            }
            k += 1;
        }
        proof {
            assert(d@.nodes.take(d.nodes.len() as int) =~= d@.nodes);
        }
    } else {
        let mut kx: Vec<char> = Vec::new();
        kx.push(d.kind);
        r.push(kx);
        r.push(chars_of(d.model.as_str()));
        proof {
            assert(crate::spice::vv(r@) =~= seq![seq![d.kind], d@.model] + d@.nodes.take(0));
        }
        let n = d.nodes.len();
        let is_m = d.kind == 'M' && n >= 4;
        let is_p = (d.kind == 'R' || d.kind == 'C' || d.kind == 'L') && n == 2;
        if is_m {
            let n0 = chars_of(d.nodes[0].as_str());
            let n1 = chars_of(d.nodes[1].as_str());
            let n2 = chars_of(d.nodes[2].as_str());
            let n3 = chars_of(d.nodes[3].as_str());
            proof {
                assert(n0@ == d@.nodes[0] && n1@ == d@.nodes[1] && n2@ == d@.nodes[2] && n3@ == d@.nodes[3]);
            }
            if str_le_exec(&n0, &n2) {
                r.push(n0);
                r.push(n1);
                r.push(n2);
            } else {
                r.push(n2);
                r.push(n1);
                r.push(n0);
            }
            r.push(n3);
            proof {
                assert(crate::spice::vv(r@) =~= seq![seq![d.kind], d@.model] + sig_terms(d@));
            }
        } else if is_p {
            let n0 = chars_of(d.nodes[0].as_str());
            let n1 = chars_of(d.nodes[1].as_str());
            proof {
                assert(n0@ == d@.nodes[0] && n1@ == d@.nodes[1]);
                assert(d@.nodes =~= seq![d@.nodes[0], d@.nodes[1]]);
            }
            if str_le_exec(&n0, &n1) {
                r.push(n0);
                r.push(n1);
            } else {
                r.push(n1);
                r.push(n0);
            }
            proof {
                assert(crate::spice::vv(r@) =~= seq![seq![d.kind], d@.model] + sig_terms(d@));
            }
        } else {
            let mut k: usize = 0;
            while k < d.nodes.len()
                invariant
                    k <= d.nodes.len(),
                    crate::spice::vv(r@) == seq![seq![d.kind], d@.model] + d@.nodes.take(k as int),
                decreases d.nodes.len() - k,
            {
                let ghost r0 = r@;
                r.push(chars_of(d.nodes[k].as_str()));
                proof {
                    assert(crate::spice::vv(r@) =~= crate::spice::vv(r0).push(d@.nodes[k as int]));
                    assert(d@.nodes.take(k + 1) =~= d@.nodes.take(k as int).push(d@.nodes[k as int]));
                }
                k += 1;
            }
            proof {
                assert(d@.nodes.take(d.nodes.len() as int) =~= d@.nodes);
            }
        }
    }
    let mut l: Vec<char> = Vec::new();
    if lkv < 0 {
        l.push('-');
        let mag: u64 = if lkv == i64::MIN { 9223372036854775808u64 } else { (-lkv) as u64 };
        push_dec_u64(&mut l, mag);
        proof {
            assert(mag as nat == (-lkv) as nat);
        }
    } else {
        push_dec_u64(&mut l, lkv as u64);
    }
    let ghost r0 = r@;
    r.push(l);
    proof {
        assert(l@ == lkey_str(lkv));
        assert(crate::spice::vv(r@) =~= crate::spice::vv(r0).push(l@));
    }
    r
}

/// The text key of a device's parallel signature (an injective encoding).
fn sig_key(d: &Device, lk: i64) -> (r: String)
    ensures
        r@ == enc_list(psig(d@, lk)),
{
    let parts = parallel_sig(d, lk);
    let ghost pv = crate::spice::vv(parts@);
    let mut key: Vec<char> = Vec::new();
    let mut i: usize = 0;
    while i < parts.len()
        invariant
            i <= parts.len(),
            pv == crate::spice::vv(parts@),
            key@ == enc_list(pv.take(i as int)),
        decreases parts.len() - i,
    {
        proof {
            assert(pv.take(i + 1).drop_last() =~= pv.take(i as int));
        }
        push_enc(&mut key, &parts[i]);
        i += 1;
    }
    proof {
        assert(pv.take(parts.len() as int) =~= pv);
    }
    string_of(&key)
}


proof fn lemma_order_step<K>(k: Seq<K>, i: int)
    requires
        0 <= i < k.len(),
    ensures
        order(k.take(i + 1)) == if order(k.take(i)).contains(k[i]) {
            order(k.take(i))
        } else {
            order(k.take(i)).push(k[i])
        },
        forall|key: K| #[trigger] members(k.take(i + 1), key) == if k[i] == key {
            members(k.take(i), key).push(i as usize)
        } else {
            members(k.take(i), key)
        },
{
    assert(k.take(i + 1).drop_last() =~= k.take(i));
    assert(k.take(i + 1).last() == k[i]);
}

/// Merges electrically parallel devices: devices with equal parallel
/// signatures (`psig`, with `lks[i]` the length key of device `i`) form a
/// group, groups in order of first occurrence, and each group becomes its
/// first member (renamed `name(×n)` when it has `n > 1` members). Also returns
/// each group's member positions.
pub fn combine_parallel(nl: &Netlist, lks: &Vec<i64>) -> (r: (Netlist, Vec<Vec<usize>>))
    requires
        lks.len() == nl.devices.len(),
    ensures
        r.0@ == combine_spec(nl@, lks@),
        gv(r.1@) == groups_spec(nl@.devices, lks@),
{
    let ghost ks = sigs(nl@.devices, lks@);
    let mut map: StringHashMap<usize> = StringHashMap::new();
    let mut groups: Vec<Vec<usize>> = Vec::new();
    let n = nl.devices.len();
    proof {
        assert(ks.take(0) =~= Seq::<Seq<Seq<char>>>::empty());
    }
    let mut i: usize = 0;
    while i < n
        invariant
            i <= n == nl.devices.len() == lks.len(),
            ks == sigs(nl@.devices, lks@),
            groups.len() == order(ks.take(i as int)).len(),
            forall|g: int| 0 <= g < groups.len() ==> #[trigger] groups@[g]@ == members(ks.take(i as int), order(ks.take(i as int))[g]),
            forall|g: int| 0 <= g < groups.len() ==> (#[trigger] groups@[g]@).len() > 0 && forall|j: int|
                0 <= j < groups@[g]@.len() ==> groups@[g]@[j] < i,
            forall|g: int| 0 <= g < groups.len() ==> map@.contains_key(#[trigger] enc_list(order(ks.take(i as int))[g]))
                && map@[enc_list(order(ks.take(i as int))[g])] == g,
            forall|s: Seq<char>| #[trigger] map@.contains_key(s) ==> map@[s] < groups.len()
                && enc_list(order(ks.take(i as int))[map@[s] as int]) == s,
        decreases n - i,
    {
        let key = sig_key(&nl.devices[i], lks[i]);
        let ghost o = order(ks.take(i as int));
        proof {
            lemma_order_step(ks, i as int);
            assert(ks[i as int] == psig(nl@.devices[i as int], lks@[i as int]));
        }
        match map.get(key.as_str()) {
            Some(gr) => {
                let g = *gr;
                proof {
                    lemma_enc_list_injective(o[g as int], ks[i as int]);
                    assert(o.contains(ks[i as int]));
                }
                groups[g].push(i);
                proof {
                    assert forall|h: int| 0 <= h < groups.len() implies #[trigger] groups@[h]@ == members(ks.take(i + 1), order(ks.take(i + 1))[h]) by {
                        if h != g {
                            if o[h] == ks[i as int] {
                                lemma_enc_list_injective(o[h], o[g as int]);
                            }
                        }
                    }
                }
            },
            None => {
                let g = groups.len();
                proof {
                    if o.contains(ks[i as int]) {
                        let h = choose|h: int| 0 <= h < o.len() && o[h] == ks[i as int];
                        assert(map@.contains_key(enc_list(o[h])));
                    }
                }
                let mut fresh: Vec<usize> = Vec::new();
                fresh.push(i);
                groups.push(fresh);
                map.insert(key, g);
                proof {
                    let o2 = order(ks.take(i + 1));
                    assert(o2 == o.push(ks[i as int]));
                    assert forall|h: int| 0 <= h < groups.len() implies #[trigger] groups@[h]@ == members(ks.take(i + 1), o2[h]) by {
                        if h < g {
                            assert(o2[h] == o[h]);
                            if o[h] == ks[i as int] {
                                assert(o.contains(ks[i as int]));
                            }
                        } else {
                            assert(members(ks.take(i as int), ks[i as int]) =~= Seq::<usize>::empty()) by {
                                lemma_members_absent(ks.take(i as int), ks[i as int]);
                            }
                        }
                    }
                    assert forall|s: Seq<char>| #[trigger] map@.contains_key(s) implies map@[s] < groups.len()
                        && enc_list(o2[map@[s] as int]) == s by {
                        if s != enc_list(ks[i as int]) {
                            assert(o2[map@[s] as int] == o[map@[s] as int]);
                        }
                    }
                    assert forall|h: int| 0 <= h < groups.len() implies map@.contains_key(#[trigger] enc_list(o2[h]))
                        && map@[enc_list(o2[h])] == h by {
                        if h < g {
                            assert(o2[h] == o[h]);
                            if enc_list(o[h]) == enc_list(ks[i as int]) {
                                lemma_enc_list_injective(o[h], ks[i as int]);
                                assert(o.contains(ks[i as int]));
                            }
                        }
                    }
                }
            },
        }
        i += 1;
    }
    proof {
        assert(ks.take(n as int) =~= ks);
    }
    let ghost gs = groups_spec(nl@.devices, lks@);
    proof {
        assert(gv(groups@) =~= gs);
        assert forall|h: int| 0 <= h < gs.len() implies (#[trigger] gs[h]).len() > 0 && forall|j: int|
            0 <= j < gs[h].len() ==> gs[h][j] < nl.devices.len() by {
            assert(gs[h] == groups@[h]@);
        }
    }
    let mut out: Vec<Device> = Vec::new();
    let mut g: usize = 0;
    while g < groups.len()
        invariant
            g <= groups.len(),
            gv(groups@) == gs,
            gs == groups_spec(nl@.devices, lks@),
            gs.len() == groups.len(),
            forall|h: int| 0 <= h < gs.len() ==> (#[trigger] gs[h]).len() > 0 && forall|j: int|
                0 <= j < gs[h].len() ==> gs[h][j] < nl.devices.len(),
            devs(out@) == gs.take(g as int).map_values(|m: Seq<usize>| merged(nl@.devices, m)),
        decreases groups.len() - g,
    {
        let grp = &groups[g];
        proof {
            assert(grp@ == gs[g as int]);
        }
        let first = &nl.devices[grp[0]];
        let mut d = copy_device(first);
        if grp.len() > 1 {
            let mut nm = chars_of(first.name.as_str());
            push_str(&mut nm, "(\u{d7}");
            push_dec(&mut nm, grp.len());
            push_str(&mut nm, ")");
            d.name = string_of(&nm);
        }
        let ghost o0 = out@;
        out.push(d);
        proof {
            assert(d@ == merged(nl@.devices, gs[g as int]));
            assert(devs(out@) =~= devs(o0).push(d@));
            assert(gs.take(g + 1).map_values(|m: Seq<usize>| merged(nl@.devices, m)) =~= gs.take(
                g as int,
            ).map_values(|m: Seq<usize>| merged(nl@.devices, m)).push(merged(nl@.devices, gs[g as int])));
        }
        g += 1;
    }
    proof {
        assert(gs.take(gs.len() as int) =~= gs);
    }
    (Netlist { name: nl.name.clone(), ports: copy_strings(&nl.ports), devices: out }, groups)
}

pub proof fn lemma_members_absent<K>(k: Seq<K>, key: K)
    requires
        !order(k).contains(key),
    ensures
        members(k, key) == Seq::<usize>::empty(),
    decreases k.len(),
{
    if k.len() > 0 {
        let o = order(k.drop_last());
        if o.contains(key) {
            let h = choose|h: int| 0 <= h < o.len() && o[h] == key;
            assert(order(k).contains(key)) by {
                if o.contains(k.last()) {
                    assert(order(k)[h] == key);
                } else {
                    assert(order(k)[h] == key);
                }
            }
        }
        if k.last() == key {
            assert(order(k).contains(key)) by {
                if o.contains(k.last()) {
                } else {
                    assert(order(k).last() == key);
                }
            }
        }
        lemma_members_absent(k.drop_last(), key);
    }
}


// ---------------------------------------------------------------- ordered sets

/// `a < b` in the order of `String`.
pub open spec fn str_lt(a: Seq<char>, b: Seq<char>) -> bool {
    str_le(a, b) && a != b
}

/// `v` is strictly ascending in the order of `String`.
pub open spec fn str_ascending(v: Seq<Seq<char>>) -> bool {
    forall|i: int, j: int| 0 <= i < j < v.len() ==> #[trigger] str_lt(v[i], v[j])
}

pub proof fn lemma_str_le_total(a: Seq<char>, b: Seq<char>)
    ensures
        str_le(a, b) || str_le(b, a),
    decreases a.len(),
{
    if a.len() > 0 && b.len() > 0 && a[0] == b[0] {
        lemma_str_le_total(a.drop_first(), b.drop_first());
    }
}

pub proof fn lemma_str_le_antisym(a: Seq<char>, b: Seq<char>)
    requires
        str_le(a, b),
        str_le(b, a),
    ensures
        a == b,
    decreases a.len(),
{
    if a.len() > 0 && b.len() > 0 {
        lemma_str_le_antisym(a.drop_first(), b.drop_first());
        assert(a =~= seq![a[0]] + a.drop_first());
        assert(b =~= seq![b[0]] + b.drop_first());
    }
}

pub proof fn lemma_str_le_trans(a: Seq<char>, b: Seq<char>, c: Seq<char>)
    requires
        str_le(a, b),
        str_le(b, c),
    ensures
        str_le(a, c),
    decreases a.len(),
{
    if a.len() > 0 && b.len() > 0 && c.len() > 0 && a[0] == b[0] && b[0] == c[0] {
        lemma_str_le_trans(a.drop_first(), b.drop_first(), c.drop_first());
    }
}

proof fn lemma_str_lt_trans(a: Seq<char>, b: Seq<char>, c: Seq<char>)
    requires
        str_lt(a, b),
        str_lt(b, c),
    ensures
        str_lt(a, c),
{
    lemma_str_le_trans(a, b, c);
    if a == c {
        lemma_str_le_antisym(a, b);
    }
}

fn str_lt_exec(a: &String, b: &String) -> (r: bool)
    ensures
        r == str_lt(a@, b@),
{
    let av = chars_of(a.as_str());
    let bv = chars_of(b.as_str());
    str_le_exec(&av, &bv) && !eq_chars(&av, &bv)
}

/// Adds `s` to the strictly ascending `v`, unless it is already there.
fn insert_sorted(v: &mut Vec<String>, s: &String)
    requires
        str_ascending(strs(old(v)@)),
    ensures
        str_ascending(strs(final(v)@)),
        forall|t: Seq<char>| strs(final(v)@).contains(t) <==> (strs(old(v)@).contains(t) || t == s@),
{
    let ghost v0 = strs(v@);
    let mut i: usize = 0;
    while i < v.len() && str_lt_exec(&v[i], s)
        invariant
            i <= v.len(),
            v0 == strs(v@),
            forall|k: int| 0 <= k < i ==> #[trigger] str_lt(v0[k], s@),
        decreases v.len() - i,
    {
        i += 1;
    }
    if i < v.len() && v[i] == *s {
        proof {
            assert(v0[i as int] == s@);
        }
        return;
    }
    proof {
        if i < v.len() {
            assert(v0[i as int] != s@);
            assert(!str_lt(v0[i as int], s@));
            lemma_str_le_total(v0[i as int], s@);
            assert(str_lt(s@, v0[i as int]));
        }
    }
    v.insert(i, s.clone());
    proof {
        let v1 = strs(v@);
        assert(v1 =~= v0.take(i as int).push(s@) + v0.skip(i as int));
        assert forall|x: int, y: int| 0 <= x < y < v1.len() implies #[trigger] str_lt(v1[x], v1[y]) by {
            if y < i {
                assert(v1[x] == v0[x] && v1[y] == v0[y]);
            } else if y == i {
                assert(v1[x] == v0[x]);
            } else if x == i {
                assert(v1[y] == v0[y - 1]);
                if y - 1 > i {
                    assert(str_lt(v0[i as int], v0[y - 1]));
                    lemma_str_lt_trans(s@, v0[i as int], v0[y - 1]);
                }
            } else if x < i {
                assert(v1[x] == v0[x] && v1[y] == v0[y - 1]);
            } else {
                assert(v1[x] == v0[x - 1] && v1[y] == v0[y - 1]);
            }
        }
        assert forall|t: Seq<char>| v1.contains(t) <==> (v0.contains(t) || t == s@) by {
            if v1.contains(t) {
                let h = choose|h: int| 0 <= h < v1.len() && v1[h] == t;
                if h < i {
                    assert(v0[h] == t);
                } else if h > i {
                    assert(v0[h - 1] == t);
                }
            }
            if v0.contains(t) {
                let h = choose|h: int| 0 <= h < v0.len() && v0[h] == t;
                if h < i {
                    assert(v1[h] == t);
                } else {
                    assert(v1[h + 1] == t);
                }
            }
            if t == s@ {
                assert(v1[i as int] == t);
            }
        }
    }
}

/// The names in `x` that are not in `y`, each once, in ascending order.
pub fn only_in(x: &Vec<String>, y: &Vec<String>) -> (r: Vec<String>)
    ensures
        str_ascending(strs(r@)),
        forall|t: Seq<char>| strs(r@).contains(t) <==> (strs(x@).contains(t) && !strs(y@).contains(t)),
{
    let mut r: Vec<String> = Vec::new();
    let mut i: usize = 0;
    while i < x.len()
        invariant
            i <= x.len(),
            str_ascending(strs(r@)),
            forall|t: Seq<char>| strs(r@).contains(t) <==> (strs(x@.take(i as int)).contains(t) && !strs(y@).contains(t)),
        decreases x.len() - i,
    {
        proof {
            assert(strs(x@.take(i + 1)) =~= strs(x@.take(i as int)).push(x@[i as int]@));
        }
        let ghost r0 = strs(r@);
        if !contains_string(y, &x[i]) {
            insert_sorted(&mut r, &x[i]);
        }
        proof {
            let p0 = strs(x@.take(i as int));
            let p1 = strs(x@.take(i + 1));
            assert forall|t: Seq<char>| strs(r@).contains(t) <==> (p1.contains(t) && !strs(y@).contains(t)) by {
                if p1.contains(t) && t != x@[i as int]@ {
                    let h = choose|h: int| 0 <= h < p1.len() && p1[h] == t;
                    assert(p0[h] == t);
                }
                if p0.contains(t) {
                    let h = choose|h: int| 0 <= h < p0.len() && p0[h] == t;
                    assert(p1[h] == t);
                }
                if t == x@[i as int]@ {
                    assert(p1[i as int] == t);
                }
            }
        }
        i += 1;
    }
    proof {
        assert(x@.take(i as int) =~= x@);
    }
    r
}

fn contains_string(v: &Vec<String>, s: &String) -> (r: bool)
    ensures
        r == strs(v@).contains(s@),
{
    let mut i: usize = 0;
    while i < v.len()
        invariant
            i <= v.len(),
            forall|k: int| 0 <= k < i ==> v@[k]@ != s@,
        decreases v.len() - i,
    {
        if v[i] == *s {
            proof {
                assert(strs(v@)[i as int] == s@);
            }
            return true;
        }
        i += 1;
    }
    proof {
        if strs(v@).contains(s@) {
            let k = choose|k: int| 0 <= k < strs(v@).len() && strs(v@)[k] == s@;
            assert(v@[k]@ == s@);
        }
    }
    false
}


// ---------------------------------------------------------------- device kinds

/// The number of devices of kind `k` in `ds`.
pub open spec fn kind_count(ds: Seq<DeviceV>, k: char) -> nat
    decreases ds.len(),
{
    if ds.len() == 0 {
        0
    } else {
        kind_count(ds.drop_last(), k) + (if ds.last().kind == k {
            1nat
        } else {
            0nat
        })
    }
}

/// `r` lists, in ascending order of kind, each device kind whose count
/// differs between `a` and `b`, with the two counts.
pub open spec fn kind_diff_ok(r: Seq<(char, usize, usize)>, a: Seq<DeviceV>, b: Seq<DeviceV>) -> bool {
    &&& forall|i: int, j: int| 0 <= i < j < r.len() ==> (#[trigger] r[i].0) < (#[trigger] r[j].0)
    &&& forall|i: int|
        0 <= i < r.len() ==> #[trigger] r[i].1 == kind_count(a, r[i].0) && r[i].2 == kind_count(b, r[i].0) && r[i].1
            != r[i].2
    &&& forall|k: char| kind_count(a, k) != kind_count(b, k) ==> exists|i: int| 0 <= i < r.len() && #[trigger] r[i].0 == k
}

proof fn lemma_kind_count_bound(ds: Seq<DeviceV>, k: char)
    ensures
        kind_count(ds, k) <= ds.len(),
    decreases ds.len(),
{
    if ds.len() > 0 {
        lemma_kind_count_bound(ds.drop_last(), k);
    }
}

fn find_kind(kinds: &Vec<char>, k: char) -> (r: usize)
    ensures
        r <= kinds.len(),
        r < kinds.len() ==> kinds@[r as int] == k,
        r == kinds.len() ==> !kinds@.contains(k),
{
    let mut t: usize = 0;
    while t < kinds.len()
        invariant
            t <= kinds.len(),
            forall|u: int| 0 <= u < t ==> kinds@[u] != k,
        decreases kinds.len() - t,
    {
        if kinds[t] == k {
            return t;
        }
        t += 1;
    }
    t
}

/// Counts, for each kind of `kinds`, the devices of `ds` of that kind;
/// kinds not yet listed are added.
fn count_kinds(kinds: &mut Vec<char>, counts: &mut Vec<usize>, ds: &Vec<Device>)
    requires
        old(kinds)@.no_duplicates(),
    ensures
        final(kinds)@.no_duplicates(),
        final(kinds).len() >= old(kinds).len(),
        final(counts).len() == final(kinds).len(),
        final(kinds)@.take(old(kinds).len() as int) == old(kinds)@,
        forall|t: int| 0 <= t < final(kinds).len() ==> #[trigger] final(counts)@[t] == kind_count(devs(ds@), final(kinds)@[t]),
        forall|k: char| kind_count(devs(ds@), k) > 0 ==> final(kinds)@.contains(k),
{
    let ghost k0 = kinds@;
    let mut c: Vec<usize> = Vec::new();
    let mut t: usize = 0;
    while t < kinds.len()
        invariant
            t <= kinds.len(),
            c.len() == t,
            forall|u: int| 0 <= u < t ==> #[trigger] c@[u] == 0,
        decreases kinds.len() - t,
    {
        c.push(0);
        t += 1;
    }
    let ghost dv = devs(ds@);
    proof {
        assert(dv.take(0) =~= Seq::<DeviceV>::empty());
    }
    let mut i: usize = 0;
    while i < ds.len()
        invariant
            i <= ds.len(),
            dv == devs(ds@),
            kinds@.no_duplicates(),
            c.len() == kinds.len(),
            kinds@.take(k0.len() as int) == k0,
            k0.len() <= kinds.len(),
            forall|t: int| 0 <= t < kinds.len() ==> #[trigger] c@[t] == kind_count(dv.take(i as int), kinds@[t]),
            forall|k: char| kind_count(dv.take(i as int), k) > 0 ==> kinds@.contains(k),
        decreases ds.len() - i,
    {
        let k = ds[i].kind;
        proof {
            assert(dv.take(i + 1).drop_last() =~= dv.take(i as int));
            assert(dv[i as int].kind == k);
            lemma_kind_count_bound(dv.take(i as int), k);
        }
        let ghost kq = kinds@;
        let mut t = find_kind(kinds, k);
        if t == kinds.len() {
            let ghost kk = kinds@;
            kinds.push(k);
            c.push(0);
            proof {
                assert(kinds@.take(k0.len() as int) =~= kk.take(k0.len() as int));
                assert forall|x: int, y: int| 0 <= x < kinds.len() && 0 <= y < kinds.len() && x != y implies kinds@[x]
                    != kinds@[y] by {
                    if x == kk.len() {
                        assert(!kk.contains(k));
                        assert(kk[y] != k);
                    } else if y == kk.len() {
                        assert(kk[x] != k);
                    }
                }
                if kind_count(dv.take(i as int), k) > 0 {
                    assert(kk.contains(k));
                }
            }
        }
        proof {
            lemma_kind_count_bound(dv.take(i as int), k);
        }
        let v = c[t] + 1;
        c.set(t, v);
        proof {
            assert(kinds.len() >= kq.len());
            assert(forall|h: int| 0 <= h < kq.len() ==> kinds@[h] == kq[h]);
            assert forall|u: int| 0 <= u < kinds.len() implies #[trigger] c@[u] == kind_count(dv.take(i + 1), kinds@[u]) by {
                if u != t {
                    assert(kinds@[u] != k);
                }
            }
            assert forall|kx: char| kind_count(dv.take(i + 1), kx) > 0 implies kinds@.contains(kx) by {
                assert(kind_count(dv.take(i + 1), kx) == kind_count(dv.take(i as int), kx) + (if k == kx {
                    1nat
                } else {
                    0nat
                }));
                if kx == k {
                    assert(kinds@[t as int] == k);
                } else {
                    assert(kind_count(dv.take(i as int), kx) > 0);
                    assert(kq.contains(kx));
                    let h = choose|h: int| 0 <= h < kq.len() && kq[h] == kx;
                    assert(kinds@[h] == kx);
                }
            }
        }
        i += 1;
    }
    proof {
        assert(dv.take(i as int) =~= dv);
    }
    *counts = c;
}

/// The device kinds whose counts differ between `a` and `b`, in ascending
/// order of kind, each with its count in `a` and in `b`.
pub fn kind_diff(a: &Vec<Device>, b: &Vec<Device>) -> (r: Vec<(char, usize, usize)>)
    ensures
        kind_diff_ok(r@, devs(a@), devs(b@)),
{
    let mut kinds: Vec<char> = Vec::new();
    let mut ca: Vec<usize> = Vec::new();
    let mut cb: Vec<usize> = Vec::new();
    count_kinds(&mut kinds, &mut ca, a);
    let ghost ka = kinds@;
    count_kinds(&mut kinds, &mut cb, b);
    let ghost da = devs(a@);
    let ghost db = devs(b@);
    // kinds first met in b have no device in a
    let mut full_a: Vec<usize> = Vec::new();
    let mut t: usize = 0;
    while t < kinds.len()
        invariant
            t <= kinds.len(),
            ka.len() <= kinds.len(),
            kinds@.take(ka.len() as int) == ka,
            ca.len() == ka.len(),
            kinds@.no_duplicates(),
            forall|u: int| 0 <= u < ka.len() ==> #[trigger] ca@[u] == kind_count(da, ka[u]),
            forall|k: char| kind_count(da, k) > 0 ==> ka.contains(k),
            full_a.len() == t,
            forall|u: int| 0 <= u < t ==> #[trigger] full_a@[u] == kind_count(da, kinds@[u]),
        decreases kinds.len() - t,
    {
        if t < ca.len() {
            full_a.push(ca[t]);
            proof {
                assert(kinds@[t as int] == ka[t as int]);
            }
        } else {
            full_a.push(0);
            proof {
                let k = kinds@[t as int];
                if kind_count(da, k) > 0 {
                    assert(ka.contains(k));
                    let h = choose|h: int| 0 <= h < ka.len() && ka[h] == k;
                    assert(kinds@.take(ka.len() as int)[h] == k);
                    assert(kinds@[h] == k);
                    assert(h != t);
                }
            }
        }
        t += 1;
    }
    // indices of the kinds in ascending order of kind
    let mut sk: Vec<usize> = Vec::new();
    let mut t: usize = 0;
    while t < kinds.len()
        invariant
            t <= kinds.len(),
            kinds@.no_duplicates(),
            sk.len() == t,
            forall|x: int| 0 <= x < sk.len() ==> #[trigger] sk@[x] < t,
            forall|x: int, y: int| 0 <= x < y < sk.len() ==> kinds@[#[trigger] sk@[x] as int] < kinds@[#[trigger] sk@[y] as int],
            forall|u: int| 0 <= u < t ==> #[trigger] sk@.contains(u as usize),
        decreases kinds.len() - t,
    {
        let k = kinds[t];
        let mut pos: usize = 0;
        while pos < sk.len() && kinds[sk[pos]] < k
            invariant
                pos <= sk.len() == t,
                t < kinds.len(),
                k == kinds@[t as int],
                forall|x: int| 0 <= x < sk.len() ==> #[trigger] sk@[x] < t,
                forall|x: int| 0 <= x < pos ==> kinds@[#[trigger] sk@[x] as int] < k,
            decreases sk.len() - pos,
        {
            pos += 1;
        }
        let ghost s0 = sk@;
        proof {
            if pos < sk.len() {
                assert(sk@[pos as int] < t);
                assert(kinds@[sk@[pos as int] as int] != k);
            }
        }
        sk.insert(pos, t);
        proof {
            assert(sk@ =~= s0.take(pos as int).push(t) + s0.skip(pos as int));
            assert forall|x: int, y: int| 0 <= x < y < sk.len() implies kinds@[#[trigger] sk@[x] as int] < kinds@[#[trigger] sk@[y] as int] by {
                if y < pos {
                    assert(sk@[x] == s0[x] && sk@[y] == s0[y]);
                } else if y == pos {
                    assert(sk@[x] == s0[x]);
                } else if x == pos {
                    assert(sk@[y] == s0[y - 1]);
                    if y - 1 > pos {
                        assert(kinds@[s0[pos as int] as int] < kinds@[s0[y - 1] as int]);
                    }
                } else if x < pos {
                    assert(sk@[x] == s0[x] && sk@[y] == s0[y - 1]);
                } else {
                    assert(sk@[x] == s0[x - 1] && sk@[y] == s0[y - 1]);
                }
            }
            assert forall|u: int| 0 <= u < t + 1 implies #[trigger] sk@.contains(u as usize) by {
                if u == t {
                    assert(sk@[pos as int] == t);
                } else {
                    assert(s0.contains(u as usize));
                    let h = choose|h: int| 0 <= h < s0.len() && s0[h] == u as usize;
                    if h < pos {
                        assert(sk@[h] == u);
                    } else {
                        assert(sk@[h + 1] == u);
                    }
                }
            }
        }
        t += 1;
    }
    let mut r: Vec<(char, usize, usize)> = Vec::new();
    let mut x: usize = 0;
    while x < sk.len()
        invariant
            x <= sk.len() == kinds.len(),
            full_a.len() == kinds.len() && cb.len() == kinds.len(),
            forall|u: int| 0 <= u < kinds.len() ==> #[trigger] full_a@[u] == kind_count(da, kinds@[u]),
            forall|u: int| 0 <= u < kinds.len() ==> #[trigger] cb@[u] == kind_count(db, kinds@[u]),
            forall|y: int| 0 <= y < sk.len() ==> #[trigger] sk@[y] < kinds.len(),
            forall|y: int, z: int| 0 <= y < z < sk.len() ==> kinds@[#[trigger] sk@[y] as int] < kinds@[#[trigger] sk@[z] as int],
            forall|i: int| 0 <= i < r.len() ==> #[trigger] r@[i].1 == kind_count(da, r@[i].0) && r@[i].2 == kind_count(db, r@[i].0)
                && r@[i].1 != r@[i].2,
            forall|i: int| 0 <= i < r.len() ==> exists|y: int| 0 <= y < x && (#[trigger] r@[i]).0 == kinds@[sk@[y] as int],
            forall|i: int, j: int| 0 <= i < j < r.len() ==> (#[trigger] r@[i].0) < (#[trigger] r@[j].0),
            forall|y: int| 0 <= y < x ==> (full_a@[#[trigger] sk@[y] as int] != cb@[sk@[y] as int] ==> exists|i: int|
                0 <= i < r.len() && #[trigger] r@[i].0 == kinds@[sk@[y] as int]),
        decreases sk.len() - x,
    {
        let u = sk[x];
        if full_a[u] != cb[u] {
            let ghost r0 = r@;
            r.push((kinds[u], full_a[u], cb[u]));
            proof {
                assert forall|i: int| 0 <= i < r.len() implies #[trigger] r@[i].1 == kind_count(da, r@[i].0) && r@[i].2
                    == kind_count(db, r@[i].0) && r@[i].1 != r@[i].2 by {
                    if i < r.len() - 1 {
                        assert(r@[i] == r0[i]);
                    } else {
                        assert(r@[i] == (kinds@[u as int], full_a@[u as int], cb@[u as int]));
                    }
                }
                assert forall|i: int, j: int| 0 <= i < j < r.len() implies (#[trigger] r@[i].0) < (#[trigger] r@[j].0) by {
                    if j == r.len() - 1 {
                        let y = choose|y: int| 0 <= y < x && r0[i].0 == kinds@[sk@[y] as int];
                        assert(kinds@[sk@[y] as int] < kinds@[sk@[x as int] as int]);
                    } else {
                        assert(r@[i] == r0[i] && r@[j] == r0[j]);
                    }
                }
                assert forall|i: int| 0 <= i < r.len() implies exists|y: int| 0 <= y < x + 1 && (#[trigger] r@[i]).0 == kinds@[sk@[y] as int] by {
                    if i == r.len() - 1 {
                        assert(r@[i].0 == kinds@[sk@[x as int] as int]);
                    } else {
                        assert(r@[i] == r0[i]);
                        let y = choose|y: int| 0 <= y < x && r0[i].0 == kinds@[sk@[y] as int];
                        assert(0 <= y < x + 1 && r@[i].0 == kinds@[sk@[y] as int]);
                    }
                }
                assert forall|y: int| 0 <= y < x + 1 implies (full_a@[#[trigger] sk@[y] as int] != cb@[sk@[y] as int] ==> exists|i: int|
                    0 <= i < r.len() && #[trigger] r@[i].0 == kinds@[sk@[y] as int]) by {
                    if y < x {
                        if full_a@[sk@[y] as int] != cb@[sk@[y] as int] {
                            let i = choose|i: int| 0 <= i < r0.len() && #[trigger] r0[i].0 == kinds@[sk@[y] as int];
                            assert(r@[i] == r0[i]);
                        }
                    } else {
                        assert(r@[r.len() - 1].0 == kinds@[sk@[y] as int]);
                    }
                }
            }
        }
        x += 1;
    }
    proof {
        assert forall|k: char| kind_count(da, k) != kind_count(db, k) implies exists|i: int| 0 <= i < r.len() && #[trigger] r@[i].0 == k by {
            if kind_count(da, k) > 0 || kind_count(db, k) > 0 {
                assert(kinds@.contains(k)) by {
                    if kind_count(da, k) > 0 {
                        assert(ka.contains(k));
                        let h = choose|h: int| 0 <= h < ka.len() && ka[h] == k;
                        assert(kinds@.take(ka.len() as int)[h] == k);
                        assert(kinds@[h] == k);
                    }
                }
                let u = choose|u: int| 0 <= u < kinds.len() && kinds@[u] == k;
                assert(sk@.contains(u as usize));
                let y = choose|y: int| 0 <= y < sk.len() && sk@[y] == u as usize;
                assert(full_a@[sk@[y] as int] != cb@[sk@[y] as int]);
            }
        }
    }
    r
}


// ---------------------------------------------------------------- the comparison

/// The side-tagged names of the devices: `A/` then the name for A's, `B/`
/// for B's.
pub open spec fn dev_labels(a: NetlistV, b: NetlistV) -> Seq<Seq<char>> {
    a.devices.map_values(|d: DeviceV| seq!['A', '/'] + d.name) + b.devices.map_values(
        |d: DeviceV| seq!['B', '/'] + d.name,
    )
}

/// The side-tagged names of the nets.
pub open spec fn net_labels(a: NetlistV, b: NetlistV) -> Seq<Seq<char>> {
    side_nets(a).map_values(|n: Seq<char>| seq!['A', '/'] + n) + side_nets(b).map_values(
        |n: Seq<char>| seq!['B', '/'] + n,
    )
}

/// The unbalanced classes of the refinement of `g`: device classes then net
/// classes, ordered by total size (ties in that order).
pub open spec fn divergence(a: NetlistV, b: NetlistV, g: &Graph) -> Seq<ClassV> {
    let c = colours(a, b, g);
    by_size(
        class_list("device"@, c.0, a.devices.len() as int, dev_labels(a, b)) + class_list(
            "net"@,
            c.1,
            side_nets(a).len() as int,
            net_labels(a, b),
        ),
    )
}

/// Refining the graph of `a` beside `b` takes `iters` rounds and leaves the
/// classes `cl` unbalanced.
pub open spec fn refined(a: NetlistV, b: NetlistV, iters: nat, cl: Seq<ClassV>) -> bool {
    exists|g: Graph| graph_of(&g, a, b) && colours(a, b, &g).2 == iters && divergence(a, b, &g) == cl
}

pub open spec fn note_unresolved() -> Seq<char> {
    "MATCH by colour refinement; explicit isomorphism not constructed within budget (highly symmetric) — necessary, not confirmed sufficient"@
}

pub open spec fn note_refuted() -> Seq<char> {
    "colour counts balance but no consistent device/net bijection exists — refuted 1-WL false MATCH"@
}

pub open spec fn note_params() -> Seq<char> {
    "device topology matches but device parameters differ beyond tolerance (W/L or value)"@
}

proof fn lemma_notes_differ()
    ensures
        note_refuted() != note_unresolved(),
{
    reveal_strlit("colour counts balance but no consistent device/net bijection exists — refuted 1-WL false MATCH");
    reveal_strlit("MATCH by colour refinement; explicit isomorphism not constructed within budget (highly symmetric) — necessary, not confirmed sufficient");
    assert(note_refuted()[0] != note_unresolved()[0]);
}

/// The note `n` reads `t`.
pub open spec fn note_is(n: Option<String>, t: Seq<char>) -> bool {
    match n {
        Some(x) => x@ == t,
        None => false,
    }
}

/// `o` holds a topology-only bijection between the devices of `a` and `b`.
pub open spec fn audit_is(a: NetlistV, b: NetlistV, o: Option<Vec<(usize, usize)>>) -> bool {
    match o {
        Some(v) => audit_ok(a, b, v@),
        None => false,
    }
}

/// A comparison before the parameter audit.
pub struct Comparison {
    pub result: LvsResult,
    /// Set when the sides balance and no bijection passed the compatibility
    /// test but one exists on topology alone: its pairs (device of A, device
    /// of B), for the caller to audit the parameters of.
    pub audit: Option<Vec<(usize, usize)>>,
    /// The number of trials the last bijection search made (0 when none
    /// ran); it reaches `VERIFY_BUDGET` exactly when that search gave up.
    pub trials: u64,
}

/// `compatible` gives one answer for each pair.
pub open spec fn deterministic<F: Fn(usize, usize) -> bool>(compatible: &F) -> bool {
    forall|i: usize, j: usize| !(#[trigger] compatible.ensures((i, j), true) && compatible.ensures((i, j), false))
}

/// `compatible` rejects no pair.
pub open spec fn accepts_all<F: Fn(usize, usize) -> bool>(compatible: &F) -> bool {
    forall|i: usize, j: usize| !#[trigger] compatible.ensures((i, j), false)
}

/// The pairs `v` are a topology-only bijection between the devices of `a`
/// and of `b`, under a net correspondence that keeps port and supply names.
pub open spec fn audit_ok(a: NetlistV, b: NetlistV, v: Seq<(usize, usize)>) -> bool {
    exists|sigma: Seq<usize>, orient: Seq<bool>, mu: Map<Seq<char>, Seq<char>>|
        #![trigger is_iso(a, b, sigma, orient, mu)]
        {
            &&& is_iso(a, b, sigma, orient, mu)
            &&& anchored(a, b, mu)
            &&& v.len() == sigma.len()
            &&& forall|k: int| 0 <= k < v.len() ==> (#[trigger] v[k]).0 < sigma.len() && v[k].1 == sigma[v[k].0 as int]
            &&& forall|k: int, l: int| 0 <= k < v.len() && 0 <= l < v.len() && k != l ==> (#[trigger] v[k]).0 != (#[trigger] v[l]).0
        }
}

/// The counts of devices and nets, the device counts by kind where they
/// differ, the rounds and unbalanced classes of the colour refinement, and
/// the names that are ports on one side only, each once, in ascending order.
pub open spec fn outcome_core(a: NetlistV, b: NetlistV, r: LvsResult) -> bool {
    &&& r.a_devices == a.devices.len()
    &&& r.b_devices == b.devices.len()
    &&& str_ascending(strs(r.only_in_a_ports@))
    &&& forall|t: Seq<char>| strs(r.only_in_a_ports@).contains(t) <==> (a.ports.contains(t) && !b.ports.contains(t))
    &&& str_ascending(strs(r.only_in_b_ports@))
    &&& forall|t: Seq<char>| strs(r.only_in_b_ports@).contains(t) <==> (b.ports.contains(t) && !a.ports.contains(t))
    &&& kind_diff_ok(r.device_kind_diff@, a.devices, b.devices)
    &&& r.a_nets == side_nets(a).len()
    &&& r.b_nets == side_nets(b).len()
    &&& refined(a, b, r.iterations as nat, classes_view(r.unbalanced@))
    &&& 1 <= r.iterations <= 64
    &&& r.property_diffs.len() == 0
}

/// `r` is a comparison of `a` with `b` on topology alone: the report of
/// `outcome_core`, and, when the sides balance, either a MATCH confirmed by a
/// bijection, a MATCH the search could not confirm within its budget, or a
/// MISMATCH because no consistent bijection exists.
pub open spec fn comparison_of(a: NetlistV, b: NetlistV, r: LvsResult) -> bool {
    &&& outcome_core(a, b, r)
    &&& !balanced(r) ==> !r.matched && !r.verified && r.note is None
    &&& balanced(r) ==> {
        ||| (r.matched && r.verified && r.note is None && circuit_iso(a, b) && same_circuit(a, b))
        ||| (r.matched && !r.verified && note_is(r.note, note_unresolved()))
        ||| (!r.matched && !r.verified && note_is(r.note, note_refuted()) && !same_circuit(a, b))
    }
    &&& same_circuit(a, b) && r.only_in_a_ports.len() == 0 && r.only_in_b_ports.len() == 0 ==> r.matched
}

/// `a` and `b` are the same circuit up to the names of internal nets and of
/// devices, under a correspondence that keeps port and supply names and
/// every pair of which the test `compatible` accepted (devices by global
/// index: B's follow A's).
pub open spec fn confirmed<F: Fn(usize, usize) -> bool>(a: NetlistV, b: NetlistV, compatible: &F) -> bool {
    exists|sigma: Seq<usize>, orient: Seq<bool>, mu: Map<Seq<char>, Seq<char>>|
        #![trigger is_iso(a, b, sigma, orient, mu)]
        is_iso(a, b, sigma, orient, mu) && anchored(a, b, mu) && forall|i: int|
            0 <= i < sigma.len() ==> #[trigger] compatible.ensures((i as usize, (a.devices.len() + sigma[i]) as usize), true)
}

/// The bijection search between `a` and `b` fits its budget: placing the
/// devices of A, each on one of at most twice as many (candidate,
/// orientation) choices as B has devices, takes fewer than `VERIFY_BUDGET`
/// trials.
pub open spec fn fits(a: NetlistV, b: NetlistV) -> bool {
    tree_bound(a.devices.len(), 2 * b.devices.len()) < VERIFY_BUDGET
}

/// `nc` colours the nets as the search does: two nets share a colour
/// exactly when they share their refined colour and their seed (anchor).
pub open spec fn anchor_pattern(a: NetlistV, b: NetlistV, g: &Graph, nc: Seq<u64>) -> bool {
    let cn = colours(a, b, g).1;
    let sn = seed_colours(a, b).1;
    &&& nc.len() == cn.len()
    &&& forall|j: int, k: int|
        0 <= j < nc.len() && 0 <= k < nc.len() ==> (#[trigger] nc[j] == #[trigger] nc[k] <==> (cn[j] == cn[k] && sn[j] == sn[k]))
}

/// The bijection search between `a` and `b` is decided within its budget:
/// its bound from the sizes of the refinement's colour classes
/// (`search_size`) is under `VERIFY_BUDGET`.
pub open spec fn search_fits(a: NetlistV, b: NetlistV) -> bool {
    forall|g: Graph, nc: Seq<u64>|
        graph_of(&g, a, b) && anchor_pattern(a, b, &g, nc) ==> #[trigger] search_size(&g, colours(a, b, &g).0, nc)
            < VERIFY_BUDGET
}

/// The sides balance: same ports, device and net counts, and no unbalanced
/// class.
pub open spec fn balanced(r: LvsResult) -> bool {
    &&& r.only_in_a_ports.len() == 0
    &&& r.only_in_b_ports.len() == 0
    &&& r.a_devices == r.b_devices
    &&& r.a_nets == r.b_nets
    &&& r.unbalanced.len() == 0
}

fn dev_labels_exec(a: &Netlist, b: &Netlist) -> (r: Vec<String>)
    ensures
        strs(r@) == dev_labels(a@, b@),
{
    let mut r: Vec<String> = Vec::new();
    let ghost la = a@.devices.map_values(|d: DeviceV| seq!['A', '/'] + d.name);
    let ghost lb = b@.devices.map_values(|d: DeviceV| seq!['B', '/'] + d.name);
    let mut i: usize = 0;
    while i < a.devices.len()
        invariant
            i <= a.devices.len(),
            la == a@.devices.map_values(|d: DeviceV| seq!['A', '/'] + d.name),
            strs(r@) == la.take(i as int),
        decreases a.devices.len() - i,
    {
        let mut v: Vec<char> = Vec::new();
        v.push('A');
        v.push('/');
        push_all(&mut v, &chars_of(a.devices[i].name.as_str()));
        let ghost r0 = r@;
        r.push(string_of(&v));
        proof {
            assert(v@ =~= seq!['A', '/'] + a.devices@[i as int].name@);
            assert(a@.devices[i as int].name == a.devices@[i as int].name@);
            assert(strs(r@) =~= strs(r0).push(v@));
            assert(la.take(i + 1) =~= la.take(i as int).push(la[i as int]));
        }
        i += 1;
    }
    let mut i: usize = 0;
    while i < b.devices.len()
        invariant
            i <= b.devices.len(),
            la.len() == a.devices.len(),
            lb == b@.devices.map_values(|d: DeviceV| seq!['B', '/'] + d.name),
            strs(r@) == la + lb.take(i as int),
        decreases b.devices.len() - i,
    {
        let mut v: Vec<char> = Vec::new();
        v.push('B');
        v.push('/');
        push_all(&mut v, &chars_of(b.devices[i].name.as_str()));
        let ghost r0 = r@;
        r.push(string_of(&v));
        proof {
            assert(v@ =~= seq!['B', '/'] + b.devices@[i as int].name@);
            assert(b@.devices[i as int].name == b.devices@[i as int].name@);
            assert(strs(r@) =~= strs(r0).push(v@));
            assert(lb.take(i + 1) =~= lb.take(i as int).push(lb[i as int]));
        }
        i += 1;
    }
    proof {
        assert(la.take(a.devices.len() as int) =~= la);
        assert(lb.take(b.devices.len() as int) =~= lb);
    }
    r
}

fn net_labels_exec(g: &Graph, Ghost(a): Ghost<NetlistV>, Ghost(b): Ghost<NetlistV>) -> (r: Vec<String>)
    requires
        graph_of(g, a, b),
    ensures
        strs(r@) == net_labels(a, b),
{
    let ghost nm = strs(g.net_name@);
    let ghost want = net_labels(a, b);
    proof {
        assert(nm.len() == g.net_name.len());
    }
    let mut r: Vec<String> = Vec::new();
    let mut j: usize = 0;
    while j < g.net_name.len()
        invariant
            j <= g.net_name.len(),
            graph_of(g, a, b),
            nm == strs(g.net_name@),
            nm.len() == g.net_name.len(),
            want == net_labels(a, b),
            strs(r@) == want.take(j as int),
        decreases g.net_name.len() - j,
    {
        let mut v: Vec<char> = Vec::new();
        if j < g.na_net {
            v.push('A');
        } else {
            v.push('B');
        }
        v.push('/');
        push_all(&mut v, &chars_of(g.net_name[j].as_str()));
        let ghost r0 = r@;
        r.push(string_of(&v));
        proof {
            assert(nm[j as int] == g.net_name@[j as int]@);
            assert(strs(r@) =~= strs(r0).push(v@));
            assert(want.take(j + 1) =~= want.take(j as int).push(want[j as int]));
            if j < g.na_net {
                assert(nm[j as int] == side_nets(a)[j as int]);
                assert(v@ =~= seq!['A', '/'] + nm[j as int]);
            } else {
                assert(nm[j as int] == side_nets(b)[j - g.na_net]);
                assert(v@ =~= seq!['B', '/'] + nm[j as int]);
            }
        }
        j += 1;
    }
    proof {
        assert(want.take(j as int) =~= want);
    }
    r
}

proof fn lemma_unbal_counts(what: Seq<char>, col: Seq<u64>, na: int, labels: Seq<Seq<char>>, cs: Seq<u64>)
    requires
        0 <= na <= col.len() <= usize::MAX,
    ensures
        forall|k: int| 0 <= k < unbal(what, col, na, labels, cs).len() ==> #[trigger] unbal(what, col, na, labels, cs)[k].a_count
            + unbal(what, col, na, labels, cs)[k].b_count <= col.len(),
    decreases cs.len(),
{
    if cs.len() > 0 {
        lemma_unbal_counts(what, col, na, labels, cs.drop_last());
        lemma_members_bound(col.take(na), cs.last());
        lemma_members_bound(col.skip(na), cs.last());
        let r = unbal(what, col, na, labels, cs.drop_last());
        assert forall|k: int| 0 <= k < unbal(what, col, na, labels, cs).len() implies #[trigger] unbal(what, col, na, labels, cs)[k].a_count
            + unbal(what, col, na, labels, cs)[k].b_count <= col.len() by {
            if k < r.len() {
                assert(unbal(what, col, na, labels, cs)[k] == r[k]);
            }
        }
    }
}

fn append_classes(dst: &mut Vec<Unbalanced>, src: Vec<Unbalanced>)
    ensures
        classes_view(final(dst)@) == classes_view(old(dst)@) + classes_view(src@),
{
    let mut src = src;
    let ghost d0 = dst@;
    let ghost s0 = src@;
    dst.append(&mut src);
    proof {
        assert(dst@ == d0 + s0);
        assert(classes_view(dst@) =~= classes_view(d0) + classes_view(s0));
    }
}

proof fn lemma_graph_search_ok(g: &Graph, a: NetlistV, b: NetlistV, dc: Seq<u64>, nc: Seq<u64>)
    requires
        graph_of(g, a, b),
        dc.len() == g.dev_terms.len(),
        nc.len() == g.net_name.len(),
    ensures
        search_ok(g, dc, nc),
{
    assert(strs(g.net_name@).len() == g.net_name.len());
    assert forall|d: int, p: int| 0 <= d < g.dev_terms.len() && 0 <= p < g.dev_terms@[d]@.len() implies #[trigger] g.dev_terms@[d]@[p]
        < nc.len() by {
        assert(tv(g.dev_terms@)[d][p] == g.dev_terms@[d]@[p]);
    }
}

/// Whether `compatible` accepts every pair of the bijection `sigma`
/// (global indices: B's devices follow A's `na`).
fn all_compatible<F: Fn(usize, usize) -> bool>(compatible: &F, sigma: &Vec<usize>, na: usize) -> (ok: bool)
    requires
        forall|i: usize, j: usize| compatible.requires((i, j)),
        forall|i: int| 0 <= i < sigma.len() ==> na + #[trigger] sigma@[i] <= usize::MAX,
        sigma.len() <= na,
    ensures
        ok ==> forall|i: int| 0 <= i < sigma.len() ==> #[trigger] compatible.ensures((i as usize, (na + sigma@[i]) as usize), true),
        !ok ==> exists|i: int| 0 <= i < sigma.len() && #[trigger] compatible.ensures((i as usize, (na + sigma@[i]) as usize), false),
{
    let mut i: usize = 0;
    while i < sigma.len()
        invariant
            i <= sigma.len() <= na,
            forall|i: usize, j: usize| compatible.requires((i, j)),
            forall|i: int| 0 <= i < sigma.len() ==> na + #[trigger] sigma@[i] <= usize::MAX,
            forall|k: int| 0 <= k < i ==> #[trigger] compatible.ensures((k as usize, (na + sigma@[k]) as usize), true),
        decreases sigma.len() - i,
    {
        let r = compatible(i, na + sigma[i]);
        if !r {
            proof {
                assert(compatible.ensures((i as int as usize, (na + sigma@[i as int]) as usize), false));
            }
            return false;
        }
        proof {
            assert(compatible.ensures((i as int as usize, (na + sigma@[i as int]) as usize), true));
        }
        i += 1;
    }
    true
}

/// Compares two netlists whose parallel devices are already merged: the
/// port difference, device counts by kind, net counts, colour refinement and
/// its unbalanced classes; when all balance, the bijection search (devices
/// paired only when `compatible` accepts them, by global index: B's devices
/// follow A's), and, when that fails, the search on topology alone.
#[verifier::rlimit(60)]
#[verifier::spinoff_prover]
pub fn compare_combined<F: Fn(usize, usize) -> bool>(a: &Netlist, b: &Netlist, compatible: &F) -> (c: Comparison)
    requires
        forall|i: usize, j: usize| compatible.requires((i, j)),
    ensures
        outcome_core(a@, b@, c.result),
        !balanced(c.result) ==> !c.result.matched && !c.result.verified && c.result.note is None && c.audit is None,
        balanced(c.result) ==> {
            ||| (c.result.matched && c.result.verified && c.result.note is None && c.audit is None && circuit_iso(a@, b@)
                && confirmed(a@, b@, compatible))
            ||| (c.result.matched && !c.result.verified && c.audit is None && note_is(c.result.note, note_unresolved()))
            ||| (!c.result.matched && !c.result.verified && c.audit is None && note_is(c.result.note, note_refuted())
                && !same_circuit(a@, b@))
            ||| (c.result.matched && !c.result.verified && c.result.note is None && audit_is(a@, b@, c.audit))
        },
        same_circuit(a@, b@) && c.result.only_in_a_ports.len() == 0 && c.result.only_in_b_ports.len() == 0 ==> c.result.matched,
        c.trials <= VERIFY_BUDGET,
        note_is(c.result.note, note_unresolved()) ==> c.trials == VERIFY_BUDGET || !deterministic(compatible),
        same_circuit(a@, b@) && c.result.only_in_a_ports.len() == 0 && c.result.only_in_b_ports.len() == 0 && deterministic(compatible)
            && accepts_all(compatible) ==> c.result.verified || c.trials == VERIFY_BUDGET,
        !same_circuit(a@, b@) && deterministic(compatible) ==> !c.result.matched || c.trials == VERIFY_BUDGET,
        c.trials <= tree_bound(a@.devices.len(), 2 * b@.devices.len()),
        fits(a@, b@) ==> c.trials < VERIFY_BUDGET,
        fits(a@, b@) && deterministic(compatible) ==> !note_is(c.result.note, note_unresolved()),
        search_fits(a@, b@) ==> c.trials < VERIFY_BUDGET,
        search_fits(a@, b@) && deterministic(compatible) ==> !note_is(c.result.note, note_unresolved()),
{
    let na = a.devices.len();
    let nb = b.devices.len();
    let only_a = only_in(&a.ports, &b.ports);
    let only_b = only_in(&b.ports, &a.ports);
    let kd = kind_diff(&a.devices, &b.devices);
    let g = build_graph(a, b);
    let (dc, nc, iters, sc) = refine(a, b, &g);
    let dl = dev_labels_exec(a, b);
    let nl = net_labels_exec(&g, Ghost(a@), Ghost(b@));
    proof {
        assert(strs(g.net_name@).len() == g.net_name.len());
        assert(strs(dl@).len() == dl.len());
        assert(strs(nl@).len() == nl.len());
    }
    let du = classes("device", &dc, na, &dl);
    let nu = classes("net", &nc, g.na_net, &nl);
    let mut all = du;
    append_classes(&mut all, nu);
    proof {
        let c = colours(a@, b@, &g);
        lemma_unbal_counts("device"@, c.0, na as int, dev_labels(a@, b@), crate::divergence::asc_colours(c.0));
        lemma_unbal_counts("net"@, c.1, g.na_net as int, net_labels(a@, b@), crate::divergence::asc_colours(c.1));
        let l1 = class_list("device"@, c.0, na as int, dev_labels(a@, b@));
        let l2 = class_list("net"@, c.1, g.na_net as int, net_labels(a@, b@));
        assert(classes_view(all@) == l1 + l2);
        assert forall|k: int| 0 <= k < all.len() implies #[trigger] all@[k].a_count + all@[k].b_count <= u64::MAX by {
            assert(classes_view(all@)[k] == (l1 + l2)[k]);
            if k < l1.len() {
                assert(l1[k].a_count + l1[k].b_count <= dc.len());
            } else {
                assert(l2[k - l1.len()].a_count + l2[k - l1.len()].b_count <= nc.len());
            }
        }
    }
    let unb = order_by_size(&all);
    let a_nets = g.na_net;
    let b_nets = g.net_name.len() - g.na_net;
    let ok = only_a.len() == 0 && only_b.len() == 0 && na == nb && a_nets == b_nets && unb.len() == 0;
    let mut r = LvsResult {
        matched: ok,
        verified: false,
        a_devices: na,
        b_devices: nb,
        a_nets,
        b_nets,
        only_in_a_ports: only_a,
        only_in_b_ports: only_b,
        device_kind_diff: kd,
        unbalanced: unb,
        property_diffs: Vec::new(),
        iterations: iters,
        note: None,
    };
    proof {
        assert(strs(g.net_name@) == side_nets(a@) + side_nets(b@));
        assert(graph_of(&g, a@, b@) && colours(a@, b@, &g).2 == iters as nat && divergence(a@, b@, &g) == classes_view(
            r.unbalanced@,
        ));
        assert(refined(a@, b@, r.iterations as nat, classes_view(r.unbalanced@)));
    }
    let mut audit: Option<Vec<(usize, usize)>> = None;
    let mut trials: u64 = 0;
    if ok {
        let ac = anchor_colours(&nc, &sc);
        proof {
            lemma_graph_search_ok(&g, a@, b@, dc@, ac@);
        }
        let (o1, m1, t1) = search(&g, &dc, &ac, compatible);
        trials = t1;
        proof {
            assert(anchor_pattern(a@, b@, &g, ac@));
            if search_fits(a@, b@) {
                assert(search_size(&g, colours(a@, b@, &g).0, ac@) < VERIFY_BUDGET);
            }
        }
        proof {
            if same_circuit(a@, b@) && accepts_all(compatible) {
                lemma_same_circuit_pairs(a@, b@, &g, ac@, compatible);
            }
        }
        match o1 {
            Outcome::Verified => {
                proof {
                    lemma_found_pairs(a@, b@, &g, ac@, m1@);
                }
                match check_bijection(a, b, &m1) {
                    Some(w) => {
                        proof {
                            assert forall|i: int| 0 <= i < w.0.len() implies na + #[trigger] w.0@[i] <= usize::MAX by {
                                assert(w.0@[i] < nb);
                            }
                        }
                        if all_compatible(compatible, &w.0, na) {
                            r.verified = true;
                            proof {
                                assert(is_iso(a@, b@, w.0@, w.1@, w.2@));
                                lemma_found_anchored(a@, b@, &g, ac@, m1@, w.0@, w.1@, w.2@);
                                assert(confirmed(a@, b@, compatible));
                            }
                        } else {
                            proof {
                                let i = choose|i: int|
                                    0 <= i < w.0.len() && #[trigger] compatible.ensures((i as usize, (na + w.0@[i]) as usize), false);
                                assert(crate::iso::pairs_dev(m1@, i));
                                let k = choose|k: int| 0 <= k < m1.len() && #[trigger] m1@[k].0 == i;
                                assert(compatible.ensures((m1@[k].0, m1@[k].1), true));
                                assert(w.0@[m1@[k].0 as int] == m1@[k].1 - na);
                                assert((i as usize, (na + w.0@[i]) as usize) == (m1@[k].0, m1@[k].1));
                                assert(compatible.ensures((m1@[k].0, m1@[k].1), false));
                                assert(!deterministic(compatible));
                            }
                            r.note = Some(string_of(&chars_of("MATCH by colour refinement; explicit isomorphism not constructed within budget (highly symmetric) — necessary, not confirmed sufficient")));
                        }
                    },
                    None => {
                        r.note = Some(string_of(&chars_of("MATCH by colour refinement; explicit isomorphism not constructed within budget (highly symmetric) — necessary, not confirmed sufficient")));
                    },
                }
            },
            Outcome::Unresolved => {
                r.note = Some(string_of(&chars_of("MATCH by colour refinement; explicit isomorphism not constructed within budget (highly symmetric) — necessary, not confirmed sufficient")));
            },
            Outcome::Refuted => {
                let any = |i: usize, j: usize| -> (t: bool)
                    ensures
                        t,
                    { true };
                let (o2, m2, t2) = search(&g, &dc, &ac, &any);
                trials = t2;
                match o2 {
                    Outcome::Verified => {
                        proof {
                            lemma_found_pairs(a@, b@, &g, ac@, m2@);
                        }
                        match check_bijection(a, b, &m2) {
                            Some(w) => {
                                let mut v: Vec<(usize, usize)> = Vec::new();
                                let mut k: usize = 0;
                                while k < m2.len()
                                    invariant
                                        k <= m2.len() == na,
                                        v.len() == k,
                                        forall|kk: int|
                                            0 <= kk < m2.len() ==> {
                                                &&& (#[trigger] m2@[kk]).0 < na
                                                &&& m2@[kk].1 >= na
                                                &&& w.0@[m2@[kk].0 as int] == m2@[kk].1 - na
                                            },
                                        forall|kk: int| 0 <= kk < k ==> (#[trigger] v@[kk]).0 == m2@[kk].0 && v@[kk].1 == m2@[kk].1 - na,
                                    decreases m2.len() - k,
                                {
                                    v.push((m2[k].0, m2[k].1 - na));
                                    k += 1;
                                }
                                proof {
                                    assert(is_iso(a@, b@, w.0@, w.1@, w.2@));
                                    lemma_found_anchored(a@, b@, &g, ac@, m2@, w.0@, w.1@, w.2@);
                                    assert forall|kk: int, l: int| 0 <= kk < v.len() && 0 <= l < v.len() && kk != l implies (#[trigger] v@[kk]).0
                                        != (#[trigger] v@[l]).0 by {
                                        assert(m2@[kk].0 != m2@[l].0);
                                    }
                                    assert(audit_ok(a@, b@, v@));
                                }
                                audit = Some(v);
                            },
                            None => {
                                r.note = Some(string_of(&chars_of("MATCH by colour refinement; explicit isomorphism not constructed within budget (highly symmetric) — necessary, not confirmed sufficient")));
                            },
                        }
                    },
                    Outcome::Refuted => {
                        proof {
                            lemma_notes_differ();
                            if same_circuit(a@, b@) {
                                lemma_same_circuit_pairs(a@, b@, &g, ac@, &any);
                            }
                        }
                        r.matched = false;
                        r.note = Some(string_of(&chars_of("colour counts balance but no consistent device/net bijection exists — refuted 1-WL false MATCH")));
                    },
                    Outcome::Unresolved => {
                        r.note = Some(string_of(&chars_of("MATCH by colour refinement; explicit isomorphism not constructed within budget (highly symmetric) — necessary, not confirmed sufficient")));
                    },
                }
            },
        }
    }
    proof {
        if same_circuit(a@, b@) && r.only_in_a_ports.len() == 0 && r.only_in_b_ports.len() == 0 {
            lemma_same_circuit_never_diverges(a@, b@, r);
        }
        if r.verified {
            let (sigma, orient, mu) = choose|sigma: Seq<usize>, orient: Seq<bool>, mu: Map<Seq<char>, Seq<char>>|
                #![trigger is_iso(a@, b@, sigma, orient, mu)]
                is_iso(a@, b@, sigma, orient, mu) && anchored(a@, b@, mu) && forall|i: int|
                    0 <= i < sigma.len() ==> #[trigger] compatible.ensures((i as usize, (a@.devices.len() + sigma[i]) as usize), true);
            assert(same_circuit(a@, b@));
        }
        if audit is Some {
            let v = audit->0;
            let (sigma, orient, mu) = choose|sigma: Seq<usize>, orient: Seq<bool>, mu: Map<Seq<char>, Seq<char>>| {
                &&& is_iso(a@, b@, sigma, orient, mu)
                &&& anchored(a@, b@, mu)
                &&& v@.len() == sigma.len()
                &&& forall|k: int| 0 <= k < v@.len() ==> (#[trigger] v@[k]).0 < sigma.len() && v@[k].1 == sigma[v@[k].0 as int]
                &&& forall|k: int, l: int| 0 <= k < v@.len() && 0 <= l < v@.len() && k != l ==> (#[trigger] v@[k]).0 != (#[trigger] v@[l]).0
            };
            assert(same_circuit(a@, b@));
        }
    }
    Comparison { result: r, audit, trials }
}

/// Completes a comparison with the caller's parameter audit `diffs` of its
/// topology-only bijection: no difference confirms the MATCH; any difference
/// turns it into a MISMATCH carrying them. Without a pending audit the result
/// stands as it is.
pub fn settle(c: Comparison, diffs: Vec<PropDiff>) -> (r: LvsResult)
    ensures
        c.audit is None ==> r == c.result,
        c.audit is Some && diffs.len() == 0 ==> r == (LvsResult { verified: true, ..c.result }),
        c.audit is Some && diffs.len() > 0 ==> !r.matched && r.verified == c.result.verified && r.property_diffs == diffs
            && note_is(r.note, note_params()) && r.a_devices == c.result.a_devices
            && r.b_devices == c.result.b_devices && r.a_nets == c.result.a_nets && r.b_nets == c.result.b_nets
            && r.only_in_a_ports == c.result.only_in_a_ports && r.only_in_b_ports == c.result.only_in_b_ports
            && r.device_kind_diff == c.result.device_kind_diff && r.unbalanced == c.result.unbalanced
            && r.iterations == c.result.iterations,
{
    let mut r = c.result;
    if c.audit.is_some() {
        if diffs.len() == 0 {
            r.verified = true;
        } else {
            r.matched = false;
            r.property_diffs = diffs;
            r.note = Some(string_of(&chars_of("device topology matches but device parameters differ beyond tolerance (W/L or value)")));
        }
    }
    r
}


/// The length keys of devices whose lengths are not told apart.
fn zero_keys(n: usize) -> (r: Vec<i64>)
    ensures
        r@ == Seq::new(n as nat, |i: int| 0i64),
{
    let mut r: Vec<i64> = Vec::new();
    let mut i: usize = 0;
    while i < n
        invariant
            i <= n,
            r@ == Seq::new(i as nat, |k: int| 0i64),
        decreases n - i,
    {
        r.push(0);
        proof {
            assert(r@ =~= Seq::new((i + 1) as nat, |k: int| 0i64));
        }
        i += 1;
    }
    r
}

/// `nl` with its parallel devices merged, lengths not told apart.
pub open spec fn topo_merged(nl: NetlistV) -> NetlistV {
    combine_spec(nl, Seq::new(nl.devices.len(), |i: int| 0i64))
}

/// Compares two netlists on topology alone: parallel devices merged (lengths
/// not told apart), any two devices of the same refinement class acceptable
/// as partners, no parameter consulted. When the search fits its budget
/// (`fits` by the device counts, or `search_fits` by the colour classes) the
/// verdict is decided: the same circuit is a confirmed MATCH (ports
/// agreeing) and two different circuits are a MISMATCH.
pub fn compare_topology(a: &Netlist, b: &Netlist) -> (r: LvsResult)
    ensures
        comparison_of(topo_merged(a@), topo_merged(b@), r),
        fits(topo_merged(a@), topo_merged(b@)) && same_circuit(topo_merged(a@), topo_merged(b@)) && r.only_in_a_ports.len() == 0
            && r.only_in_b_ports.len() == 0 ==> r.matched && r.verified,
        fits(topo_merged(a@), topo_merged(b@)) && !same_circuit(topo_merged(a@), topo_merged(b@)) ==> !r.matched,
        a@.ports == b@.ports ==> r.only_in_a_ports.len() == 0 && r.only_in_b_ports.len() == 0,
        search_fits(topo_merged(a@), topo_merged(b@)) && same_circuit(topo_merged(a@), topo_merged(b@))
            && r.only_in_a_ports.len() == 0 && r.only_in_b_ports.len() == 0 ==> r.matched && r.verified,
        search_fits(topo_merged(a@), topo_merged(b@)) && !same_circuit(topo_merged(a@), topo_merged(b@)) ==> !r.matched,
{
    let za = zero_keys(a.devices.len());
    let zb = zero_keys(b.devices.len());
    let (ca, _ga) = combine_parallel(a, &za);
    let (cb, _gb) = combine_parallel(b, &zb);
    let any = |i: usize, j: usize| -> (t: bool)
        ensures
            t,
        { true };
    let c = compare_combined(&ca, &cb, &any);
    let ghost c0 = c;
    proof {
        assert(ca@ == topo_merged(a@));
        assert(cb@ == topo_merged(b@));
        assert(deterministic(&any));
        assert(accepts_all(&any));
    }
    let r = settle(c, Vec::new());
    proof {
        if a@.ports == b@.ports {
            let ma = topo_merged(a@);
            let mb = topo_merged(b@);
            assert(ma.ports == mb.ports);
            assert(outcome_core(ma, mb, r));
            if r.only_in_a_ports.len() > 0 {
                let t = strs(r.only_in_a_ports@)[0];
                assert(strs(r.only_in_a_ports@).contains(t));
                assert(ma.ports.contains(t) && !mb.ports.contains(t));
            }
            if r.only_in_b_ports.len() > 0 {
                let t = strs(r.only_in_b_ports@)[0];
                assert(strs(r.only_in_b_ports@).contains(t));
                assert(mb.ports.contains(t) && !ma.ports.contains(t));
            }
        }
        if c0.audit is Some {
            let v = c0.audit->0;
            assert(audit_ok(ca@, cb@, v@));
            let (sigma, orient, mu) = choose|sigma: Seq<usize>, orient: Seq<bool>, mu: Map<Seq<char>, Seq<char>>| {
                &&& is_iso(ca@, cb@, sigma, orient, mu)
                &&& v@.len() == sigma.len()
                &&& forall|k: int| 0 <= k < v@.len() ==> (#[trigger] v@[k]).0 < sigma.len() && v@[k].1 == sigma[v@[k].0 as int]
                &&& forall|k: int, l: int| 0 <= k < v@.len() && 0 <= l < v@.len() && k != l ==> (#[trigger] v@[k]).0 != (#[trigger] v@[l]).0
            };
            assert(is_iso(ca@, cb@, sigma, orient, mu));
            assert(same_circuit(ca@, cb@));
        }
        if c0.result.verified {
            let (sigma, orient, mu) = choose|sigma: Seq<usize>, orient: Seq<bool>, mu: Map<Seq<char>, Seq<char>>|
                #![trigger is_iso(ca@, cb@, sigma, orient, mu)]
                is_iso(ca@, cb@, sigma, orient, mu) && anchored(ca@, cb@, mu) && forall|i: int|
                    0 <= i < sigma.len() ==> #[trigger] any.ensures((i as usize, (ca@.devices.len() + sigma[i]) as usize), true);
            assert(same_circuit(ca@, cb@));
        }
    }
    r
}


// ---------------------------------------------------------------- laws of merging

/// `d` with its terminals `i` and `j` exchanged.
pub open spec fn swap_nodes(d: DeviceV, i: int, j: int) -> DeviceV {
    DeviceV { nodes: d.nodes.update(i, d.nodes[j]).update(j, d.nodes[i]), ..d }
}

/// The parallel signature does not see which of a MOSFET's source and drain
/// is which, nor the order of a resistor's, capacitor's or inductor's two
/// terminals: exchanging them leaves it unchanged.
pub proof fn lemma_psig_symmetric(d: DeviceV, lk: i64)
    ensures
        d.kind == 'M' && d.nodes.len() >= 4 ==> psig(swap_nodes(d, 0, 2), lk) == psig(d, lk),
        (d.kind == 'R' || d.kind == 'C' || d.kind == 'L') && d.nodes.len() == 2 ==> psig(swap_nodes(d, 0, 1), lk) == psig(d, lk),
{
    let n = d.nodes;
    if d.kind == 'M' && n.len() >= 4 {
        let e = swap_nodes(d, 0, 2);
        lemma_str_le_total(n[0], n[2]);
        if str_le(n[0], n[2]) && str_le(n[2], n[0]) {
            lemma_str_le_antisym(n[0], n[2]);
        }
        assert(e.nodes[0] == n[2] && e.nodes[2] == n[0] && e.nodes[1] == n[1] && e.nodes[3] == n[3]);
        assert(sig_terms(e) =~= sig_terms(d));
    }
    if (d.kind == 'R' || d.kind == 'C' || d.kind == 'L') && n.len() == 2 {
        let e = swap_nodes(d, 0, 1);
        lemma_str_le_total(n[0], n[1]);
        if str_le(n[0], n[1]) && str_le(n[1], n[0]) {
            lemma_str_le_antisym(n[0], n[1]);
        }
        assert(e.nodes[0] == n[1] && e.nodes[1] == n[0]);
        assert(sig_terms(e) =~= sig_terms(d));
    }
}

proof fn lemma_members_has<K>(k: Seq<K>, key: K, i: int)
    requires
        k.len() <= usize::MAX,
        0 <= i < k.len(),
        k[i] == key,
    ensures
        members(k, key).contains(i as usize),
    decreases k.len(),
{
    if i == k.len() - 1 {
        assert(members(k, key).last() == i as usize);
    } else {
        lemma_members_has(k.drop_last(), key, i);
        let m = members(k.drop_last(), key);
        let t = choose|t: int| 0 <= t < m.len() && m[t] == i as usize;
        if k.last() == key {
            assert(members(k, key)[t] == i as usize);
        } else {
            assert(members(k, key)[t] == i as usize);
        }
    }
}

/// Position `i` is in one of the groups `gs`.
pub open spec fn grouped(gs: Seq<Seq<usize>>, i: int) -> bool {
    exists|g: int| 0 <= g < gs.len() && #[trigger] gs[g].contains(i as usize)
}

/// Merging parallel devices loses no device and counts none twice: every
/// device is in exactly one group, and all members of a group have one
/// parallel signature.
pub proof fn lemma_groups_partition(ds: Seq<DeviceV>, lks: Seq<i64>)
    requires
        lks.len() == ds.len(),
        ds.len() <= usize::MAX,
    ensures
        forall|i: int| 0 <= i < ds.len() ==> #[trigger] grouped(groups_spec(ds, lks), i),
        forall|g1: int, g2: int, i: usize|
            0 <= g1 < groups_spec(ds, lks).len() && 0 <= g2 < groups_spec(ds, lks).len() && #[trigger] groups_spec(ds, lks)[g1].contains(i)
                && #[trigger] groups_spec(ds, lks)[g2].contains(i) ==> g1 == g2,
        forall|g: int, t: int|
            0 <= g < groups_spec(ds, lks).len() && 0 <= t < groups_spec(ds, lks)[g].len() ==> {
                &&& #[trigger] groups_spec(ds, lks)[g][t] < ds.len()
                &&& psig(ds[groups_spec(ds, lks)[g][t] as int], lks[groups_spec(ds, lks)[g][t] as int]) == psig(
                    ds[groups_spec(ds, lks)[g][0] as int],
                    lks[groups_spec(ds, lks)[g][0] as int],
                )
            },
{
    let k = sigs(ds, lks);
    let o = order(k);
    let gs = groups_spec(ds, lks);
    crate::refine::lemma_order_no_dup(k);
    assert forall|i: int| 0 <= i < ds.len() implies #[trigger] grouped(gs, i) by {
        assert(k.contains(k[i]));
        crate::refine::lemma_order_contains(k, k[i]);
        let g = choose|g: int| 0 <= g < o.len() && o[g] == k[i];
        lemma_members_has(k, k[i], i);
        assert(gs[g] == members(k, o[g]));
    }
    assert forall|g1: int, g2: int, i: usize|
        0 <= g1 < gs.len() && 0 <= g2 < gs.len() && #[trigger] gs[g1].contains(i) && #[trigger] gs[g2].contains(i) implies g1 == g2 by {
        lemma_members_bound(k, o[g1]);
        lemma_members_bound(k, o[g2]);
        let t1 = choose|t: int| 0 <= t < gs[g1].len() && gs[g1][t] == i;
        let t2 = choose|t: int| 0 <= t < gs[g2].len() && gs[g2][t] == i;
        assert(members(k, o[g1])[t1] == i);
        assert(members(k, o[g2])[t2] == i);
        assert(o[g1] == o[g2]);
    }
    assert forall|g: int, t: int| 0 <= g < gs.len() && 0 <= t < gs[g].len() implies {
        &&& #[trigger] gs[g][t] < ds.len()
        &&& psig(ds[gs[g][t] as int], lks[gs[g][t] as int]) == psig(ds[gs[g][0] as int], lks[gs[g][0] as int])
    } by {
        lemma_members_bound(k, o[g]);
        assert(gs[g] == members(k, o[g]));
        assert(k[gs[g][t] as int] == o[g]);
        assert(k[gs[g][0] as int] == o[g]);
    }
}


proof fn lemma_members_sound<K>(k: Seq<K>, key: K)
    requires
        k.len() <= usize::MAX,
    ensures
        forall|t: int| 0 <= t < members(k, key).len() ==> (#[trigger] members(k, key)[t]) < k.len() && k[members(k, key)[t] as int] == key,
    decreases k.len(),
{
    if k.len() > 0 {
        lemma_members_sound(k.drop_last(), key);
        let m0 = members(k.drop_last(), key);
        assert forall|t: int| 0 <= t < members(k, key).len() implies (#[trigger] members(k, key)[t]) < k.len()
            && k[members(k, key)[t] as int] == key by {
            if t < m0.len() {
                assert(members(k, key)[t] == m0[t]);
                assert(k.drop_last()[m0[t] as int] == k[m0[t] as int]);
            }
        }
    }
}

proof fn lemma_members_increasing<K>(k: Seq<K>, key: K)
    requires
        k.len() <= usize::MAX,
    ensures
        forall|t1: int, t2: int| 0 <= t1 < t2 < members(k, key).len() ==> #[trigger] members(k, key)[t1] < #[trigger] members(k, key)[t2],
    decreases k.len(),
{
    if k.len() > 0 {
        lemma_members_increasing(k.drop_last(), key);
        lemma_members_sound(k.drop_last(), key);
        let m0 = members(k.drop_last(), key);
        assert forall|t1: int, t2: int| 0 <= t1 < t2 < members(k, key).len() implies #[trigger] members(k, key)[t1]
            < #[trigger] members(k, key)[t2] by {
            assert(members(k, key)[t1] == m0[t1]);
            if t2 < m0.len() {
                assert(members(k, key)[t2] == m0[t2]);
            } else {
                assert(members(k, key)[t2] == (k.len() - 1) as usize);
                assert(m0[t1] < k.drop_last().len());
            }
        }
    }
}

proof fn lemma_order_nodup_id<K>(o: Seq<K>)
    requires
        o.no_duplicates(),
    ensures
        order(o) == o,
    decreases o.len(),
{
    if o.len() > 0 {
        let p = o.drop_last();
        assert(p.no_duplicates()) by {
            assert forall|i: int, j: int| 0 <= i < p.len() && 0 <= j < p.len() && i != j implies p[i] != p[j] by {
                assert(o[i] != o[j]);
            }
        }
        lemma_order_nodup_id(p);
        assert(!p.contains(o.last())) by {
            if p.contains(o.last()) {
                let i = choose|i: int| 0 <= i < p.len() && p[i] == o.last();
                assert(o[i] == o[o.len() - 1]);
            }
        }
        assert(p.push(o.last()) =~= o);
    }
}

proof fn lemma_members_nodup<K>(o: Seq<K>, g: int)
    requires
        o.no_duplicates(),
        o.len() <= usize::MAX,
        0 <= g < o.len(),
    ensures
        members(o, o[g]) == seq![g as usize],
    decreases o.len(),
{
    let p = o.drop_last();
    assert(p.no_duplicates()) by {
        assert forall|i: int, j: int| 0 <= i < p.len() && 0 <= j < p.len() && i != j implies p[i] != p[j] by {
            assert(o[i] != o[j]);
        }
    }
    if g == o.len() - 1 {
        assert(!p.contains(o[g])) by {
            if p.contains(o[g]) {
                let i = choose|i: int| 0 <= i < p.len() && p[i] == o[g];
                assert(o[i] == o[g]);
            }
        }
        lemma_order_nodup_id(p);
        lemma_members_absent(p, o[g]);
        assert(members(o, o[g]) =~= seq![g as usize]);
    } else {
        lemma_members_nodup(p, g);
        assert(o.last() != o[g]);
        assert(p[g] == o[g]);
    }
}

/// Merging leaves a netlist whose devices are pairwise not parallel (all
/// parallel signatures distinct) unchanged.
pub proof fn lemma_combine_no_parallel(nl: NetlistV, lks: Seq<i64>)
    requires
        lks.len() == nl.devices.len(),
        nl.devices.len() <= usize::MAX,
        sigs(nl.devices, lks).no_duplicates(),
    ensures
        combine_spec(nl, lks) == nl,
{
    let ds = nl.devices;
    let k = sigs(ds, lks);
    lemma_order_nodup_id(k);
    assert forall|g: int| 0 <= g < ds.len() implies #[trigger] combine_spec(nl, lks).devices[g] == ds[g] by {
        lemma_members_nodup(k, g);
        assert(groups_spec(ds, lks)[g] == seq![g as usize]);
    }
    assert(combine_spec(nl, lks).devices =~= ds);
}

/// The devices of a merged netlist, paired with the length keys of the
/// groups' first members.
pub open spec fn group_keys(ds: Seq<DeviceV>, lks: Seq<i64>) -> Seq<i64> {
    groups_spec(ds, lks).map_values(|m: Seq<usize>| lks[m[0] as int])
}

/// Merging parallel devices a second time changes nothing: the devices of a
/// merged netlist are pairwise not parallel, so each is a group of its own
/// (instance names being distinct, as SPICE requires).
pub proof fn lemma_combine_idempotent(nl: NetlistV, lks: Seq<i64>)
    requires
        lks.len() == nl.devices.len(),
        nl.devices.len() <= usize::MAX,
        forall|i: int, j: int|
            0 <= i < nl.devices.len() && 0 <= j < nl.devices.len() && i != j && nl.devices[i].kind == 'X' && nl.devices[j].kind
                == 'X' ==> #[trigger] nl.devices[i].name != #[trigger] nl.devices[j].name,
    ensures
        combine_spec(combine_spec(nl, lks), group_keys(nl.devices, lks)) == combine_spec(nl, lks),
{
    let ds = nl.devices;
    let k = sigs(ds, lks);
    let o = order(k);
    let gs = groups_spec(ds, lks);
    let nl2 = combine_spec(nl, lks);
    let ds2 = nl2.devices;
    let lks2 = group_keys(ds, lks);
    crate::refine::lemma_order_no_dup(k);
    assert(gs.len() == o.len());
    // each group is non-empty and its members carry its key
    assert forall|g: int| 0 <= g < o.len() implies #[trigger] psig(ds2[g], lks2[g]) == o[g] by {
        let m = members(k, o[g]);
        assert(gs[g] == m);
        assert(o.contains(o[g]));
        crate::refine::lemma_order_contains(k, o[g]);
        let i = choose|i: int| 0 <= i < k.len() && k[i] == o[g];
        lemma_members_has(k, o[g], i);
        lemma_members_sound(k, o[g]);
        let f = m[0] as int;
        assert(k[f] == o[g]);
        assert(k[f] == psig(ds[f], lks[f]));
        assert(lks2[g] == lks[f]);
        if ds[f].kind == 'X' && m.len() > 1 {
            let f2 = m[1] as int;
            assert(k[f2] == o[g]);
            assert(m[0] != m[1]) by {
                assert(members(k, o[g]).len() > 1);
                lemma_members_increasing(k, o[g]);
            }
            assert(psig(ds[f2], lks[f2]) == psig(ds[f], lks[f]));
            assert(psig(ds[f], lks[f])[0] =~= seq!['X']);
            assert(ds[f2].kind == 'X') by {
                if ds[f2].kind != 'X' {
                    assert(psig(ds[f2], lks[f2])[0] =~= seq![ds[f2].kind]);
                    assert(seq![ds[f2].kind][0] == seq!['X'][0]);
                }
            }
            assert(psig(ds[f2], lks[f2])[1] == ds[f2].name);
            assert(psig(ds[f], lks[f])[1] == ds[f].name);
        }
        assert(ds2[g] == merged(ds, m));
        if ds[f].kind != 'X' {
            assert(psig(ds2[g], lks2[g]) =~= psig(ds[f], lks[f]));
        }
    }
    let k2 = sigs(ds2, lks2);
    assert(k2 =~= o);
    lemma_order_nodup_id(o);
    crate::invariance::lemma_order_len(k);
    assert forall|g: int| 0 <= g < o.len() implies #[trigger] groups_spec(ds2, lks2)[g] == seq![g as usize] by {
        lemma_members_nodup(o, g);
    }
    assert forall|g: int| 0 <= g < o.len() implies #[trigger] combine_spec(nl2, lks2).devices[g] == ds2[g] by {
        assert(groups_spec(ds2, lks2)[g] == seq![g as usize]);
    }
    assert(combine_spec(nl2, lks2).devices =~= ds2);
}

} // verus!
