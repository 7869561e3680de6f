use vyges_lvs::compare::{combine_parallel, compare_combined, compare_topology, is_supply_name, settle, PropDiff};
use vyges_lvs::iso::check_bijection;
use vyges_lvs::spice::Netlist;

fn nl(t: &str) -> Netlist {
    Netlist::parse(t, None).unwrap()
}

const INV_A: &str = ".subckt inv A Y VDD VSS\nMp Y A VDD VDD pfet\nMn Y A VSS VSS nfet\n.ends\n";
const INV_B: &str = ".subckt inv A Y VDD VSS\nM1 Y A VSS VSS nfet\nM0 Y A VDD VDD pfet\n.ends\n";

#[test]
fn identical_circuits_match() {
    let r = compare_topology(&nl(INV_A), &nl(INV_B));
    assert!(r.matched, "renamed/reordered same circuit should MATCH: {r:?}");
    assert!(r.verified, "MATCH should be confirmed by an explicit bijection: {r:?}");
    assert_eq!(r.a_devices, 2);
}

#[test]
fn refutes_1wl_false_match() {
    let ring6 = "R0 n0 n1\nR1 n1 n2\nR2 n2 n3\nR3 n3 n4\nR4 n4 n5\nR5 n5 n0\n";
    let two3 = "R0 m0 m1\nR1 m1 m2\nR2 m2 m0\nR3 m3 m4\nR4 m4 m5\nR5 m5 m3\n";
    let r = compare_topology(&nl(ring6), &nl(two3));
    assert!(!r.matched, "6-ring vs two 3-rings must not MATCH");
    assert!(
        r.note.as_deref().unwrap_or("").contains("refuted"),
        "should report a refuted 1-WL false MATCH, got {:?}",
        r.note
    );
}

#[test]
fn isomorphic_rings_verify() {
    let a = "R0 n0 n1\nR1 n1 n2\nR2 n2 n0\n";
    let b = "R0 m0 m1\nR1 m1 m2\nR2 m2 m0\n";
    let r = compare_topology(&nl(a), &nl(b));
    assert!(r.matched && r.verified, "isomorphic triangles should verify: {r:?}");
}

#[test]
fn swapped_device_kind_mismatches() {
    let bad = ".subckt inv A Y VDD VSS\nMp Y A VDD VDD nfet\nMn Y A VSS VSS nfet\n.ends\n";
    let r = compare_topology(&nl(INV_A), &nl(bad));
    assert!(!r.matched, "pfet->nfet swap must mismatch");
    assert!(!r.unbalanced.is_empty());
}

fn bank(n: usize, mutate: bool) -> Netlist {
    let mut s = String::from(".subckt bank VDD VSS\n");
    for i in 0..n {
        s += &format!("Mp{i} y{i} a{i} VDD VDD pfet\n");
        let g = if mutate && i == 0 { 1 } else { i };
        s += &format!("Mn{i} y{i} a{g} VSS VSS nfet\n");
    }
    s += ".ends\n";
    nl(&s)
}

#[test]
fn single_fault_stays_local_not_cascaded() {
    let good = bank(200, false);
    let bad = bank(200, true);
    let r = compare_topology(&good, &bad);
    assert!(!r.matched, "a rewired gate must MISMATCH");
    assert!(
        r.unbalanced.len() <= 12,
        "fault should stay local, got {} divergence classes",
        r.unbalanced.len()
    );
    let named: String = r
        .unbalanced
        .iter()
        .flat_map(|u| u.a_examples.iter().chain(&u.b_examples))
        .cloned()
        .collect();
    assert!(
        ["a0", "a1", "y0", "Mp0", "Mn0", "Mp1"].iter().any(|t| named.contains(t)),
        "the faulted neighbourhood should be named, got {named:?}"
    );
}

#[test]
fn supply_heavy_equivalent_still_matches() {
    let r = compare_topology(&bank(200, false), &bank(200, false));
    assert!(r.matched, "identical supply-heavy banks must MATCH: {} classes", r.unbalanced.len());
}

#[test]
fn missing_device_mismatches() {
    let short = ".subckt inv A Y VDD VSS\nMn Y A VSS VSS nfet\n.ends\n";
    let r = compare_topology(&nl(INV_A), &nl(short));
    assert!(!r.matched);
    assert_eq!((r.a_devices, r.b_devices), (2, 1));
}

#[test]
fn supplies_are_known_by_leaf_name() {
    assert!(is_supply_name("VDD"));
    assert!(is_supply_name("x1/vss"));
    assert!(is_supply_name("top.Gnd"));
    assert!(is_supply_name("bus:0"));
    assert!(is_supply_name("vpwr"));
    assert!(!is_supply_name("vdd1"));
    assert!(!is_supply_name("a"));
    assert!(!is_supply_name("vdd/x"));
}

#[test]
fn parallel_fingers_merge_in_order() {
    let t = ".subckt c A Y VDD VSS\nMp0 Y A VDD VDD pfet\nMn Y A VSS VSS nfet\nMp1 VDD A Y VDD pfet\nMp2 Y A VDD VDD pfet\n.ends\n";
    let n = nl(t);
    let (c, groups) = combine_parallel(&n, &vec![0; n.devices.len()]);
    assert_eq!(c.devices.len(), 2);
    assert_eq!(c.devices[0].name, "Mp0(×3)");
    assert_eq!(c.devices[1].name, "Mn");
    assert_eq!(groups, vec![vec![0, 2, 3], vec![1]]);
    // different lengths never merge
    let (c2, _) = combine_parallel(&n, &vec![150, 0, 150, 200]);
    assert_eq!(c2.devices.len(), 3);
}

#[test]
fn instances_never_merge() {
    let n = nl("X1 a b cell\nX2 a b cell\n");
    let (c, _) = combine_parallel(&n, &vec![0, 0]);
    assert_eq!(c.devices.len(), 2);
}

#[test]
fn port_and_kind_differences_are_listed_in_order() {
    let a = nl(".subckt c A B Z VDD\nR1 A B 1k\nC1 B VDD 1p\nC2 A VDD 1p\n.ends\n");
    let b = nl(".subckt c A Y B VDD\nR1 A B 1k\nR2 B Y 1k\nC1 B VDD 1p\n.ends\n");
    let r = compare_topology(&a, &b);
    assert!(!r.matched);
    assert_eq!(r.only_in_a_ports, ["Z"]);
    assert_eq!(r.only_in_b_ports, ["Y"]);
    assert_eq!(r.device_kind_diff, vec![('C', 2, 1), ('R', 1, 2)]);
    assert_eq!((r.a_nets, r.b_nets), (3, 4));
}

#[test]
fn a_rejected_pairing_defers_to_the_audit() {
    let a = nl(INV_A);
    let b = nl(INV_B);
    let never = |_: usize, _: usize| false;
    let c = compare_combined(&a, &b, &never);
    assert!(c.result.matched && !c.result.verified);
    let audit = c.audit.clone().expect("a topology-only bijection");
    assert_eq!(audit.len(), 2);
    for (i, j) in &audit {
        assert_eq!(a.devices[*i].model, b.devices[*j].model);
    }
    // no parameter differs: the MATCH stands, confirmed
    let ok = settle(compare_combined(&a, &b, &never), Vec::new());
    assert!(ok.matched && ok.verified && ok.note.is_none());
    // a parameter differs: MISMATCH with the difference carried
    let d = PropDiff {
        kind: 'M',
        a_device: "Mp".into(),
        b_device: "M0".into(),
        param: "w".into(),
        a_value: "0.000001".into(),
        b_value: "0.000002".into(),
    };
    let bad = settle(c, vec![d]);
    assert!(!bad.matched && !bad.verified);
    assert_eq!(bad.property_diffs.len(), 1);
    assert_eq!(
        bad.note.as_deref(),
        Some("device topology matches but device parameters differ beyond tolerance (W/L or value)")
    );
}

#[test]
fn refinement_runs_at_least_one_round() {
    let r = compare_topology(&nl(INV_A), &nl(INV_B));
    assert!(r.iterations >= 1 && r.iterations <= 64);
    assert!(r.unbalanced.is_empty());
    assert_eq!((r.a_nets, r.b_nets), (4, 4));
}

#[test]
fn unbalanced_classes_name_their_members() {
    let a = nl("R1 x y r\n");
    let b = nl("C1 x y c\n");
    let r = compare_topology(&a, &b);
    assert!(!r.matched);
    let dev: Vec<_> = r.unbalanced.iter().filter(|u| u.what == "device").collect();
    assert_eq!(dev.len(), 2);
    let mut names: Vec<String> = dev.iter().flat_map(|u| u.a_examples.iter().chain(&u.b_examples)).cloned().collect();
    names.sort();
    assert_eq!(names, ["A/R1", "B/C1"]);
}

#[test]
fn a_reported_bijection_is_checked_against_the_netlists() {
    let a = nl(INV_A);
    let b = nl(INV_B);
    // Mp <-> M0 (index 1 of B), Mn <-> M1 (index 0 of B); global B indices follow A's two
    let good = vec![(0usize, 3usize, false), (1usize, 2usize, false)];
    let w = check_bijection(&a, &b, &good).expect("a real correspondence");
    assert_eq!(w.0, vec![1, 0]);
    // pairing the pull-up with the pull-down is no correspondence
    let bad = vec![(0usize, 2usize, false), (1usize, 3usize, false)];
    assert!(check_bijection(&a, &b, &bad).is_none());
    // a device of A paired twice is no bijection
    let twice = vec![(0usize, 3usize, false), (0usize, 2usize, false)];
    assert!(check_bijection(&a, &b, &twice).is_none());
}

#[test]
fn source_and_drain_may_swap() {
    let a = nl("M1 d g s b nch\n");
    let b = nl("M1 s g d b nch\n");
    let r = compare_topology(&a, &b);
    assert!(r.matched && r.verified, "{r:?}");
}

#[test]
fn parallel_resistors_combine() {
    // two parallel 2k resistors against one 1k: the value token is no part of
    // the topology, so the merged pair and the single resistor pair up
    let r = compare_topology(&nl("R0 a b 2k\nR1 a b 2k\n"), &nl("R0 a b 1k\n"));
    assert!(r.matched && r.verified, "2k||2k should pair with 1k: {r:?}");
    assert_eq!((r.a_devices, r.b_devices), (1, 1));
    assert!(r.unbalanced.is_empty());
}

#[test]
fn fingered_mosfet_matches_single_wide() {
    let lay = ".subckt c A Y VDD VSS\n\
        Mp0 Y A VDD VDD pfet w=0.5u l=0.15u\nMp1 Y A VDD VDD pfet w=0.5u l=0.15u\n\
        Mp2 Y A VDD VDD pfet w=0.5u l=0.15u\nMp3 Y A VDD VDD pfet w=0.5u l=0.15u\n\
        Mn Y A VSS VSS nfet w=1u l=0.15u\n.ends\n";
    let sch = ".subckt c A Y VDD VSS\nMp Y A VDD VDD pfet w=2u l=0.15u\nMn Y A VSS VSS nfet w=1u l=0.15u\n.ends\n";
    let r = compare_topology(&nl(lay), &nl(sch));
    assert!(r.matched && r.verified, "4 fingers should combine and MATCH a W=2 device: {r:?}");
    assert_eq!((r.a_devices, r.b_devices), (2, 2), "fingers combined to 2 devices");
    assert!(r.property_diffs.is_empty());
}

#[test]
fn a_search_reports_its_trials() {
    let any = |_: usize, _: usize| true;
    let c = compare_combined(&nl(INV_A), &nl(INV_B), &any);
    assert!(c.result.matched && c.result.verified);
    assert!(c.trials >= 2 && c.trials < vyges_lvs::iso::VERIFY_BUDGET);
    let d = compare_combined(&nl(INV_A), &nl("Mx Y A VSS VSS nfet\n"), &any);
    assert!(!d.result.matched);
    assert_eq!(d.trials, 0, "no search runs when the sides do not balance");
}

#[test]
fn a_refuted_match_is_no_same_circuit() {
    let ring6 = "R0 n0 n1\nR1 n1 n2\nR2 n2 n3\nR3 n3 n4\nR4 n4 n5\nR5 n5 n0\n";
    let two3 = "R0 m0 m1\nR1 m1 m2\nR2 m2 m0\nR3 m3 m4\nR4 m4 m5\nR5 m5 m3\n";
    let any = |_: usize, _: usize| true;
    let c = compare_combined(&nl(ring6), &nl(two3), &any);
    assert!(!c.result.matched && !c.result.verified && c.result.unbalanced.is_empty());
    assert_eq!((c.result.a_devices, c.result.b_devices), (6, 6));
    assert_eq!((c.result.a_nets, c.result.b_nets), (6, 6));
    assert!(c.trials < vyges_lvs::iso::VERIFY_BUDGET);
}

#[test]
fn swapped_passive_terminals_merge() {
    let n = nl("R0 a b 2k\nR1 b a 2k\nC0 a b 1p\nC1 b a 1p\n");
    let (c, groups) = combine_parallel(&n, &vec![0; n.devices.len()]);
    assert_eq!(c.devices.len(), 2);
    assert_eq!(groups, vec![vec![0, 1], vec![2, 3]]);
}

#[test]
fn merging_twice_changes_nothing() {
    let t = ".subckt c A Y VDD VSS\nMp0 Y A VDD VDD pfet\nMn Y A VSS VSS nfet\nMp1 VDD A Y VDD pfet\nR1 A Y 1k\nR2 Y A 2k\n.ends\n";
    let n = nl(t);
    let lks = vec![150, 0, 150, 0, 0];
    let (once, groups) = combine_parallel(&n, &lks);
    let keys: Vec<i64> = groups.iter().map(|g| lks[g[0]]).collect();
    let (twice, groups2) = combine_parallel(&once, &keys);
    assert_eq!(once.devices.len(), 4);
    assert_eq!(once.devices[0].name, "Mp0(×2)");
    assert_eq!(twice.devices.len(), once.devices.len());
    for (x, y) in once.devices.iter().zip(twice.devices.iter()) {
        assert_eq!(x.name, y.name);
        assert_eq!(x.nodes, y.nodes);
        assert_eq!(x.model, y.model);
        assert_eq!(x.params, y.params);
    }
    assert_eq!(groups2, vec![vec![0], vec![1], vec![2], vec![3]]);
}

#[test]
fn a_width_mismatch_is_caught_through_the_audit() {
    let a = nl(".subckt inv A Y VDD VSS\nMp Y A VDD VDD pfet w=1u l=0.15u\nMn Y A VSS VSS nfet w=1u l=0.15u\n.ends\n");
    let b = nl(".subckt inv A Y VDD VSS\nMp Y A VDD VDD pfet w=2u l=0.15u\nMn Y A VSS VSS nfet w=1u l=0.15u\n.ends\n");
    let na = a.devices.len();
    let width = |d: &vyges_lvs::spice::Device| d.params.iter().find(|p| p.0 == "w").map(|p| p.1.clone());
    let same_width = |i: usize, j: usize| width(&a.devices[i]) == width(&b.devices[j - na]);
    let c = compare_combined(&a, &b, &same_width);
    assert!(c.result.matched && !c.result.verified);
    let audit = c.audit.clone().expect("a topology-only bijection");
    let mut diffs = Vec::new();
    for (i, j) in &audit {
        let (wa, wb) = (width(&a.devices[*i]).unwrap(), width(&b.devices[*j]).unwrap());
        if wa != wb {
            diffs.push(PropDiff {
                kind: 'M',
                a_device: a.devices[*i].name.clone(),
                b_device: b.devices[*j].name.clone(),
                param: "w".into(),
                a_value: wa,
                b_value: wb,
            });
        }
    }
    let r = settle(c, diffs);
    assert!(!r.matched && !r.verified);
    assert_eq!(r.property_diffs.len(), 1);
    let d = &r.property_diffs[0];
    assert_eq!((d.a_device.as_str(), d.b_device.as_str(), d.param.as_str()), ("Mp", "Mp", "w"));
    assert!(r.note.is_some());
}

#[test]
fn matching_widths_are_confirmed_without_an_audit() {
    let t = ".subckt inv A Y VDD VSS\nMp Y A VDD VDD pfet w=1u\nMn Y A VSS VSS nfet w=1u\n.ends\n";
    let a = nl(t);
    let b = nl(t);
    let na = a.devices.len();
    let same_model = |i: usize, j: usize| a.devices[i].model == b.devices[j - na].model;
    let c = compare_combined(&a, &b, &same_model);
    assert!(c.result.matched && c.result.verified && c.audit.is_none());
    assert!(c.trials > 0 && c.trials < 5_000_000);
}

#[test]
fn a_renamed_and_reordered_circuit_is_a_confirmed_match() {
    let a = nl(".subckt buf A Z VDD VSS\nMp1 n1 A VDD VDD pfet\nMn1 n1 A VSS VSS nfet\nMp2 Z n1 VDD VDD pfet\nMn2 Z n1 VSS VSS nfet\n.ends\n");
    let b = nl(".subckt buf A Z VDD VSS\nM4 Z mid VSS VSS nfet\nM7 mid A VDD VDD pfet\nM9 Z mid VDD VDD pfet\nM3 mid A VSS VSS nfet\n.ends\n");
    let r = compare_topology(&a, &b);
    assert!(r.matched && r.verified && r.note.is_none());
    assert!(r.unbalanced.is_empty() && r.device_kind_diff.is_empty());
    assert_eq!((r.a_nets, r.b_nets), (5, 5));
}

#[test]
fn a_long_chain_is_confirmed_without_deep_recursion() {
    let n = 20000;
    let mut a = String::new();
    let mut b = String::new();
    for i in 0..n {
        a.push_str(&format!("D{i} n{i} n{} dm{i}\n", i + 1));
    }
    for i in (0..n).rev() {
        b.push_str(&format!("Dx{i} m{i} m{} dm{i}\n", i + 1));
    }
    let r = compare_topology(&nl(&a), &nl(&b));
    assert!(r.matched && r.verified, "{:?}", r.note);
    assert_eq!((r.a_devices, r.b_devices), (n, n));
}

#[test]
fn the_parallel_signature_ignores_a_source_drain_swap() {
    let n = nl("M1 d g s b nch\nM2 s g d b nch\nR1 a b 1k\nR2 b a 1k\nD1 a b dm\nD2 b a dm\n");
    let s = |i: usize| vyges_lvs::compare::parallel_sig(&n.devices[i], 0);
    assert_eq!(s(0), s(1));
    assert_eq!(s(2), s(3));
    assert_ne!(s(4), s(5), "a diode keeps its terminal order");
    assert_ne!(vyges_lvs::compare::parallel_sig(&n.devices[0], 150), s(0), "the length key counts");
}

#[test]
fn an_asymmetric_circuit_is_searched_in_one_pass() {
    let n = 50;
    let chain = |p: &str, rev: bool| {
        let mut s = String::from(".subckt chain A Y VDD VSS\n");
        let net = |i: usize| if i == 0 { "A".to_string() } else if i == n { "Y".to_string() } else { format!("{p}{i}") };
        let mut lines: Vec<String> = Vec::new();
        for i in 0..n {
            lines.push(format!("Mp{i} {} {} VDD VDD pfet\n", net(i + 1), net(i)));
            lines.push(format!("Mn{i} {} {} VSS VSS nfet\n", net(i + 1), net(i)));
        }
        if rev {
            lines.reverse();
        }
        for l in lines {
            s.push_str(&l);
        }
        s.push_str(".ends\n");
        nl(&s)
    };
    let a = chain("x", false);
    let b = chain("q", true);
    let any = |_: usize, _: usize| true;
    let c = compare_combined(&a, &b, &any);
    assert!(c.result.matched && c.result.verified);
    assert!(c.trials <= 2 * (2 * n as u64), "one forward pass: {} trials", c.trials);
}
