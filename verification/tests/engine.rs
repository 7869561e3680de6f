use vyges_lvs::compare::{LvsResult, Unbalanced};
use vyges_lvs::engine::{coverage, demo, demo_pair, jlist, jstr, render_report, report_json, CoverageKind, DEMO_A, DEMO_B};
use vyges_lvs::spice::Netlist;

#[test]
fn demo_matches() {
    let r = demo();
    assert!(r.matched, "demo should MATCH: {r:?}");
    let txt = render_report(&r);
    assert!(txt.contains("MATCH"));
    assert!(report_json(&r).contains("\"matched\": true"));
    assert!(r.verified);
    assert!(report_json(&r).contains("\"lvs_met\": true"));
}

#[test]
fn lvs_met_is_tri_state() {
    let mut r = LvsResult { matched: true, verified: true, ..Default::default() };
    assert!(report_json(&r).contains("\"lvs_met\": true"), "proven MATCH -> true");
    r.verified = false;
    assert!(report_json(&r).contains("\"lvs_met\": null"), "unconfirmed MATCH must not claim a pass");
    r.matched = false;
    assert!(report_json(&r).contains("\"lvs_met\": false"), "MISMATCH -> false");
}

fn res(ad: usize, bd: usize) -> LvsResult {
    LvsResult { a_devices: ad, b_devices: bd, a_nets: ad, b_nets: bd, ..Default::default() }
}

fn message(r: &LvsResult) -> String {
    match coverage(r).kind {
        CoverageKind::Empty => "empty".into(),
        CoverageKind::Lopsided => "lopsided".into(),
        CoverageKind::Comparable => "ok".into(),
    }
}

#[test]
fn an_empty_side_is_called_out_because_the_failure_mode_is_a_pass() {
    assert_eq!(message(&res(0, 0)), "empty");
    assert_eq!(message(&res(0, 500)), "empty");
    assert_eq!(message(&res(500, 0)), "empty");
}

#[test]
fn a_sharp_asymmetry_is_flagged_without_pre_empting_the_verdict() {
    assert_eq!(message(&res(10, 500)), "lopsided");
    assert_eq!(message(&res(500, 10)), "lopsided");
}

#[test]
fn comparable_counts_are_reported_without_demanding_attention() {
    assert_eq!(message(&res(500, 500)), "ok");
    assert_eq!(message(&res(500, 400)), "ok", "ordinary variation is not a warning");
}

#[test]
fn coverage_messages_state_the_counts() {
    let c = coverage(&res(0, 5));
    assert!(c.warn);
    assert_eq!(
        c.message,
        "one side has no devices (layout 0 / schematic 5) — a comparison against an empty netlist matches trivially and proves nothing"
    );
    let c = coverage(&res(3, 7));
    assert!(c.warn);
    assert_eq!(c.message, "device counts differ sharply: layout 3 / schematic 7 (nets 3 / 7) — read the verdict with that in mind");
    let c = coverage(&res(4, 7));
    assert!(!c.warn);
    assert_eq!(c.message, "compared layout 4 device(s) / 4 net(s) against schematic 7 / 7");
}

#[test]
fn json_strings_escape_backslash_and_quote() {
    assert_eq!(jstr("a\"b\\c"), "\"a\\\"b\\\\c\"");
    assert_eq!(jstr(""), "\"\"");
    assert_eq!(jlist(&vec!["x".to_string(), "y\"".to_string()]), "\"x\", \"y\\\"\"");
    assert_eq!(jlist(&Vec::new()), "");
}

#[test]
fn json_report_lists_classes_with_commas() {
    let u = |w: &str| Unbalanced {
        what: w.to_string(),
        a_count: 1,
        b_count: 0,
        a_examples: vec!["A/x".to_string()],
        b_examples: vec![],
    };
    let r = LvsResult { unbalanced: vec![u("device"), u("net")], iterations: 2, ..Default::default() };
    let j = report_json(&r);
    assert!(j.contains("    {\"what\": \"device\", \"a_count\": 1, \"b_count\": 0, \"a\": [\"A/x\"], \"b\": []},\n"));
    assert!(j.contains("    {\"what\": \"net\", \"a_count\": 1, \"b_count\": 0, \"a\": [\"A/x\"], \"b\": []}\n"));
    assert!(j.starts_with("{\n  \"matched\": false,\n  \"verified\": false,\n  \"lvs_met\": false,\n  \"a_devices\": 0"));
    assert!(j.ends_with("  \"property_diffs\": [\n  ]\n}\n"));
}

#[test]
fn text_report_of_a_mismatch_names_the_classes() {
    let u = Unbalanced {
        what: "net".to_string(),
        a_count: 2,
        b_count: 1,
        a_examples: vec!["A/a".to_string(), "A/b".to_string()],
        b_examples: vec![],
    };
    let r = LvsResult {
        a_devices: 3,
        b_devices: 2,
        only_in_a_ports: vec!["Z".to_string()],
        device_kind_diff: vec![('M', 3, 2)],
        unbalanced: vec![u],
        iterations: 1,
        ..Default::default()
    };
    let t = render_report(&r);
    assert_eq!(
        t,
        "vyges-lvs — MISMATCH ✗\n  devices   A 3  B 2\n  nets      A 0  B 0\n  refine    1 iteration(s)\n  ports     only in layout: [Z]   only in schematic: []\n  device count differs: 'M'  layout 3  schematic 2\n\n  divergence (unmatched refinement classes):\n    net class: layout 2 vs schematic 1\n      layout:    A/a, A/b\n      schematic: —\n"
    );
}

#[test]
fn text_report_of_an_unconfirmed_match_carries_the_note() {
    let r = LvsResult { matched: true, note: Some("why".to_string()), iterations: 1, ..Default::default() };
    let t = render_report(&r);
    assert!(t.ends_with("\n  the two netlists are structurally equivalent.\n  note: why\n"), "{t}");
}

fn same_netlist(x: &Netlist, y: &Netlist) {
    assert_eq!(x.name, y.name);
    assert_eq!(x.ports, y.ports);
    assert_eq!(x.devices.len(), y.devices.len());
    for (d, e) in x.devices.iter().zip(y.devices.iter()) {
        assert_eq!(d.kind, e.kind);
        assert_eq!(d.name, e.name);
        assert_eq!(d.nodes, e.nodes);
        assert_eq!(d.model, e.model);
        assert_eq!(d.params, e.params);
    }
}

#[test]
fn demo_pair_is_what_the_demo_texts_read_as() {
    let (a, b) = demo_pair();
    same_netlist(&a, &Netlist::parse(DEMO_A, None).unwrap());
    same_netlist(&b, &Netlist::parse(DEMO_B, None).unwrap());
}
