use vyges_lvs::compare::compare_topology;
use vyges_lvs::spice::{flatten, Netlist};

const NL: &str = "\
.subckt inv A Y VDD VSS
Mp Y A VDD VDD pfet w=1 l=0.15
Mn Y A VSS VSS nfet w=0.5 l=0.15
.ends
";

#[test]
fn parses_subckt_devices() {
    let n = Netlist::parse(NL, None).unwrap();
    assert_eq!(n.name, "inv");
    assert_eq!(n.ports, ["A", "Y", "VDD", "VSS"]);
    assert_eq!(n.devices.len(), 2);
    assert_eq!(n.devices[0].kind, 'M');
    assert_eq!(n.devices[0].nodes, ["Y", "A", "VDD", "VDD"]);
    assert_eq!(n.devices[0].model, "pfet");
}

#[test]
fn continuation_and_comments() {
    let t = "* header\nR1 a b\n+ 1k ; trailing\nC1 b 0 1p\n";
    let n = Netlist::parse(t, None).unwrap();
    assert_eq!(n.devices.len(), 2);
    assert_eq!(n.devices[0].nodes, ["a", "b"]);
    assert_eq!(n.devices[0].model, "1k");
}

const HIER: &str = "\
.subckt inv A Y VDD VSS
Mp Y A VDD VDD pfet
Mn Y A VSS VSS nfet
.ends
.subckt buf A Y VDD VSS
Xi1 A M VDD VSS inv
Xi2 M Y VDD VSS inv
.ends
";

#[test]
fn flattens_to_transistors() {
    let n = Netlist::parse(HIER, Some("buf")).unwrap();
    // two inverters expand to four MOSFETs; no X survives
    assert_eq!(n.devices.len(), 4);
    assert!(n.devices.iter().all(|d| d.kind == 'M'));
    let nets: std::collections::BTreeSet<&str> =
        n.devices.iter().flat_map(|d| d.nodes.iter().map(|s| s.as_str())).collect();
    assert!(nets.contains("M"), "shared internal net M should survive: {nets:?}");
    assert!(nets.contains("VDD") && nets.contains("VSS"));
    let names: std::collections::BTreeSet<&str> =
        n.devices.iter().map(|d| d.name.as_str()).collect();
    assert_eq!(names.len(), 4, "instance device names must be unique: {names:?}");
}

#[test]
fn internal_wiring_difference_is_visible_after_flatten() {
    let bad = "\
.subckt inv A Y VDD VSS
Mp Y A VDD VDD pfet
Mn Y A VSS VSS nfet
.ends
.subckt buf A Y VDD VSS
Xi1 A M VDD VSS inv
Xi2 A Y VDD VSS inv
.ends
";
    let good = Netlist::parse(HIER, Some("buf")).unwrap();
    let broken = Netlist::parse(bad, Some("buf")).unwrap();
    let r = compare_topology(&good, &broken);
    assert!(!r.matched, "miswired internal net must MISMATCH at transistor level");
}

#[test]
fn undefined_subckt_stays_opaque() {
    let t = "\
.subckt top A Y VDD VSS
Xb A Y VDD VSS blackbox
.ends
";
    let n = Netlist::parse(t, Some("top")).unwrap();
    assert_eq!(n.devices.len(), 1);
    assert_eq!(n.devices[0].kind, 'X');
    assert_eq!(n.devices[0].nodes, ["A", "Y", "VDD", "VSS"]);
}

#[test]
fn device_parameters_are_kept_as_written() {
    let n = Netlist::parse(NL, None).unwrap();
    let p = &n.devices[0].params;
    assert_eq!(p.len(), 2);
    assert_eq!((p[0].0.as_str(), p[0].1.as_str()), ("w", "1"));
    assert_eq!((p[1].0.as_str(), p[1].1.as_str()), ("l", "0.15"));
    let r = Netlist::parse("R1 a b 2k\n", None).unwrap();
    assert_eq!(r.devices[0].params.len(), 1);
    assert_eq!((r.devices[0].params[0].0.as_str(), r.devices[0].params[0].1.as_str()), ("value", "2k"));
}

#[test]
fn flat_devices_form_the_top_cell() {
    let n = Netlist::parse("R1 a b 1k\nC1 b 0 1p\n", None).unwrap();
    assert_eq!(n.name, "(top)");
    assert!(n.ports.is_empty());
    assert_eq!(n.devices.len(), 2);
    assert_eq!(n.devices[1].kind, 'C');
}

#[test]
fn missing_top_is_an_error() {
    let e = Netlist::parse(HIER, Some("nand")).unwrap_err();
    assert_eq!(e.0, "subckt \"nand\" not found");
}

#[test]
fn several_cells_without_top_is_an_error() {
    let e = Netlist::parse(HIER, None).unwrap_err();
    assert_eq!(e.0, "2 subckts; pass `top:` to choose (inv, buf)");
}

#[test]
fn top_is_found_without_regard_to_case() {
    let n = Netlist::parse(HIER, Some("BUF")).unwrap();
    assert_eq!(n.devices.len(), 4);
}

#[test]
fn a_nameless_subckt_is_not_readable() {
    assert!(!Netlist::readable(".subckt\n"));
    assert!(Netlist::readable(NL));
}

#[test]
fn short_device_is_an_error() {
    let e = Netlist::parse("M1 a b c\n", None).unwrap_err();
    assert_eq!(e.0, "device M1 needs 4 terminals: \"M1 a b c\"");
}

#[test]
fn a_flat_cell_flattens_to_itself() {
    let n = Netlist::parse("R1 a b 1k\nM1 d g s b nch w=1\n", None).unwrap();
    let f = flatten(&n, &Vec::new(), &vec!["0".to_string()]);
    assert_eq!(f.devices, n.devices);
    assert_eq!(f.name, n.name);
}

#[test]
fn instances_are_expanded_with_path_names() {
    let n = Netlist::parse(HIER, Some("buf")).unwrap();
    let names: Vec<&str> = n.devices.iter().map(|d| d.name.as_str()).collect();
    assert_eq!(names, ["Xi1/Mp", "Xi1/Mn", "Xi2/Mp", "Xi2/Mn"]);
    assert_eq!(n.devices[0].nodes, ["M", "A", "VDD", "VDD"]);
    assert_eq!(n.devices[2].nodes, ["Y", "M", "VDD", "VDD"]);
}

#[test]
fn control_characters_are_escaped_in_messages() {
    let e = Netlist::parse("M1 a\u{1}b\n", None).unwrap_err();
    assert_eq!(e.0, format!("device M1 needs 4 terminals: {:?}", "M1 a\u{1}b"));
    let e2 = Netlist::parse("M1 a\u{7f}\n", None).unwrap_err();
    assert_eq!(e2.0, format!("device M1 needs 4 terminals: {:?}", "M1 a\u{7f}"));
    // other characters `Debug` does not print as they are, and a quote it keeps
    let e3 = Netlist::parse("M1 a\u{200b}b c'd\n", None).unwrap_err();
    assert_eq!(e3.0, "device M1 needs 4 terminals: \"M1 a\\u{200b}b c'd\"");
}
