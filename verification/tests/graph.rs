use vyges_lvs::graph::build_graph;
use vyges_lvs::spice::Netlist;

#[test]
fn incidences_are_listed_in_ascending_order() {
    let a = Netlist::parse("Mp Y A VDD VDD pfet\nMn Y A VSS VSS nfet\n", None).unwrap();
    let b = Netlist::parse("R0 x y\nR1 y x\n", None).unwrap();
    let g = build_graph(&a, &b);
    assert_eq!(g.na_dev, 2);
    for inc in &g.net_incid {
        for w in inc.windows(2) {
            assert!(w[0] < w[1], "{inc:?}");
        }
    }
    // VDD: drain... bulk of Mp
    let vdd = g.net_name.iter().position(|n| n == "VDD").unwrap();
    assert_eq!(g.net_incid[vdd], vec![(0, 2), (0, 3)]);
    let y = g.net_name.iter().position(|n| n == "y").unwrap();
    assert_eq!(g.net_incid[y], vec![(2, 1), (3, 0)]);
}
