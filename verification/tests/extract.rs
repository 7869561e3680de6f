use vyges_lvs::extract::to_spice;
use vyges_lvs::spice::Netlist;

#[test]
fn netlist_renders_back_to_spice() {
    let n = Netlist::parse(".subckt inv A Y VDD VSS\nMp Y A VDD VDD pfet\nMn Y A VSS VSS nfet\n.ends\n", None).unwrap();
    let s = to_spice(&n);
    assert_eq!(s, ".subckt inv A Y VDD VSS\nMp Y A VDD VDD pfet\nMn Y A VSS VSS nfet\n.ends\n");
    let again = Netlist::parse(&s, None).unwrap();
    assert_eq!(again.devices, n.devices);
}

#[test]
fn written_spice_reads_back_as_the_netlist() {
    let n = Netlist::parse(".subckt cell A Y\nR1 A n1 1k\nC1 n1 Y 2p\nD1 Y A dmod\nQ1 A Y n1 npn\n.ends\n", None).unwrap();
    let back = Netlist::parse(&to_spice(&n), None).unwrap();
    assert_eq!(back.name, n.name);
    assert_eq!(back.ports, n.ports);
    assert_eq!(back.devices, n.devices);
    assert_eq!(back.devices[0].params, vec![("value".to_string(), "1k".to_string())]);
    // with no port the `.subckt` line ends in a blank, which reads the same
    let lone = Netlist::parse(".subckt lone\nR1 a b 5\n.ends\n", None).unwrap();
    let back2 = Netlist::parse(&to_spice(&lone), None).unwrap();
    assert_eq!((back2.name, back2.ports, back2.devices), (lone.name, lone.ports, lone.devices));
}
