use vyges_lvs::compare::{LvsResult, PropDiff};
use vyges_lvs::events::{lvs_events, Severity};

#[test]
fn verified_match_is_one_info_event() {
    let r = LvsResult { matched: true, verified: true, a_devices: 2, a_nets: 4, ..Default::default() };
    let ev = lvs_events(&r);
    assert_eq!(ev.len(), 1);
    assert_eq!(ev[0].severity, Severity::Info);
    assert_eq!(ev[0].code, "LVS-MATCH");
    assert_eq!(ev[0].message, "LVS MATCH (2 devices, 4 nets) [verified]");
    assert!(ev[0].objects.is_empty());
}

#[test]
fn mismatch_lists_differences_before_the_verdict() {
    let r = LvsResult {
        matched: false,
        only_in_a_ports: vec!["X".to_string()],
        only_in_b_ports: vec!["Y".to_string()],
        device_kind_diff: vec![('M', 2, 3)],
        property_diffs: vec![PropDiff {
            kind: 'M',
            a_device: "m1".to_string(),
            b_device: "m2".to_string(),
            param: "w".to_string(),
            a_value: "1u".to_string(),
            b_value: "2u".to_string(),
        }],
        note: Some("parameter mismatch".to_string()),
        ..Default::default()
    };
    let ev = lvs_events(&r);
    assert_eq!(ev.len(), 5);
    assert_eq!(ev[0].code, "LVS-PARAM");
    assert_eq!(ev[0].message, "parameter 'w' differs on m1 vs m2: 1u vs 2u");
    assert_eq!(ev[0].objects, vec!["device:m1".to_string(), "device:m2".to_string()]);
    assert_eq!(ev[1].code, "LVS-DEVCOUNT");
    assert_eq!(ev[1].message, "device-kind 'M' count differs: a=2 b=3");
    assert_eq!(ev[1].objects, vec!["kind:M".to_string()]);
    assert_eq!(ev[2].message, "port only in layout: X");
    assert_eq!(ev[2].objects, vec!["port:X".to_string()]);
    assert_eq!(ev[3].message, "port only in schematic: Y");
    assert_eq!(ev[3].severity, Severity::Warn);
    assert_eq!(ev[4].severity, Severity::Error);
    assert_eq!(ev[4].code, "LVS-MISMATCH");
    assert_eq!(ev[4].message, "LVS MISMATCH — parameter mismatch");
}

#[test]
fn unconfirmed_match_carries_its_note() {
    let r = LvsResult {
        matched: true,
        a_devices: 1,
        a_nets: 3,
        note: Some("unresolved".to_string()),
        ..Default::default()
    };
    let ev = lvs_events(&r);
    assert_eq!(ev.len(), 1);
    assert_eq!(ev[0].message, "LVS MATCH (1 devices, 3 nets) — unresolved");
}
