use vyges_lvs::job::{LayoutSource, LvsJob};

#[test]
fn job_reads_keys_and_values() {
    let t = "# a job\nLayout: lay.spice   # extracted\nschematic: sch.spice\n\ntop: inv\n";
    let j = LvsJob::parse(t, "/w").unwrap();
    assert_eq!(j.layout.as_deref(), Some("lay.spice"));
    assert_eq!(j.schematic, "sch.spice");
    assert_eq!(j.top.as_deref(), Some("inv"));
    assert_eq!(j.layout_gds, None);
    assert_eq!(j.base_dir, "/w");
}

#[test]
fn job_needs_a_layout_side() {
    let e = LvsJob::parse("schematic: s.spice\n", "").unwrap_err();
    assert_eq!(e.0, "need `layout` (SPICE) or `layout_gds` + `rules`");
}

#[test]
fn job_needs_a_schematic() {
    let e = LvsJob::parse("layout: l.spice\n", "").unwrap_err();
    assert_eq!(e.0, "missing key: schematic");
}

#[test]
fn job_rejects_a_line_without_colon() {
    let e = LvsJob::parse("layout l.spice\n", "").unwrap_err();
    assert_eq!(e.0, "expected 'key: value', got \"layout l.spice\"");
}

#[test]
fn job_paths_resolve_against_its_directory() {
    let j = LvsJob::parse("layout: l.spice\nschematic: s.spice\n", "/w/jobs").unwrap();
    assert_eq!(j.resolve("l.spice"), "/w/jobs/l.spice");
    assert_eq!(j.resolve("/abs/x.spice"), "/abs/x.spice");
    let k = LvsJob::parse("layout: l.spice\nschematic: s.spice\n", "").unwrap();
    assert_eq!(k.resolve("l.spice"), "l.spice");
    let m = LvsJob::parse("layout: l.spice\nschematic: s.spice\n", "/w/").unwrap();
    assert_eq!(m.resolve("l.spice"), "/w/l.spice");
}

#[test]
fn job_empty_values_count_as_absent() {
    let j = LvsJob::parse("layout:\nlayout_gds: a.gds\nrules: r.rules\npdk: sky130\nschematic: s\ntop:\n", "").unwrap();
    assert_eq!(j.layout, None);
    assert_eq!(j.layout_gds.as_deref(), Some("a.gds"));
    assert_eq!(j.rules.as_deref(), Some("r.rules"));
    assert_eq!(j.pdk.as_deref(), Some("sky130"));
    assert_eq!(j.top, None);
}

#[test]
fn job_keys_are_lower_cased_and_the_last_one_wins() {
    let j = LvsJob::parse("SCHEMATIC: a\nlayout: l\nSchematic: b\n", "").unwrap();
    assert_eq!(j.schematic, "b");
}

#[test]
fn a_gds_layout_comes_first_and_needs_rules() {
    let j = LvsJob::parse("layout: l.spice\nlayout_gds: chip.gds\nrules: r.txt\nschematic: s.spice\n", "/w").unwrap();
    match j.layout_source() {
        Ok(LayoutSource::Gds { gds, rules }) => {
            assert_eq!(gds, "/w/chip.gds");
            assert_eq!(rules, "/w/r.txt");
        }
        _ => panic!("expected a GDS source"),
    }
    let k = LvsJob::parse("layout_gds: chip.gds\nschematic: s.spice\n", "/w").unwrap();
    assert!(matches!(k.layout_source(), Err(e) if e == "`layout_gds` requires `rules`"));
    let l = LvsJob::parse("layout: l.spice\nschematic: s.spice\n", "").unwrap();
    assert!(matches!(l.layout_source(), Ok(LayoutSource::Spice(p)) if p == "l.spice"));
}

#[test]
fn a_job_is_read_from_lowered_entries() {
    let e = |k: &str, v: &str| (k.to_string(), v.to_string());
    let j = LvsJob::from_entries(&vec![e("layout", "a.sp"), e("schematic", "b.sp"), e("top", ""), e("layout", "c.sp")], "dir").unwrap();
    assert_eq!(j.layout.as_deref(), Some("c.sp"));
    assert_eq!(j.schematic, "b.sp");
    assert_eq!(j.top, None);
    assert_eq!(j.base_dir, "dir");
    let missing = LvsJob::from_entries(&vec![e("layout", "a.sp")], "").unwrap_err();
    assert_eq!(missing.0, "missing key: schematic");
    // keys are looked up as given: an upper-case key is not `layout`
    let upper = LvsJob::from_entries(&vec![e("LAYOUT", "a.sp"), e("schematic", "b.sp")], "").unwrap_err();
    assert_eq!(upper.0, "need `layout` (SPICE) or `layout_gds` + `rules`");
}
