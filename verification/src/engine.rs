//! The verdict as text and as JSON, the coverage statement that goes with it,
//! and the built-in demonstration pair.
use vstd::prelude::*;
use crate::compare::{
    compare_topology, comparison_of, fits, lemma_combine_no_parallel, sigs, topo_merged, LvsResult, PropDiff, Unbalanced,
};
use crate::invariance::{anchored, same_circuit};
use crate::iso::{dev_match, is_iso, pair_ok, tree_bound};
use crate::spice::{devs, join, pairs, strs, Device, DeviceV, Netlist, NetlistV};
use crate::text::{chars_of, dec, push_all, push_dec, push_str, string_of};

verus! {

/// The items of `v` separated by `sep`, appended to `out`.
pub fn push_join_strs(out: &mut Vec<char>, v: &Vec<String>, sep: &str)
    ensures
        final(out)@ == old(out)@ + join(strs(v@), sep@),
{
    let ghost o = out@;
    let ghost sv = strs(v@);
    let mut j: Vec<char> = Vec::new();
    let mut i: usize = 0;
    while i < v.len()
        invariant
            i <= v.len(),
            sv == strs(v@),
            j@ == join(sv.take(i as int), sep@),
        decreases v.len() - i,
    {
        proof {
            assert(sv.take(i + 1).drop_last() =~= sv.take(i as int));
            assert(sv.take(i + 1).last() == v@[i as int]@);
        }
        if i > 0 {
            push_str(&mut j, sep);
        }
        push_all(&mut j, &chars_of(v[i].as_str()));
        proof {
            if i == 0 {
                assert(j@ =~= sv.take(1)[0]);
            }
        }
        i += 1;
    }
    proof {
        assert(sv.take(v.len() as int) =~= sv);
    }
    push_all(out, &j);
}

// ---------------------------------------------------------------- text report

/// The first twelve elements of `s` (all of them if it has fewer).
pub open spec fn first12<T>(s: Seq<T>) -> Seq<T> {
    if s.len() <= 12 {
        s
    } else {
        s.take(12)
    }
}

pub open spec fn bool_text(b: bool) -> Seq<char> {
    if b {
        "true"@
    } else {
        "false"@
    }
}

pub open spec fn verdict_line(r: LvsResult) -> Seq<char> {
    "vyges-lvs — "@ + (if r.matched {
        "MATCH ✓"@
    } else {
        "MISMATCH ✗"@
    }) + "\n"@
}

/// A matched result is headed MATCH and an unmatched one MISMATCH, with
/// no regard to whether an explicit correspondence confirmed it.
pub proof fn lemma_report_heading(r: LvsResult)
    ensures
        r.matched ==> report_spec(r).take("vyges-lvs — MATCH ✓\n"@.len() as int) == "vyges-lvs — MATCH ✓\n"@,
        !r.matched ==> report_spec(r).take("vyges-lvs — MISMATCH ✗\n"@.len() as int) == "vyges-lvs — MISMATCH ✗\n"@,
{
    reveal_strlit("vyges-lvs — ");
    reveal_strlit("MATCH ✓");
    reveal_strlit("MISMATCH ✗");
    reveal_strlit("\n");
    reveal_strlit("vyges-lvs — MATCH ✓\n");
    reveal_strlit("vyges-lvs — MISMATCH ✗\n");
    let rest = count_lines(r) + ports_line(r) + kind_lines(r.device_kind_diff@) + tail_text(r);
    assert(report_spec(r) =~= verdict_line(r) + rest);
    if r.matched {
        assert(verdict_line(r) =~= "vyges-lvs — MATCH ✓\n"@);
        assert((verdict_line(r) + rest).take(verdict_line(r).len() as int) =~= verdict_line(r));
    } else {
        assert(verdict_line(r) =~= "vyges-lvs — MISMATCH ✗\n"@);
        assert((verdict_line(r) + rest).take(verdict_line(r).len() as int) =~= verdict_line(r));
    }
}

pub open spec fn count_lines(r: LvsResult) -> Seq<char> {
    "  devices   A "@ + dec(r.a_devices as nat) + "  B "@ + dec(r.b_devices as nat) + "\n  nets      A "@ + dec(
        r.a_nets as nat,
    ) + "  B "@ + dec(r.b_nets as nat) + "\n  refine    "@ + dec(r.iterations as nat) + " iteration(s)\n"@
}

pub open spec fn ports_line(r: LvsResult) -> Seq<char> {
    if r.only_in_a_ports.len() > 0 || r.only_in_b_ports.len() > 0 {
        "  ports     only in layout: ["@ + join(strs(r.only_in_a_ports@), ", "@) + "]   only in schematic: ["@
            + join(strs(r.only_in_b_ports@), ", "@) + "]\n"@
    } else {
        Seq::empty()
    }
}

pub open spec fn kind_lines(v: Seq<(char, usize, usize)>) -> Seq<char>
    decreases v.len(),
{
    if v.len() == 0 {
        Seq::empty()
    } else {
        kind_lines(v.drop_last()) + "  device count differs: '"@ + seq![v.last().0] + "'  layout "@ + dec(
            v.last().1 as nat,
        ) + "  schematic "@ + dec(v.last().2 as nat) + "\n"@
    }
}

pub open spec fn prop_line(d: PropDiff) -> Seq<char> {
    "    "@ + seq![d.kind] + " "@ + d.a_device@ + ": "@ + d.param@ + " layout "@ + d.a_value@ + " vs schematic "@
        + d.b_value@ + "\n"@
}

pub open spec fn prop_lines(v: Seq<PropDiff>) -> Seq<char>
    decreases v.len(),
{
    if v.len() == 0 {
        Seq::empty()
    } else {
        prop_lines(v.drop_last()) + prop_line(v.last())
    }
}

pub open spec fn examples_text(ex: Seq<Seq<char>>) -> Seq<char> {
    if ex.len() == 0 {
        "—"@
    } else {
        join(ex, ", "@)
    }
}

pub open spec fn class_line(u: Unbalanced) -> Seq<char> {
    "    "@ + u.what@ + " class: layout "@ + dec(u.a_count as nat) + " vs schematic "@ + dec(u.b_count as nat)
        + "\n      layout:    "@ + examples_text(strs(u.a_examples@)) + "\n      schematic: "@ + examples_text(
        strs(u.b_examples@),
    ) + "\n"@
}

pub open spec fn class_lines(v: Seq<Unbalanced>) -> Seq<char>
    decreases v.len(),
{
    if v.len() == 0 {
        Seq::empty()
    } else {
        class_lines(v.drop_last()) + class_line(v.last())
    }
}

pub open spec fn tail_text(r: LvsResult) -> Seq<char> {
    if r.matched {
        if r.verified {
            "\n  the two netlists are structurally equivalent (verified by explicit isomorphism).\n"@
        } else {
            "\n  the two netlists are structurally equivalent.\n"@ + match r.note {
                Some(n) => "  note: "@ + n@ + "\n"@,
                None => Seq::empty(),
            }
        }
    } else if r.property_diffs.len() > 0 {
        "\n  device parameter mismatch (topology matches):\n"@ + prop_lines(first12(r.property_diffs@)) + (if r.property_diffs.len()
            > 12 {
            "    … "@ + dec((r.property_diffs.len() - 12) as nat) + " more\n"@
        } else {
            Seq::empty()
        })
    } else if r.note is Some {
        "\n  "@ + r.note->0@ + "\n"@
    } else {
        "\n  divergence (unmatched refinement classes):\n"@ + class_lines(first12(r.unbalanced@)) + (if r.unbalanced.len()
            > 12 {
            "    … "@ + dec((r.unbalanced.len() - 12) as nat) + " more class(es)\n"@
        } else {
            Seq::empty()
        })
    }
}

/// The closing words of the text report: a confirmed match ends with the
/// sentence that the netlists are structurally equivalent, verified by an
/// explicit isomorphism; an unconfirmed match without a note ends with the
/// plain statement of equivalence.
pub proof fn lemma_report_closing(r: LvsResult)
    ensures
        r.matched && r.verified ==> report_spec(r).skip(
            report_spec(r).len() - "\n  the two netlists are structurally equivalent (verified by explicit isomorphism).\n"@.len(),
        ) == "\n  the two netlists are structurally equivalent (verified by explicit isomorphism).\n"@,
        r.matched && !r.verified && r.note is None ==> report_spec(r).skip(
            report_spec(r).len() - "\n  the two netlists are structurally equivalent.\n"@.len(),
        ) == "\n  the two netlists are structurally equivalent.\n"@,
{
    let head = verdict_line(r) + count_lines(r) + ports_line(r) + kind_lines(r.device_kind_diff@);
    assert(report_spec(r) == head + tail_text(r));
    if r.matched && r.verified {
        let t = "\n  the two netlists are structurally equivalent (verified by explicit isomorphism).\n"@;
        assert(tail_text(r) == t);
        assert((head + t).skip(head.len() as int) =~= t);
    }
    if r.matched && !r.verified && r.note is None {
        let t = "\n  the two netlists are structurally equivalent.\n"@;
        assert(tail_text(r) =~= t);
        assert((head + t).skip(head.len() as int) =~= t);
    }
}

/// The text report of a verdict.
pub open spec fn report_spec(r: LvsResult) -> Seq<char> {
    verdict_line(r) + count_lines(r) + ports_line(r) + kind_lines(r.device_kind_diff@) + tail_text(r)
}

fn push_kind_lines(out: &mut Vec<char>, v: &Vec<(char, usize, usize)>)
    ensures
        final(out)@ == old(out)@ + kind_lines(v@),
{
    let ghost o = out@;
    let mut i: usize = 0;
    while i < v.len()
        invariant
            i <= v.len(),
            out@ == o + kind_lines(v@.take(i as int)),
        decreases v.len() - i,
    {
        let (k, a, b) = v[i];
        push_str(out, "  device count differs: '");
        out.push(k);
        push_str(out, "'  layout ");
        push_dec(out, a);
        push_str(out, "  schematic ");
        push_dec(out, b);
        push_str(out, "\n");
        proof {
            let t = v@.take(i + 1);
            assert(t.drop_last() =~= v@.take(i as int));
            assert(t.last() == (k, a, b));
            assert(out@ =~= o + kind_lines(t));
        }
        i += 1;
    }
    proof {
        assert(v@.take(i as int) =~= v@);
    }
}

fn push_prop_line(out: &mut Vec<char>, d: &PropDiff)
    ensures
        final(out)@ == old(out)@ + prop_line(*d),
{
    let ghost o = out@;
    push_str(out, "    ");
    out.push(d.kind);
    push_str(out, " ");
    push_str(out, d.a_device.as_str());
    push_str(out, ": ");
    push_str(out, d.param.as_str());
    push_str(out, " layout ");
    push_str(out, d.a_value.as_str());
    push_str(out, " vs schematic ");
    push_str(out, d.b_value.as_str());
    push_str(out, "\n");
    proof {
        assert(out@ =~= o + prop_line(*d));
    }
}

fn push_prop_lines(out: &mut Vec<char>, v: &Vec<PropDiff>, n: usize)
    requires
        n <= v.len(),
    ensures
        final(out)@ == old(out)@ + prop_lines(v@.take(n as int)),
{
    let ghost o = out@;
    let mut i: usize = 0;
    while i < n
        invariant
            i <= n <= v.len(),
            out@ == o + prop_lines(v@.take(i as int)),
        decreases n - i,
    {
        let d = &v[i];
        push_prop_line(out, d);
        proof {
            let t = v@.take(i + 1);
            assert(t.drop_last() =~= v@.take(i as int));
            assert(t.last() == *d);
            assert(out@ =~= o + prop_lines(t));
        }
        i += 1;
    }
}

fn push_examples(out: &mut Vec<char>, ex: &Vec<String>)
    ensures
        final(out)@ == old(out)@ + examples_text(strs(ex@)),
{
    if ex.len() == 0 {
        push_str(out, "—");
    } else {
        push_join_strs(out, ex, ", ");
    }
}

fn push_class_line(out: &mut Vec<char>, u: &Unbalanced)
    ensures
        final(out)@ == old(out)@ + class_line(*u),
{
    let ghost o = out@;
    push_str(out, "    ");
    push_str(out, u.what.as_str());
    push_str(out, " class: layout ");
    push_dec(out, u.a_count);
    push_str(out, " vs schematic ");
    push_dec(out, u.b_count);
    push_str(out, "\n      layout:    ");
    push_examples(out, &u.a_examples);
    push_str(out, "\n      schematic: ");
    push_examples(out, &u.b_examples);
    push_str(out, "\n");
    proof {
        assert(out@ =~= o + class_line(*u));
    }
}

fn push_class_lines(out: &mut Vec<char>, v: &Vec<Unbalanced>, n: usize)
    requires
        n <= v.len(),
    ensures
        final(out)@ == old(out)@ + class_lines(v@.take(n as int)),
{
    let ghost o = out@;
    let mut i: usize = 0;
    while i < n
        invariant
            i <= n <= v.len(),
            out@ == o + class_lines(v@.take(i as int)),
        decreases n - i,
    {
        let u = &v[i];
        push_class_line(out, u);
        proof {
            let t = v@.take(i + 1);
            assert(t.drop_last() =~= v@.take(i as int));
            assert(t.last() == *u);
            assert(out@ =~= o + class_lines(t));
        }
        i += 1;
    }
}

fn push_head(v: &mut Vec<char>, r: &LvsResult)
    ensures
        final(v)@ == old(v)@ + verdict_line(*r) + count_lines(*r),
{
    let ghost v0 = v@;
    push_str(v, "vyges-lvs — ");
    if r.matched {
        push_str(v, "MATCH ✓");
    } else {
        push_str(v, "MISMATCH ✗");
    }
    push_str(v, "\n");
    let ghost v1 = v@;
    proof {
        assert(v1 =~= v0 + verdict_line(*r));
    }
    push_str(v, "  devices   A ");
    push_dec(v, r.a_devices);
    push_str(v, "  B ");
    push_dec(v, r.b_devices);
    push_str(v, "\n  nets      A ");
    push_dec(v, r.a_nets);
    push_str(v, "  B ");
    push_dec(v, r.b_nets);
    push_str(v, "\n  refine    ");
    push_dec(v, r.iterations);
    push_str(v, " iteration(s)\n");
    proof {
        assert(v@ =~= v1 + count_lines(*r));
    }
}

fn push_ports(v: &mut Vec<char>, r: &LvsResult)
    ensures
        final(v)@ == old(v)@ + ports_line(*r),
{
    let ghost v0 = v@;
    if r.only_in_a_ports.len() > 0 || r.only_in_b_ports.len() > 0 {
        push_str(v, "  ports     only in layout: [");
        push_join_strs(v, &r.only_in_a_ports, ", ");
        push_str(v, "]   only in schematic: [");
        push_join_strs(v, &r.only_in_b_ports, ", ");
        push_str(v, "]\n");
    }
    proof {
        assert(v@ =~= v0 + ports_line(*r));
    }
}

fn push_matched_tail(v: &mut Vec<char>, r: &LvsResult)
    requires
        r.matched,
    ensures
        final(v)@ == old(v)@ + tail_text(*r),
{
    let ghost v0 = v@;
    if r.verified {
        push_str(v, "\n  the two netlists are structurally equivalent (verified by explicit isomorphism).\n");
    } else {
        push_str(v, "\n  the two netlists are structurally equivalent.\n");
        match &r.note {
            Some(n) => {
                push_str(v, "  note: ");
                push_str(v, n.as_str());
                push_str(v, "\n");
            },
            None => {},
        }
    }
    proof {
        assert(v@ =~= v0 + tail_text(*r));
    }
}

fn push_props_tail(v: &mut Vec<char>, r: &LvsResult)
    requires
        !r.matched,
        r.property_diffs.len() > 0,
    ensures
        final(v)@ == old(v)@ + tail_text(*r),
{
    let ghost v0 = v@;
    push_str(v, "\n  device parameter mismatch (topology matches):\n");
    let n = if r.property_diffs.len() <= 12 { r.property_diffs.len() } else { 12 };
    push_prop_lines(v, &r.property_diffs, n);
    proof {
        assert(r.property_diffs@.take(n as int) =~= first12(r.property_diffs@));
    }
    let ghost v1 = v@;
    if r.property_diffs.len() > 12 {
        push_str(v, "    … ");
        push_dec(v, r.property_diffs.len() - 12);
        push_str(v, " more\n");
    }
    proof {
        assert(v@ =~= v0 + tail_text(*r));
    }
}

fn push_other_tail(v: &mut Vec<char>, r: &LvsResult)
    requires
        !r.matched,
        r.property_diffs.len() == 0,
    ensures
        final(v)@ == old(v)@ + tail_text(*r),
{
    let ghost v0 = v@;
    match &r.note {
        Some(n) => {
            push_str(v, "\n  ");
            push_str(v, n.as_str());
            push_str(v, "\n");
        },
        None => {
            push_str(v, "\n  divergence (unmatched refinement classes):\n");
            let n = if r.unbalanced.len() <= 12 { r.unbalanced.len() } else { 12 };
            push_class_lines(v, &r.unbalanced, n);
            proof {
                assert(r.unbalanced@.take(n as int) =~= first12(r.unbalanced@));
            }
            if r.unbalanced.len() > 12 {
                push_str(v, "    … ");
                push_dec(v, r.unbalanced.len() - 12);
                push_str(v, " more class(es)\n");
            }
        },
    }
    proof {
        assert(v@ =~= v0 + tail_text(*r));
    }
}

/// The verdict as text: the verdict, the counts, the ports found on one side
/// only and the device kinds whose counts differ, then either the
/// equivalence statement, the parameter mismatches, the note, or the first
/// twelve unbalanced classes.
pub fn render_report(r: &LvsResult) -> (s: String)
    ensures
        s@ == report_spec(*r),
{
    let mut v: Vec<char> = Vec::new();
    push_head(&mut v, r);
    push_ports(&mut v, r);
    push_kind_lines(&mut v, &r.device_kind_diff);
    if r.matched {
        push_matched_tail(&mut v, r);
    } else if r.property_diffs.len() > 0 {
        push_props_tail(&mut v, r);
    } else {
        push_other_tail(&mut v, r);
    }
    proof {
        assert(v@ =~= report_spec(*r));
    }
    string_of(&v)
}

// ---------------------------------------------------------------- JSON

/// A character as it stands inside a JSON string here: `\` and `"` escaped.
pub open spec fn jesc_char(c: char) -> Seq<char> {
    if c == '\\' {
        seq!['\\', '\\']
    } else if c == '"' {
        seq!['\\', '"']
    } else {
        seq![c]
    }
}

pub open spec fn jesc(s: Seq<char>) -> Seq<char>
    decreases s.len(),
{
    if s.len() == 0 {
        Seq::empty()
    } else {
        jesc_char(s[0]) + jesc(s.drop_first())
    }
}

/// `s` as a quoted JSON string.
pub open spec fn jstr_spec(s: Seq<char>) -> Seq<char> {
    seq!['"'] + jesc(s) + seq!['"']
}

/// The JSON strings of `v`, separated by `, `.
pub open spec fn jlist_spec(v: Seq<Seq<char>>) -> Seq<char> {
    join(v.map_values(|s: Seq<char>| jstr_spec(s)), ", "@)
}

/// Reads back the inside of a JSON string: `\x` stands for `x`.
pub open spec fn junesc(t: Seq<char>) -> Seq<char>
    decreases t.len(),
{
    if t.len() == 0 {
        Seq::empty()
    } else if t[0] == '\\' && t.len() >= 2 {
        seq![t[1]] + junesc(t.skip(2))
    } else {
        seq![t[0]] + junesc(t.drop_first())
    }
}

proof fn lemma_jesc_append(a: Seq<char>, b: Seq<char>)
    ensures
        jesc(a + b) == jesc(a) + jesc(b),
    decreases a.len(),
{
    if a.len() == 0 {
        assert(a + b =~= b);
    } else {
        lemma_jesc_append(a.drop_first(), b);
        assert((a + b).drop_first() =~= a.drop_first() + b);
        assert((a + b)[0] == a[0]);
    }
}

/// Reading back an escaped string gives the string: escaping loses nothing.
pub proof fn lemma_jstr_round_trip(s: Seq<char>)
    ensures
        junesc(jesc(s)) == s,
    decreases s.len(),
{
    if s.len() > 0 {
        lemma_jstr_round_trip(s.drop_first());
        let c = s[0];
        let t = jesc(s);
        assert(t == jesc_char(c) + jesc(s.drop_first()));
        if c == '\\' || c == '"' {
            assert(t.skip(2) =~= jesc(s.drop_first()));
        } else {
            assert(t.drop_first() =~= jesc(s.drop_first()));
        }
        assert(s =~= seq![c] + s.drop_first());
    }
}

/// An escaped string holds no `"` that is not escaped: every `"` in it
/// follows an escaping `\`.
pub proof fn lemma_jesc_quotes(s: Seq<char>)
    ensures
        forall|i: int| 0 <= i < jesc(s).len() && #[trigger] jesc(s)[i] == '"' ==> i > 0 && jesc(s)[i - 1] == '\\',
    decreases s.len(),
{
    if s.len() > 0 {
        lemma_jesc_quotes(s.drop_first());
        let h = jesc_char(s[0]);
        let t = jesc(s.drop_first());
        assert(jesc(s) == h + t);
        assert forall|i: int| 0 <= i < jesc(s).len() && #[trigger] jesc(s)[i] == '"' implies i > 0 && jesc(s)[i - 1] == '\\' by {
            if i >= h.len() {
                assert(jesc(s)[i] == t[i - h.len()]);
                if i - h.len() > 0 {
                    assert(jesc(s)[i - 1] == t[i - h.len() - 1]);
                }
            }
        }
    }
}

/// `s` as a quoted JSON string, with `\` and `"` escaped.
pub fn jstr(s: &str) -> (r: String)
    ensures
        r@ == jstr_spec(s@),
{
    let v = chars_of(s);
    let mut out: Vec<char> = Vec::new();
    out.push('"');
    let mut i: usize = 0;
    proof {
        assert(v@.take(0) =~= Seq::<char>::empty());
        assert(out@ =~= seq!['"'] + jesc(v@.take(0)));
    }
    while i < v.len()
        invariant
            i <= v.len(),
            out@ == seq!['"'] + jesc(v@.take(i as int)),
        decreases v.len() - i,
    {
        let c = v[i];
        if c == '\\' {
            out.push('\\');
            out.push('\\');
        } else if c == '"' {
            out.push('\\');
            out.push('"');
        } else {
            out.push(c);
        }
        proof {
            lemma_jesc_append(v@.take(i as int), seq![c]);
            assert(v@.take(i + 1) =~= v@.take(i as int) + seq![c]);
            assert(jesc(seq![c]) =~= jesc_char(c)) by {
                assert(seq![c].drop_first() =~= Seq::<char>::empty());
                assert(jesc(Seq::<char>::empty()) =~= Seq::<char>::empty());
                assert(seq![c][0] == c);
                assert(jesc(seq![c]) == jesc_char(seq![c][0]) + jesc(seq![c].drop_first()));
            }
        }
        i += 1;
    }
    out.push('"');
    proof {
        assert(v@.take(i as int) =~= v@);
    }
    string_of(&out)
}

/// The JSON strings of `items`, separated by `, `.
pub fn jlist(items: &Vec<String>) -> (r: String)
    ensures
        r@ == jlist_spec(strs(items@)),
{
    let mut q: Vec<String> = Vec::new();
    let mut i: usize = 0;
    while i < items.len()
        invariant
            i <= items.len(),
            strs(q@) == strs(items@).take(i as int).map_values(|s: Seq<char>| jstr_spec(s)),
        decreases items.len() - i,
    {
        let j = jstr(items[i].as_str());
        let ghost q0 = q@;
        q.push(j);
        proof {
            assert(strs(q@) =~= strs(q0).push(j@));
            assert(strs(items@).take(i + 1).map_values(|s: Seq<char>| jstr_spec(s)) =~= strs(items@).take(
                i as int,
            ).map_values(|s: Seq<char>| jstr_spec(s)).push(jstr_spec(items@[i as int]@)));
        }
        i += 1;
    }
    proof {
        assert(strs(items@).take(i as int) =~= strs(items@));
    }
    let mut v: Vec<char> = Vec::new();
    push_join_strs(&mut v, &q, ", ");
    proof {
        assert(v@ =~= jlist_spec(strs(items@)));
    }
    string_of(&v)
}

/// The single LVS verdict, tri-state: `true` for a MATCH confirmed by an
/// explicit bijection, `null` for a MATCH left unconfirmed, `false` for a
/// MISMATCH.
pub open spec fn lvs_met_text(r: LvsResult) -> Seq<char> {
    if !r.matched {
        "false"@
    } else if r.verified {
        "true"@
    } else {
        "null"@
    }
}

pub open spec fn note_json(n: Option<String>) -> Seq<char> {
    match n {
        Some(t) => "  \"note\": "@ + jstr_spec(t@) + ",\n"@,
        None => Seq::empty(),
    }
}

pub open spec fn comma(k: nat, n: nat) -> Seq<char> {
    if k < n {
        ","@
    } else {
        Seq::empty()
    }
}

pub open spec fn unb_entry(u: Unbalanced) -> Seq<char> {
    "    {\"what\": "@ + jstr_spec(u.what@) + ", \"a_count\": "@ + dec(u.a_count as nat) + ", \"b_count\": "@ + dec(
        u.b_count as nat,
    ) + ", \"a\": ["@ + jlist_spec(strs(u.a_examples@)) + "], \"b\": ["@ + jlist_spec(strs(u.b_examples@)) + "]}"@
}

/// The lines of the first `v.len()` of `n` entries (a comma after each but
/// the last of the `n`).
pub open spec fn unb_lines(v: Seq<Unbalanced>, n: nat) -> Seq<char>
    decreases v.len(),
{
    if v.len() == 0 {
        Seq::empty()
    } else {
        unb_lines(v.drop_last(), n) + unb_entry(v.last()) + comma(v.len(), n) + "\n"@
    }
}

pub open spec fn pd_entry(d: PropDiff) -> Seq<char> {
    "    {\"kind\": "@ + jstr_spec(seq![d.kind]) + ", \"a_device\": "@ + jstr_spec(d.a_device@) + ", \"b_device\": "@
        + jstr_spec(d.b_device@) + ", \"param\": "@ + jstr_spec(d.param@) + ", \"a_value\": "@ + d.a_value@
        + ", \"b_value\": "@ + d.b_value@ + "}"@
}

pub open spec fn pd_lines(v: Seq<PropDiff>, n: nat) -> Seq<char>
    decreases v.len(),
{
    if v.len() == 0 {
        Seq::empty()
    } else {
        pd_lines(v.drop_last(), n) + pd_entry(v.last()) + comma(v.len(), n) + "\n"@
    }
}

pub open spec fn json_head(r: LvsResult) -> Seq<char> {
    "{\n"@ + "  \"matched\": "@ + bool_text(r.matched) + ",\n"@ + "  \"verified\": "@ + bool_text(r.verified) + ",\n"@
        + "  \"lvs_met\": "@ + lvs_met_text(r) + ",\n"@ + note_json(r.note)
}

pub open spec fn json_counts(r: LvsResult) -> Seq<char> {
    "  \"a_devices\": "@ + dec(r.a_devices as nat) + ", \"b_devices\": "@ + dec(r.b_devices as nat) + ",\n"@
        + "  \"a_nets\": "@ + dec(r.a_nets as nat) + ", \"b_nets\": "@ + dec(r.b_nets as nat) + ",\n"@
        + "  \"iterations\": "@ + dec(r.iterations as nat) + ",\n"@ + "  \"only_in_a_ports\": ["@ + jlist_spec(
        strs(r.only_in_a_ports@),
    ) + "],\n"@ + "  \"only_in_b_ports\": ["@ + jlist_spec(strs(r.only_in_b_ports@)) + "],\n"@
}

/// The JSON report opens with the verdict's three flags, in this order:
/// `matched` and `verified` as `true`/`false`, then the tri-state `lvs_met`:
/// `true` for a confirmed match, `null` for an unconfirmed one, `false` for a
/// mismatch.
pub proof fn lemma_json_flags(r: LvsResult)
    ensures
        ({
            let h = "{\n"@ + "  \"matched\": "@ + (if r.matched { "true"@ } else { "false"@ }) + ",\n"@
                + "  \"verified\": "@ + (if r.verified { "true"@ } else { "false"@ }) + ",\n"@ + "  \"lvs_met\": "@
                + (if r.matched && r.verified { "true"@ } else if r.matched { "null"@ } else { "false"@ }) + ",\n"@;
            json_spec(r).take(h.len() as int) == h
        }),
{
    let h = "{\n"@ + "  \"matched\": "@ + (if r.matched { "true"@ } else { "false"@ }) + ",\n"@
                + "  \"verified\": "@ + (if r.verified { "true"@ } else { "false"@ }) + ",\n"@ + "  \"lvs_met\": "@
                + (if r.matched && r.verified { "true"@ } else if r.matched { "null"@ } else { "false"@ }) + ",\n"@;
    let k = h.len() as int;
    let x0 = json_head(r);
    assert(x0 == h + note_json(r.note));
    lemma_take_of_add(h, note_json(r.note), k);
    assert(h.take(k) =~= h);
    let x1 = x0 + json_counts(r);
    lemma_take_of_add(x0, json_counts(r), k);
    let x2 = x1 + "  \"unbalanced\": [\n"@;
    lemma_take_of_add(x1, "  \"unbalanced\": [\n"@, k);
    let x3 = x2 + unb_lines(r.unbalanced@, r.unbalanced.len() as nat);
    lemma_take_of_add(x2, unb_lines(r.unbalanced@, r.unbalanced.len() as nat), k);
    let x4 = x3 + "  ],\n"@;
    lemma_take_of_add(x3, "  ],\n"@, k);
    let x5 = x4 + "  \"property_diffs\": [\n"@;
    lemma_take_of_add(x4, "  \"property_diffs\": [\n"@, k);
    let x6 = x5 + pd_lines(r.property_diffs@, r.property_diffs.len() as nat);
    lemma_take_of_add(x5, pd_lines(r.property_diffs@, r.property_diffs.len() as nat), k);
    let x7 = x6 + "  ]\n}\n"@;
    lemma_take_of_add(x6, "  ]\n}\n"@, k);
    assert(json_spec(r) == x7);
}

proof fn lemma_take_of_add(p: Seq<char>, q: Seq<char>, k: int)
    requires
        0 <= k <= p.len(),
    ensures
        (p + q).take(k) == p.take(k),
{
    assert((p + q).take(k) =~= p.take(k));
}

/// The JSON report of a verdict.
pub open spec fn json_spec(r: LvsResult) -> Seq<char> {
    json_head(r) + json_counts(r) + "  \"unbalanced\": [\n"@ + unb_lines(r.unbalanced@, r.unbalanced.len() as nat)
        + "  ],\n"@ + "  \"property_diffs\": [\n"@ + pd_lines(r.property_diffs@, r.property_diffs.len() as nat)
        + "  ]\n}\n"@
}

fn push_bool(v: &mut Vec<char>, b: bool)
    ensures
        final(v)@ == old(v)@ + bool_text(b),
{
    if b {
        push_str(v, "true");
    } else {
        push_str(v, "false");
    }
}

fn push_lvs_met(v: &mut Vec<char>, r: &LvsResult)
    ensures
        final(v)@ == old(v)@ + lvs_met_text(*r),
{
    if !r.matched {
        push_str(v, "false");
    } else if r.verified {
        push_str(v, "true");
    } else {
        push_str(v, "null");
    }
}

fn push_note_json(v: &mut Vec<char>, n: &Option<String>)
    ensures
        final(v)@ == old(v)@ + note_json(*n),
{
    let ghost v0 = v@;
    match n {
        Some(t) => {
            push_str(v, "  \"note\": ");
            let j = jstr(t.as_str());
            push_str(v, j.as_str());
            push_str(v, ",\n");
        },
        None => {},
    }
    proof {
        assert(v@ =~= v0 + note_json(*n));
    }
}

fn push_json_head(v: &mut Vec<char>, r: &LvsResult)
    ensures
        final(v)@ == old(v)@ + json_head(*r),
{
    let ghost v0 = v@;
    push_str(v, "{\n");
    push_str(v, "  \"matched\": ");
    push_bool(v, r.matched);
    push_str(v, ",\n");
    push_str(v, "  \"verified\": ");
    push_bool(v, r.verified);
    push_str(v, ",\n");
    push_str(v, "  \"lvs_met\": ");
    push_lvs_met(v, r);
    push_str(v, ",\n");
    push_note_json(v, &r.note);
    proof {
        assert(v@ =~= v0 + json_head(*r));
    }
}

fn push_json_counts(v: &mut Vec<char>, r: &LvsResult)
    ensures
        final(v)@ == old(v)@ + json_counts(*r),
{
    let ghost v0 = v@;
    push_str(v, "  \"a_devices\": ");
    push_dec(v, r.a_devices);
    push_str(v, ", \"b_devices\": ");
    push_dec(v, r.b_devices);
    push_str(v, ",\n");
    push_str(v, "  \"a_nets\": ");
    push_dec(v, r.a_nets);
    push_str(v, ", \"b_nets\": ");
    push_dec(v, r.b_nets);
    push_str(v, ",\n");
    push_str(v, "  \"iterations\": ");
    push_dec(v, r.iterations);
    push_str(v, ",\n");
    let ghost v1 = v@;
    push_str(v, "  \"only_in_a_ports\": [");
    let ja = jlist(&r.only_in_a_ports);
    push_str(v, ja.as_str());
    push_str(v, "],\n");
    push_str(v, "  \"only_in_b_ports\": [");
    let jb = jlist(&r.only_in_b_ports);
    push_str(v, jb.as_str());
    push_str(v, "],\n");
    proof {
        assert(v@ =~= v0 + json_counts(*r));
    }
}

fn push_unb_lines(v: &mut Vec<char>, u: &Vec<Unbalanced>)
    ensures
        final(v)@ == old(v)@ + unb_lines(u@, u.len() as nat),
{
    let ghost v0 = v@;
    let mut k: usize = 0;
    while k < u.len()
        invariant
            k <= u.len(),
            v@ == v0 + unb_lines(u@.take(k as int), u.len() as nat),
        decreases u.len() - k,
    {
        let e = &u[k];
        let ghost w0 = v@;
        push_str(v, "    {\"what\": ");
        push_str(v, jstr(e.what.as_str()).as_str());
        push_str(v, ", \"a_count\": ");
        push_dec(v, e.a_count);
        push_str(v, ", \"b_count\": ");
        push_dec(v, e.b_count);
        push_str(v, ", \"a\": [");
        push_str(v, jlist(&e.a_examples).as_str());
        push_str(v, "], \"b\": [");
        push_str(v, jlist(&e.b_examples).as_str());
        push_str(v, "]}");
        proof {
            assert(v@ =~= w0 + unb_entry(*e));
        }
        let ghost w1 = v@;
        if k + 1 < u.len() {
            push_str(v, ",");
        }
        push_str(v, "\n");
        proof {
            let t = u@.take(k + 1);
            assert(t.drop_last() =~= u@.take(k as int));
            assert(t.last() == *e);
            assert(v@ =~= v0 + unb_lines(t, u.len() as nat));
        }
        k += 1;
    }
    proof {
        assert(u@.take(k as int) =~= u@);
    }
}

#[verifier::rlimit(40)]
fn push_pd_lines(v: &mut Vec<char>, u: &Vec<PropDiff>)
    ensures
        final(v)@ == old(v)@ + pd_lines(u@, u.len() as nat),
{
    let ghost v0 = v@;
    let mut k: usize = 0;
    while k < u.len()
        invariant
            k <= u.len(),
            v@ == v0 + pd_lines(u@.take(k as int), u.len() as nat),
        decreases u.len() - k,
    {
        let e = &u[k];
        let ghost w0 = v@;
        let mut kc: Vec<char> = Vec::new();
        kc.push(e.kind);
        let ks = string_of(&kc);
        push_str(v, "    {\"kind\": ");
        push_str(v, jstr(ks.as_str()).as_str());
        push_str(v, ", \"a_device\": ");
        push_str(v, jstr(e.a_device.as_str()).as_str());
        push_str(v, ", \"b_device\": ");
        push_str(v, jstr(e.b_device.as_str()).as_str());
        push_str(v, ", \"param\": ");
        push_str(v, jstr(e.param.as_str()).as_str());
        push_str(v, ", \"a_value\": ");
        push_str(v, e.a_value.as_str());
        push_str(v, ", \"b_value\": ");
        push_str(v, e.b_value.as_str());
        push_str(v, "}");
        proof {
            assert(kc@ =~= seq![e.kind]);
            assert(v@ =~= w0 + pd_entry(*e));
        }
        if k + 1 < u.len() {
            push_str(v, ",");
        }
        push_str(v, "\n");
        proof {
            let t = u@.take(k + 1);
            assert(t.drop_last() =~= u@.take(k as int));
            assert(t.last() == *e);
            assert(v@ =~= v0 + pd_lines(t, u.len() as nat));
        }
        k += 1;
    }
    proof {
        assert(u@.take(k as int) =~= u@);
    }
}

/// The JSON report of a verdict, with the tri-state `lvs_met`.
pub fn report_json(r: &LvsResult) -> (s: String)
    ensures
        s@ == json_spec(*r),
{
    let mut v: Vec<char> = Vec::new();
    push_json_head(&mut v, r);
    push_json_counts(&mut v, r);
    push_str(&mut v, "  \"unbalanced\": [\n");
    push_unb_lines(&mut v, &r.unbalanced);
    push_str(&mut v, "  ],\n");
    push_str(&mut v, "  \"property_diffs\": [\n");
    push_pd_lines(&mut v, &r.property_diffs);
    push_str(&mut v, "  ]\n}\n");
    proof {
        assert(v@ =~= json_spec(*r));
    }
    string_of(&v)
}

// ---------------------------------------------------------------- coverage

/// What each side of a comparison contained, as far as a reader of the
/// verdict needs to know.
#[derive(Debug, Clone, Copy, PartialEq, Eq, Structural)]
pub enum CoverageKind {
    /// A side has no device: a MATCH would be vacuous.
    Empty,
    /// One side has less than half the devices of the other.
    Lopsided,
    /// The device counts are comparable.
    Comparable,
}

/// The coverage statement that goes with a verdict.
pub struct Coverage {
    pub kind: CoverageKind,
    /// Whether the statement deserves attention (a warning).
    pub warn: bool,
    pub message: String,
}

pub open spec fn coverage_kind(a: nat, b: nat) -> CoverageKind {
    let lo = if a <= b { a } else { b };
    let hi = if a <= b { b } else { a };
    if a == 0 || b == 0 {
        CoverageKind::Empty
    } else if hi > 0 && lo * 2 < hi {
        CoverageKind::Lopsided
    } else {
        CoverageKind::Comparable
    }
}

/// The coverage class does not depend on which side is which; a side is
/// empty exactly when it has no device; two non-empty sides are lopsided
/// exactly when one has fewer than half the devices of the other.
pub proof fn lemma_coverage_kind(a: nat, b: nat)
    ensures
        coverage_kind(a, b) == coverage_kind(b, a),
        (coverage_kind(a, b) == CoverageKind::Empty) <==> (a == 0 || b == 0),
        a > 0 && b > 0 ==> ((coverage_kind(a, b) == CoverageKind::Lopsided) <==> (2 * a < b || 2 * b < a)),
{
}

pub open spec fn coverage_message(r: LvsResult) -> Seq<char> {
    match coverage_kind(r.a_devices as nat, r.b_devices as nat) {
        CoverageKind::Empty => "one side has no devices (layout "@ + dec(r.a_devices as nat) + " / schematic "@ + dec(
            r.b_devices as nat,
        ) + ") — a comparison against an empty netlist matches trivially and proves nothing"@,
        CoverageKind::Lopsided => "device counts differ sharply: layout "@ + dec(r.a_devices as nat) + " / schematic "@
            + dec(r.b_devices as nat) + " (nets "@ + dec(r.a_nets as nat) + " / "@ + dec(r.b_nets as nat)
            + ") — read the verdict with that in mind"@,
        CoverageKind::Comparable => "compared layout "@ + dec(r.a_devices as nat) + " device(s) / "@ + dec(
            r.a_nets as nat,
        ) + " net(s) against schematic "@ + dec(r.b_devices as nat) + " / "@ + dec(r.b_nets as nat),
    }
}

/// States what each side contained: an empty side (its MATCH proves
/// nothing), a sharp asymmetry (read the verdict twice), or the counts
/// compared. Only the first two deserve attention.
pub fn coverage(r: &LvsResult) -> (c: Coverage)
    ensures
        c.kind == coverage_kind(r.a_devices as nat, r.b_devices as nat),
        c.warn == (c.kind != CoverageKind::Comparable),
        c.message@ == coverage_message(*r),
{
    let a = r.a_devices;
    let b = r.b_devices;
    let lo = if a <= b { a } else { b };
    let hi = if a <= b { b } else { a };
    let mut m: Vec<char> = Vec::new();
    let kind = if a == 0 || b == 0 {
        CoverageKind::Empty
    } else if hi > 0 && lo < hi - lo {
        CoverageKind::Lopsided
    } else {
        CoverageKind::Comparable
    };
    match kind {
        CoverageKind::Empty => {
            push_str(&mut m, "one side has no devices (layout ");
            push_dec(&mut m, a);
            push_str(&mut m, " / schematic ");
            push_dec(&mut m, b);
            push_str(&mut m, ") — a comparison against an empty netlist matches trivially and proves nothing");
        },
        CoverageKind::Lopsided => {
            push_str(&mut m, "device counts differ sharply: layout ");
            push_dec(&mut m, a);
            push_str(&mut m, " / schematic ");
            push_dec(&mut m, b);
            push_str(&mut m, " (nets ");
            push_dec(&mut m, r.a_nets);
            push_str(&mut m, " / ");
            push_dec(&mut m, r.b_nets);
            push_str(&mut m, ") — read the verdict with that in mind");
        },
        CoverageKind::Comparable => {
            push_str(&mut m, "compared layout ");
            push_dec(&mut m, a);
            push_str(&mut m, " device(s) / ");
            push_dec(&mut m, r.a_nets);
            push_str(&mut m, " net(s) against schematic ");
            push_dec(&mut m, b);
            push_str(&mut m, " / ");
            push_dec(&mut m, r.b_nets);
        },
    }
    proof {
        assert(m@ =~= coverage_message(*r));
    }
    let warn = match kind {
        CoverageKind::Comparable => false,
        _ => true,
    };
    Coverage { kind, warn, message: string_of(&m) }
}

// ---------------------------------------------------------------- demo

/// An inverter.
pub const DEMO_A: &'static str = ".subckt inv A Y VDD VSS\nMp Y A VDD VDD pfet\nMn Y A VSS VSS nfet\n.ends\n";

/// The same inverter with instance names and device order changed, as a
/// layout extractor might write it.
pub const DEMO_B: &'static str = ".subckt inv A Y VDD VSS\nM_2 Y A VSS VSS nfet\nM_1 Y A VDD VDD pfet\n.ends\n";

/// A four-terminal MOSFET with no parameters.
pub open spec fn mos_spec(
    name: Seq<char>,
    d: Seq<char>,
    g: Seq<char>,
    s: Seq<char>,
    b: Seq<char>,
    model: Seq<char>,
) -> DeviceV {
    DeviceV { kind: 'M', name, nodes: seq![d, g, s, b], model, params: Seq::empty() }
}

/// The netlist `DEMO_A` reads as.
pub open spec fn demo_a() -> NetlistV {
    NetlistV {
        name: "inv"@,
        ports: seq!["A"@, "Y"@, "VDD"@, "VSS"@],
        devices: seq![
            mos_spec("Mp"@, "Y"@, "A"@, "VDD"@, "VDD"@, "pfet"@),
            mos_spec("Mn"@, "Y"@, "A"@, "VSS"@, "VSS"@, "nfet"@),
        ],
    }
}

/// The netlist `DEMO_B` reads as.
pub open spec fn demo_b() -> NetlistV {
    NetlistV {
        name: "inv"@,
        ports: seq!["A"@, "Y"@, "VDD"@, "VSS"@],
        devices: seq![
            mos_spec("M_2"@, "Y"@, "A"@, "VSS"@, "VSS"@, "nfet"@),
            mos_spec("M_1"@, "Y"@, "A"@, "VDD"@, "VDD"@, "pfet"@),
        ],
    }
}

fn owned(s: &str) -> (r: String)
    ensures
        r@ == s@,
{
    string_of(&chars_of(s))
}

fn mos(name: &str, d: &str, g: &str, s: &str, b: &str, model: &str) -> (r: Device)
    ensures
        r@ == mos_spec(name@, d@, g@, s@, b@, model@),
{
    let nodes = vec![owned(d), owned(g), owned(s), owned(b)];
    let r = Device { kind: 'M', name: owned(name), nodes, model: owned(model), params: Vec::new() };
    proof {
        assert(strs(r.nodes@) =~= seq![d@, g@, s@, b@]);
        assert(pairs(r.params@) =~= Seq::<(Seq<char>, Seq<char>)>::empty());
    }
    r
}

fn inv_ports() -> (r: Vec<String>)
    ensures
        strs(r@) == seq!["A"@, "Y"@, "VDD"@, "VSS"@],
{
    let r = vec![owned("A"), owned("Y"), owned("VDD"), owned("VSS")];
    proof {
        assert(strs(r@) =~= seq!["A"@, "Y"@, "VDD"@, "VSS"@]);
    }
    r
}

/// The two demo inverters, as `DEMO_A` and `DEMO_B` read.
pub fn demo_pair() -> (r: (Netlist, Netlist))
    ensures
        r.0@ == demo_a(),
        r.1@ == demo_b(),
{
    let da = vec![mos("Mp", "Y", "A", "VDD", "VDD", "pfet"), mos("Mn", "Y", "A", "VSS", "VSS", "nfet")];
    let db = vec![mos("M_2", "Y", "A", "VSS", "VSS", "nfet"), mos("M_1", "Y", "A", "VDD", "VDD", "pfet")];
    let a = Netlist { name: owned("inv"), ports: inv_ports(), devices: da };
    let b = Netlist { name: owned("inv"), ports: inv_ports(), devices: db };
    proof {
        assert(devs(a.devices@) =~= demo_a().devices);
        assert(devs(b.devices@) =~= demo_b().devices);
    }
    (a, b)
}

/// The two demo devices of one netlist are not parallel: their models
/// differ.
proof fn lemma_demo_not_parallel(nl: NetlistV)
    requires
        nl.devices.len() == 2,
        nl.devices[0].kind == 'M' && nl.devices[1].kind == 'M',
        (nl.devices[0].model == "pfet"@ && nl.devices[1].model == "nfet"@) || (nl.devices[0].model == "nfet"@
            && nl.devices[1].model == "pfet"@),
    ensures
        topo_merged(nl) == nl,
{
    reveal_strlit("pfet");
    reveal_strlit("nfet");
    let lks = Seq::new(nl.devices.len(), |i: int| 0i64);
    let k = sigs(nl.devices, lks);
    assert(k[0][1] == nl.devices[0].model);
    assert(k[1][1] == nl.devices[1].model);
    assert(nl.devices[0].model[0] != nl.devices[1].model[0]);
    assert(k[0] != k[1]);
    assert(k.no_duplicates());
    lemma_combine_no_parallel(nl, lks);
}

/// The two demo inverters are the same circuit: `Mp` and `Mn` are `M_1`
/// and `M_2`, every net keeps its name.
proof fn lemma_demo_same()
    ensures
        same_circuit(demo_a(), demo_b()),
{
    let a = demo_a();
    let b = demo_b();
    let sigma = seq![1usize, 0usize];
    let orient = seq![false, false];
    let mu = Map::new(|x: Seq<char>| true, |x: Seq<char>| x);
    assert(mu.is_injective());
    assert(dev_match(a.devices[0], b.devices[1], false, mu)) by {
        assert(forall|p: int| 0 <= p < 4 ==> #[trigger] pair_ok(mu, a.devices[0], b.devices[1], false, p));
    }
    assert(dev_match(a.devices[1], b.devices[0], false, mu)) by {
        assert(forall|p: int| 0 <= p < 4 ==> #[trigger] pair_ok(mu, a.devices[1], b.devices[0], false, p));
    }
    assert(is_iso(a, b, sigma, orient, mu));
    assert(anchored(a, b, mu));
}

/// `r` is the topology comparison of the two demo inverters: a MATCH
/// confirmed by an explicit bijection, two devices a side.
pub open spec fn demo_spec(r: LvsResult) -> bool {
    &&& comparison_of(topo_merged(demo_a()), topo_merged(demo_b()), r)
    &&& r.matched && r.verified
    &&& r.a_devices == 2 && r.b_devices == 2
}

/// The built-in matching pair: two renderings of one inverter, compared on
/// topology.
pub fn demo() -> (r: LvsResult)
    ensures
        demo_spec(r),
{
    let (a, b) = demo_pair();
    let r = compare_topology(&a, &b);
    proof {
        lemma_demo_not_parallel(demo_a());
        lemma_demo_not_parallel(demo_b());
        lemma_demo_same();
        assert(demo_a().devices.len() == 2 && demo_b().devices.len() == 2);
        assert(tree_bound(1, 4) == 4) by {
            assert(tree_bound(0, 4) == 0);
            assert(tree_bound(1, 4) == 4 * (1 + tree_bound(0, 4)));
        }
        assert(tree_bound(2, 4) == 4 * (1 + tree_bound(1, 4)));
        assert(2 * demo_b().devices.len() == 4);
        assert(fits(demo_a(), demo_b()));
        assert(demo_a().ports == demo_b().ports);
        assert(r.only_in_a_ports.len() == 0);
        assert(r.only_in_b_ports.len() == 0);
        assert(same_circuit(topo_merged(demo_a()), topo_merged(demo_b())));
        assert(fits(topo_merged(demo_a()), topo_merged(demo_b())));
        assert(r.matched && r.verified);
        assert(r.a_devices == 2);
    }
    r
}

} // verus!
