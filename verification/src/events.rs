//! The events emitted alongside a verdict, each a plain value.
use vstd::prelude::*;
use crate::compare::{LvsResult, PropDiff};
use crate::text::{dec, push_dec, push_str, string_of};

verus! {

/// How much attention an event asks for.
#[derive(Debug, Clone, Copy, PartialEq, Eq, Structural)]
pub enum Severity {
    Info,
    Warn,
    Error,
}

/// One event: its severity, a stable code, a message and the objects it
/// is about.
pub struct LvsEvent {
    pub severity: Severity,
    pub code: String,
    pub message: String,
    pub objects: Vec<String>,
}

/// An event as plain values.
pub type EventV = (Severity, Seq<char>, Seq<char>, Seq<Seq<char>>);

pub open spec fn event_view(e: LvsEvent) -> EventV {
    (e.severity, e.code@, e.message@, e.objects@.map_values(|s: String| s@))
}

pub open spec fn param_event(d: PropDiff) -> EventV {
    (
        Severity::Warn,
        "LVS-PARAM"@,
        "parameter '"@ + d.param@ + "' differs on "@ + d.a_device@ + " vs "@ + d.b_device@ + ": "@ + d.a_value@
            + " vs "@ + d.b_value@,
        seq!["device:"@ + d.a_device@, "device:"@ + d.b_device@],
    )
}

pub open spec fn kind_event(k: (char, usize, usize)) -> EventV {
    (
        Severity::Warn,
        "LVS-DEVCOUNT"@,
        "device-kind '"@ + seq![k.0] + "' count differs: a="@ + dec(k.1 as nat) + " b="@ + dec(k.2 as nat),
        seq!["kind:"@ + seq![k.0]],
    )
}

/// A port found on one side only; `side` names that side.
pub open spec fn port_event(p: Seq<char>, side: Seq<char>) -> EventV {
    (Severity::Warn, "LVS-PORT"@, "port only in "@ + side + ": "@ + p, seq!["port:"@ + p])
}

pub open spec fn note_suffix(n: Option<String>) -> Seq<char> {
    match n {
        Some(t) => " — "@ + t@,
        None => Seq::empty(),
    }
}

pub open spec fn verdict_event(r: LvsResult) -> EventV {
    if r.matched {
        (
            Severity::Info,
            "LVS-MATCH"@,
            "LVS MATCH ("@ + dec(r.a_devices as nat) + " devices, "@ + dec(r.a_nets as nat) + " nets)"@ + (if r.verified {
                " [verified]"@
            } else {
                Seq::empty()
            }) + note_suffix(r.note),
            Seq::empty(),
        )
    } else {
        (Severity::Error, "LVS-MISMATCH"@, "LVS MISMATCH"@ + note_suffix(r.note), Seq::empty())
    }
}

/// The events of a verdict, in the order they are emitted.
pub open spec fn events_spec(r: LvsResult) -> Seq<EventV> {
    r.property_diffs@.map_values(|d: PropDiff| param_event(d)) + r.device_kind_diff@.map_values(
        |k: (char, usize, usize)| kind_event(k),
    ) + r.only_in_a_ports@.map_values(|p: String| port_event(p@, "layout"@)) + r.only_in_b_ports@.map_values(
        |p: String| port_event(p@, "schematic"@),
    ) + seq![verdict_event(r)]
}

/// One event per parameter difference, per device-kind count difference and
/// per one-sided port, all warnings, then exactly one closing verdict event:
/// an `LVS-MATCH` info when the netlists matched, else an `LVS-MISMATCH`
/// error.
pub proof fn lemma_events_close_with_verdict(r: LvsResult)
    ensures
        events_spec(r).len() == r.property_diffs.len() + r.device_kind_diff.len() + r.only_in_a_ports.len()
            + r.only_in_b_ports.len() + 1,
        forall|i: int| 0 <= i < events_spec(r).len() - 1 ==> (#[trigger] events_spec(r)[i]).0 == Severity::Warn,
        events_spec(r).last().0 == (if r.matched { Severity::Info } else { Severity::Error }),
        events_spec(r).last().1 == (if r.matched { "LVS-MATCH"@ } else { "LVS-MISMATCH"@ }),
{
    let e = events_spec(r);
    let p = r.property_diffs@.map_values(|d: PropDiff| param_event(d));
    let k = r.device_kind_diff@.map_values(|k: (char, usize, usize)| kind_event(k));
    let a = r.only_in_a_ports@.map_values(|p: String| port_event(p@, "layout"@));
    let b = r.only_in_b_ports@.map_values(|p: String| port_event(p@, "schematic"@));
    assert(e == p + k + a + b + seq![verdict_event(r)]);
    assert forall|i: int| 0 <= i < e.len() - 1 implies (#[trigger] e[i]).0 == Severity::Warn by {
        if i < p.len() {
            assert(e[i] == p[i]);
        } else if i < p.len() + k.len() {
            assert(e[i] == k[i - p.len()]);
        } else if i < p.len() + k.len() + a.len() {
            assert(e[i] == a[i - p.len() - k.len()]);
        } else {
            assert(e[i] == b[i - p.len() - k.len() - a.len()]);
        }
    }
}

fn text_of(parts: &[&str]) -> (s: String)
    ensures
        s@ == parts@.fold_left(Seq::<char>::empty(), |acc: Seq<char>, p: &str| acc + p@),
{
    let mut v: Vec<char> = Vec::new();
    let mut i: usize = 0;
    while i < parts.len()
        invariant
            i <= parts.len(),
            v@ == parts@.take(i as int).fold_left(Seq::<char>::empty(), |acc: Seq<char>, p: &str| acc + p@),
        decreases parts.len() - i,
    {
        proof {
            assert(parts@.take(i + 1).drop_last() =~= parts@.take(i as int));
        }
        push_str(&mut v, parts[i]);
        i += 1;
    }
    proof {
        assert(parts@.take(i as int) =~= parts@);
    }
    string_of(&v)
}

fn make_param_event(d: &PropDiff) -> (e: LvsEvent)
    ensures
        event_view(e) == param_event(*d),
{
    let message = text_of(
        &[
            "parameter '",
            d.param.as_str(),
            "' differs on ",
            d.a_device.as_str(),
            " vs ",
            d.b_device.as_str(),
            ": ",
            d.a_value.as_str(),
            " vs ",
            d.b_value.as_str(),
        ],
    );
    let o1 = text_of(&["device:", d.a_device.as_str()]);
    let o2 = text_of(&["device:", d.b_device.as_str()]);
    let objects = vec![o1, o2];
    let e = LvsEvent { severity: Severity::Warn, code: "LVS-PARAM".to_owned(), message, objects };
    proof {
        reveal_with_fuel(Seq::fold_left, 11);
        assert(e.message@ =~= param_event(*d).2);
        assert(event_view(e).3 =~= param_event(*d).3);
    }
    e
}

fn make_kind_event(k: (char, usize, usize)) -> (e: LvsEvent)
    ensures
        event_view(e) == kind_event(k),
{
    let mut m: Vec<char> = Vec::new();
    push_str(&mut m, "device-kind '");
    m.push(k.0);
    push_str(&mut m, "' count differs: a=");
    push_dec(&mut m, k.1);
    push_str(&mut m, " b=");
    push_dec(&mut m, k.2);
    let mut o: Vec<char> = Vec::new();
    push_str(&mut o, "kind:");
    o.push(k.0);
    let o1 = string_of(&o);
    proof {
        assert(o1@ =~= "kind:"@ + seq![k.0]);
    }
    let objects = vec![o1];
    let e = LvsEvent { severity: Severity::Warn, code: "LVS-DEVCOUNT".to_owned(), message: string_of(&m), objects };
    proof {
        assert(e.message@ =~= kind_event(k).2);
        assert(event_view(e).3 =~= kind_event(k).3);
    }
    e
}

fn make_port_event(p: &String, side: &str) -> (e: LvsEvent)
    ensures
        event_view(e) == port_event(p@, side@),
{
    let message = text_of(&["port only in ", side, ": ", p.as_str()]);
    let o1 = text_of(&["port:", p.as_str()]);
    let objects = vec![o1];
    let e = LvsEvent { severity: Severity::Warn, code: "LVS-PORT".to_owned(), message, objects };
    proof {
        reveal_with_fuel(Seq::fold_left, 5);
        assert(e.message@ =~= port_event(p@, side@).2);
        assert(event_view(e).3 =~= port_event(p@, side@).3);
    }
    e
}

fn make_verdict_event(r: &LvsResult) -> (e: LvsEvent)
    ensures
        event_view(e) == verdict_event(*r),
{
    let mut m: Vec<char> = Vec::new();
    let severity;
    let code;
    if r.matched {
        severity = Severity::Info;
        code = "LVS-MATCH".to_owned();
        push_str(&mut m, "LVS MATCH (");
        push_dec(&mut m, r.a_devices);
        push_str(&mut m, " devices, ");
        push_dec(&mut m, r.a_nets);
        push_str(&mut m, " nets)");
        if r.verified {
            push_str(&mut m, " [verified]");
        }
    } else {
        severity = Severity::Error;
        code = "LVS-MISMATCH".to_owned();
        push_str(&mut m, "LVS MISMATCH");
    }
    match &r.note {
        Some(n) => {
            push_str(&mut m, " — ");
            push_str(&mut m, n.as_str());
        },
        None => {},
    }
    let e = LvsEvent { severity, code, message: string_of(&m), objects: Vec::new() };
    proof {
        assert(e.message@ =~= verdict_event(*r).2);
        assert(event_view(e).3 =~= verdict_event(*r).3);
    }
    e
}

/// The events that accompany the verdict `r`: a warning for each parameter
/// difference, each device kind whose counts differ and each port found on
/// one side only (layout first), then the verdict itself — information for a
/// MATCH, an error for a MISMATCH — with the note appended where there is one.
pub fn lvs_events(r: &LvsResult) -> (out: Vec<LvsEvent>)
    ensures
        out@.map_values(|e: LvsEvent| event_view(e)) == events_spec(*r),
{
    let ghost sp = events_spec(*r);
    let ghost n1 = r.property_diffs@.len();
    let ghost n2 = n1 + r.device_kind_diff@.len();
    let ghost n3 = n2 + r.only_in_a_ports@.len();
    let ghost n4 = n3 + r.only_in_b_ports@.len();
    let mut out: Vec<LvsEvent> = Vec::new();
    let mut i: usize = 0;
    while i < r.property_diffs.len()
        invariant
            i <= r.property_diffs@.len(),
            out@.len() == i,
            sp == events_spec(*r),
            n1 == r.property_diffs@.len(),
            forall|j: int| 0 <= j < i ==> event_view(#[trigger] out@[j]) == sp[j],
        decreases r.property_diffs.len() - i,
    {
        let e = make_param_event(&r.property_diffs[i]);
        out.push(e);
        i += 1;
    }
    i = 0;
    while i < r.device_kind_diff.len()
        invariant
            i <= r.device_kind_diff@.len(),
            out@.len() == n1 + i,
            sp == events_spec(*r),
            n1 == r.property_diffs@.len(),
            n2 == n1 + r.device_kind_diff@.len(),
            forall|j: int| 0 <= j < out@.len() ==> event_view(#[trigger] out@[j]) == sp[j],
        decreases r.device_kind_diff.len() - i,
    {
        let e = make_kind_event(r.device_kind_diff[i]);
        out.push(e);
        i += 1;
    }
    i = 0;
    while i < r.only_in_a_ports.len()
        invariant
            i <= r.only_in_a_ports@.len(),
            out@.len() == n2 + i,
            sp == events_spec(*r),
            n1 == r.property_diffs@.len(),
            n2 == n1 + r.device_kind_diff@.len(),
            n3 == n2 + r.only_in_a_ports@.len(),
            forall|j: int| 0 <= j < out@.len() ==> event_view(#[trigger] out@[j]) == sp[j],
        decreases r.only_in_a_ports.len() - i,
    {
        let e = make_port_event(&r.only_in_a_ports[i], "layout");
        out.push(e);
        i += 1;
    }
    i = 0;
    while i < r.only_in_b_ports.len()
        invariant
            i <= r.only_in_b_ports@.len(),
            out@.len() == n3 + i,
            sp == events_spec(*r),
            n1 == r.property_diffs@.len(),
            n2 == n1 + r.device_kind_diff@.len(),
            n3 == n2 + r.only_in_a_ports@.len(),
            n4 == n3 + r.only_in_b_ports@.len(),
            forall|j: int| 0 <= j < out@.len() ==> event_view(#[trigger] out@[j]) == sp[j],
        decreases r.only_in_b_ports.len() - i,
    {
        let e = make_port_event(&r.only_in_b_ports[i], "schematic");
        out.push(e);
        i += 1;
    }
    let e = make_verdict_event(r);
    out.push(e);
    proof {
        assert(out@.map_values(|e: LvsEvent| event_view(e)) =~= sp);
    }
    out
}
} // verus!
