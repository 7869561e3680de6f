//! SPICE netlist reader: statements (comments stripped, `+` continuations
//! joined), typed devices, `.subckt`/`.ends` scoping, `.global` nets, and
//! hierarchical flattening down to primitive devices.
//!
//! Device kinds M (4 terminals), Q (3), R, C, L, D (2) and X (variable) are
//! read; other kinds are skipped; dot-commands other than `.subckt`, `.ends`
//! and `.global` are ignored. Commands and subcircuit names are matched without
//! regard to ASCII case.
use vstd::prelude::*;
use crate::text::{
    ascii_upper, chars_of, eq_chars, split_ws, tokens, cut_comment, dec, lower, lower_vec, push_dec, push_str, slice_of, string_of,
    upper_char, cut_comment_exec, drop_lead, drop_lead_exec, lines, ltrim, push_all, rtrim,
    split_lines, trim, trim_both, trim_end, trim_start, is_ws, lemma_ltrim_at, lemma_rtrim_at, lemma_cut_at,
    lemma_drop_lead_at,
};

verus! {

/// One device instance.
#[derive(Debug, Clone, PartialEq)]
pub struct Device {
    /// Normalised upper-case first letter of the instance name (M/Q/R/C/L/D/X).
    pub kind: char,
    /// Instance name as written.
    pub name: String,
    /// Ordered terminal nets.
    pub nodes: Vec<String>,
    /// Model, subcircuit or value (may be empty).
    pub model: String,
    /// Instance parameters as written: `key=value` tokens after the model
    /// (key lower-cased) and, for R/C/L, the value token as `value`.
    pub params: Vec<(String, String)>,
}

/// A (sub)circuit: its name, its ports and its devices.
#[derive(Debug, Clone)]
pub struct Netlist {
    pub name: String,
    pub ports: Vec<String>,
    pub devices: Vec<Device>,
}

/// A reading error, with a message.
#[derive(Debug)]
pub struct SpiceError(pub String);

pub ghost struct DeviceV {
    pub kind: char,
    pub name: Seq<char>,
    pub nodes: Seq<Seq<char>>,
    pub model: Seq<char>,
    pub params: Seq<(Seq<char>, Seq<char>)>,
}

pub ghost struct NetlistV {
    pub name: Seq<char>,
    pub ports: Seq<Seq<char>>,
    pub devices: Seq<DeviceV>,
}

pub open spec fn strs(v: Seq<String>) -> Seq<Seq<char>> {
    v.map_values(|s: String| s@)
}

pub open spec fn pairs(v: Seq<(String, String)>) -> Seq<(Seq<char>, Seq<char>)> {
    v.map_values(|p: (String, String)| (p.0@, p.1@))
}

impl View for Device {
    type V = DeviceV;

    open spec fn view(&self) -> DeviceV {
        DeviceV {
            kind: self.kind,
            name: self.name@,
            nodes: strs(self.nodes@),
            model: self.model@,
            params: pairs(self.params@),
        }
    }
}

pub open spec fn devs(v: Seq<Device>) -> Seq<DeviceV> {
    v.map_values(|d: Device| d@)
}

impl View for Netlist {
    type V = NetlistV;

    open spec fn view(&self) -> NetlistV {
        NetlistV { name: self.name@, ports: strs(self.ports@), devices: devs(self.devices@) }
    }
}

/// A copy of a list of strings.
pub fn copy_strings(v: &Vec<String>) -> (r: Vec<String>)
    ensures
        strs(r@) == strs(v@),
{
    let mut r: Vec<String> = Vec::new();
    let mut i: usize = 0;
    while i < v.len()
        invariant
            i <= v.len(),
            strs(r@) == strs(v@.take(i as int)),
        decreases v.len() - i,
    {
        proof {
            assert(strs(v@.take(i + 1)) =~= strs(v@.take(i as int)).push(v@[i as int]@));
        }
        r.push(v[i].clone());
        i += 1;
    }
    proof {
        assert(v@.take(v.len() as int) =~= v@);
    }
    r
}

fn copy_pairs(v: &Vec<(String, String)>) -> (r: Vec<(String, String)>)
    ensures
        pairs(r@) == pairs(v@),
{
    let mut r: Vec<(String, String)> = Vec::new();
    let mut i: usize = 0;
    while i < v.len()
        invariant
            i <= v.len(),
            pairs(r@) == pairs(v@.take(i as int)),
        decreases v.len() - i,
    {
        proof {
            assert(pairs(v@.take(i + 1)) =~= pairs(v@.take(i as int)).push(
                (v@[i as int].0@, v@[i as int].1@),
            ));
        }
        r.push((v[i].0.clone(), v[i].1.clone()));
        i += 1;
    }
    proof {
        assert(v@.take(v.len() as int) =~= v@);
    }
    r
}

/// A copy of a device.
pub fn copy_device(d: &Device) -> (r: Device)
    ensures
        r@ == d@,
{
    Device {
        kind: d.kind,
        name: d.name.clone(),
        nodes: copy_strings(&d.nodes),
        model: d.model.clone(),
        params: copy_pairs(&d.params),
    }
}


// ---------------------------------------------------------------- statements

/// One line's effect on the statements read so far: a `*` line is a comment;
/// text from the first `;` or `$` on is a comment; a blank line is skipped; a
/// line whose first non-blank character is `+` continues the previous
/// statement (after one space, with its leading `+` run and surrounding blanks
/// removed); any other line is a new statement, trimmed.
pub open spec fn stmt_step(out: Seq<Seq<char>>, raw: Seq<char>) -> Seq<Seq<char>> {
    let lead = ltrim(raw);
    if lead.len() > 0 && lead[0] == '*' {
        out
    } else {
        let line = rtrim(cut_comment(raw));
        let start = ltrim(line);
        if trim(line).len() == 0 {
            out
        } else if start.len() > 0 && start[0] == '+' && out.len() > 0 {
            out.update(
                out.len() - 1,
                out.last() + seq![' '] + trim(drop_lead(start, '+')),
            )
        } else {
            out.push(trim(line))
        }
    }
}

pub open spec fn stmts_of_lines(ls: Seq<Seq<char>>) -> Seq<Seq<char>>
    decreases ls.len(),
{
    if ls.len() == 0 {
        Seq::empty()
    } else {
        stmt_step(stmts_of_lines(ls.drop_last()), ls.last())
    }
}

/// The statements of a SPICE text, in order.
pub open spec fn statements_spec(text: Seq<char>) -> Seq<Seq<char>> {
    stmts_of_lines(lines(text))
}

/// `s` is non-empty, starts and ends with a non-blank character and holds no
/// comment character (`;` or `$`).
pub open spec fn plain_text(s: Seq<char>) -> bool {
    &&& s.len() > 0
    &&& !is_ws(s[0])
    &&& !is_ws(s.last())
    &&& forall|k: int| 0 <= k < s.len() ==> #[trigger] s[k] != ';' && s[k] != '$'
}

proof fn lemma_plain_line(s: Seq<char>)
    requires
        plain_text(s),
    ensures
        ltrim(s) == s,
        cut_comment(s) == s,
        rtrim(s) == s,
        trim(s) == s,
{
    lemma_ltrim_at(s, 0);
    assert(s.subrange(0, s.len() as int) =~= s);
    lemma_cut_at(s, s.len() as int);
    assert(s.take(s.len() as int) =~= s);
    lemma_rtrim_at(s, s.len() as int);
}

/// A comment line adds no statement: one whose first non-blank character is
/// `*`, or whose text before its first `;` or `$` is blank.
pub proof fn lemma_comment_line(ls: Seq<Seq<char>>, c: Seq<char>)
    requires
        (ltrim(c).len() > 0 && ltrim(c)[0] == '*') || forall|k: int| 0 <= k < cut_comment(c).len() ==> is_ws(
            #[trigger] cut_comment(c)[k],
        ),
    ensures
        stmts_of_lines(ls.push(c)) == stmts_of_lines(ls),
{
    assert(ls.push(c).drop_last() =~= ls);
    if !(ltrim(c).len() > 0 && ltrim(c)[0] == '*') {
        let cut = cut_comment(c);
        lemma_rtrim_at(cut, 0);
        assert(rtrim(cut) =~= Seq::<char>::empty());
        assert(ltrim(Seq::<char>::empty()) == Seq::<char>::empty());
        assert(rtrim(Seq::<char>::empty()) == Seq::<char>::empty());
    }
}

/// A `+` line continues the statement before it: a statement written on one
/// line reads the same as the same statement split before any later word
/// onto a line that starts with `+`.
pub proof fn lemma_continuation(ls: Seq<Seq<char>>, a: Seq<char>, b: Seq<char>)
    requires
        plain_text(a),
        a[0] != '*',
        a[0] != '+',
        plain_text(b),
    ensures
        stmts_of_lines(ls.push(a).push(seq!['+', ' '] + b)) == stmts_of_lines(ls.push(a + seq![' '] + b)),
{
    let s0 = stmts_of_lines(ls);
    let c2 = seq!['+', ' '] + b;
    let j = a + seq![' '] + b;
    assert(ls.push(a).drop_last() =~= ls);
    assert(ls.push(a).push(c2).drop_last() =~= ls.push(a));
    assert(ls.push(j).drop_last() =~= ls);
    lemma_plain_line(a);
    assert(stmts_of_lines(ls.push(a)) == s0.push(a));
    // the continuation line
    assert(plain_text(c2)) by {
        assert forall|k: int| 0 <= k < c2.len() implies #[trigger] c2[k] != ';' && c2[k] != '$' by {
            if k >= 2 {
                assert(c2[k] == b[k - 2]);
            }
        }
        assert(c2.last() == b.last());
    }
    lemma_plain_line(c2);
    lemma_drop_lead_at(c2, '+', 1);
    let rest = c2.subrange(1, c2.len() as int);
    assert(rest =~= seq![' '] + b);
    lemma_ltrim_at(rest, 1);
    assert(rest.subrange(1, rest.len() as int) =~= b);
    lemma_plain_line(b);
    assert(trim(rest) == b);
    assert(stmts_of_lines(ls.push(a).push(c2)) =~= s0.push(a + seq![' '] + b));
    // the joined line
    assert(plain_text(j)) by {
        assert forall|k: int| 0 <= k < j.len() implies #[trigger] j[k] != ';' && j[k] != '$' by {
            if k < a.len() {
                assert(j[k] == a[k]);
            } else if k > a.len() {
                assert(j[k] == b[k - a.len() - 1]);
            }
        }
        assert(j.last() == b.last());
        assert(j[0] == a[0]);
    }
    lemma_plain_line(j);
    assert(j[0] == a[0]);
    assert(stmts_of_lines(ls.push(j)) == s0.push(j));
}

pub open spec fn vv(v: Seq<Vec<char>>) -> Seq<Seq<char>> {
    v.map_values(|x: Vec<char>| x@)
}

fn statements(text: &str) -> (r: Vec<Vec<char>>)
    ensures
        vv(r@) == statements_spec(text@),
{
    let cs = chars_of(text);
    let ls = split_lines(&cs);
    let ghost lsv = lines(cs@);
    proof {
        assert(vv(ls@) =~= lsv);
    }
    let mut out: Vec<Vec<char>> = Vec::new();
    let mut i: usize = 0;
    while i < ls.len()
        invariant
            i <= ls.len(),
            vv(ls@) == lsv,
            vv(out@) == stmts_of_lines(lsv.take(i as int)),
        decreases ls.len() - i,
    {
        proof {
            assert(lsv.take(i + 1).drop_last() =~= lsv.take(i as int));
            assert(lsv[i as int] == ls@[i as int]@);
        }
        let raw = &ls[i];
        let lead = trim_start(raw);
        if lead.len() > 0 && lead[0] == '*' {
            i += 1;
            continue;
        }
        let cut = cut_comment_exec(raw);
        let line = trim_end(&cut);
        let whole = trim_both(&line);
        if whole.len() == 0 {
            i += 1;
            continue;
        }
        let start = trim_start(&line);
        if start.len() > 0 && start[0] == '+' && out.len() > 0 {
            let dropped = drop_lead_exec(&start, '+');
            let cont = trim_both(&dropped);
            let k = out.len() - 1;
            let mut last = out[k].clone();
            last.push(' ');
            push_all(&mut last, &cont);
            proof {
                assert(last@ == out@[k as int]@ + seq![' '] + cont@);
            }
            out.set(k, last);
            proof {
                assert(vv(out@) =~= stmts_of_lines(lsv.take(i as int)).update(
                    k as int,
                    stmts_of_lines(lsv.take(i as int)).last() + seq![' '] + cont@,
                ));
            }
            i += 1;
            continue;
        }
        out.push(whole);
        proof {
            assert(vv(out@) =~= stmts_of_lines(lsv.take(i as int)).push(trim(line@)));
        }
        i += 1;
    }
    proof {
        assert(lsv.take(ls.len() as int) =~= lsv);
    }
    out
}


// ---------------------------------------------------------------- devices

/// Terminal count of a device kind with a fixed count (X varies; others unknown).
pub open spec fn fixed_terms_spec(kind: char) -> Option<nat> {
    if kind == 'M' {
        Some(4)
    } else if kind == 'Q' {
        Some(3)
    } else if kind == 'R' || kind == 'C' || kind == 'L' || kind == 'D' {
        Some(2)
    } else {
        None
    }
}

fn fixed_terms(kind: char) -> (r: Option<usize>)
    ensures
        r matches Some(n) ==> fixed_terms_spec(kind) == Some(n as nat),
        r is None <==> fixed_terms_spec(kind) is None,
{
    if kind == 'M' {
        Some(4)
    } else if kind == 'Q' {
        Some(3)
    } else if kind == 'R' || kind == 'C' || kind == 'L' || kind == 'D' {
        Some(2)
    } else {
        None
    }
}

/// `t` up to its first `=`.
pub open spec fn before_eq(t: Seq<char>) -> Seq<char>
    decreases t.len(),
{
    if t.len() == 0 || t[0] == '=' {
        Seq::empty()
    } else {
        seq![t[0]] + before_eq(t.drop_first())
    }
}

/// The `key=value` tokens of `rest` as (lower-cased key, value) pairs, in order.
pub open spec fn kv_params(rest: Seq<Seq<char>>) -> Seq<(Seq<char>, Seq<char>)>
    decreases rest.len(),
{
    if rest.len() == 0 {
        Seq::empty()
    } else {
        let t = rest.last();
        let earlier = kv_params(rest.drop_last());
        if t.contains('=') {
            let k = before_eq(t);
            earlier.push((lower(k), t.skip(k.len() + 1int)))
        } else {
            earlier
        }
    }
}

/// The parameters of a device: for R/C/L a plain (non `key=value`) value
/// token is the `value` parameter; then every `key=value` token after the model.
pub open spec fn params_spec(kind: char, model: Seq<char>, rest: Seq<Seq<char>>) -> Seq<
    (Seq<char>, Seq<char>),
> {
    let v: Seq<(Seq<char>, Seq<char>)> = if (kind == 'R' || kind == 'C' || kind == 'L')
        && model.len() > 0 && !model.contains('=') {
        seq![("value"@, model)]
    } else {
        Seq::empty()
    };
    v + kv_params(rest)
}

/// What one device statement gives.
pub ghost enum DevRead {
    /// Not a device this reader types (an unknown kind, or an `X` without a subcircuit).
    Skip,
    /// A device with fewer terminals than its kind needs: an error, with its message.
    Bad(Seq<char>),
    Dev(DeviceV),
}

/// The first character of a token, upper-cased (`?` for an empty token).
pub open spec fn kind_of(name: Seq<char>) -> char {
    if name.len() > 0 { upper_char(name[0]) } else { '?' }
}

/// A device's kind does not depend on the case of its name's first letter,
/// and is never a lower-case letter: `m1` and `M1` are both MOSFETs.
pub proof fn lemma_kind_case_insensitive(name: Seq<char>)
    requires
        name.len() > 0,
    ensures
        kind_of(name.update(0, crate::text::lower_char(name[0]))) == kind_of(name),
        kind_of(name.update(0, upper_char(name[0]))) == kind_of(name),
        !('a' <= kind_of(name) && kind_of(name) <= 'z'),
        ('a' <= name[0] && name[0] <= 'z') || ('A' <= name[0] && name[0] <= 'Z') ==> ('A' <= kind_of(name) && kind_of(name) <= 'Z'),
{
    let c = name[0];
    assert(name.update(0, crate::text::lower_char(c))[0] == crate::text::lower_char(c));
    assert(name.update(0, upper_char(c))[0] == upper_char(c));
    if 'a' <= c && c <= 'z' {
        assert((c as u32) - 32 >= 'A' as u32);
    }
}

/// The statement words a device takes as its terminals: a MOSFET (`M`) the
/// four after its name, a bipolar transistor (`Q`) three, a resistor,
/// capacitor, inductor or diode (`R`, `C`, `L`, `D`) two, each then with the
/// next word, if any, as its model or value, and too few words an error; a
/// subcircuit instance (`X`) every word between its name and the last, which
/// names the subcircuit, and it is skipped with fewer than three words; any
/// other statement is no device and is skipped.
pub proof fn lemma_device_terminals(toks: Seq<Seq<char>>)
    requires
        toks.len() > 0,
        toks[0].len() > 0,
    ensures
        ({
            let c = toks[0][0];
            let p = parse_device_spec(toks);
            let n: int = if c == 'M' || c == 'm' {
                4
            } else if c == 'Q' || c == 'q' {
                3
            } else if c == 'R' || c == 'r' || c == 'C' || c == 'c' || c == 'L' || c == 'l' || c == 'D' || c == 'd' {
                2
            } else {
                -1
            };
            &&& n >= 0 ==> (p is Bad <==> toks.len() < 1 + n)
            &&& n >= 0 && toks.len() >= 1 + n ==> p is Dev && p->Dev_0.name == toks[0] && p->Dev_0.kind == upper_char(c)
                && p->Dev_0.nodes == toks.subrange(1, 1 + n) && p->Dev_0.model == (if toks.len() > 1 + n {
                toks[1 + n]
            } else {
                Seq::empty()
            })
            &&& (c == 'X' || c == 'x') ==> (p is Skip <==> toks.len() < 3)
            &&& (c == 'X' || c == 'x') && toks.len() >= 3 ==> p is Dev && p->Dev_0.name == toks[0] && p->Dev_0.kind == 'X'
                && p->Dev_0.nodes == toks.subrange(1, toks.len() - 1) && p->Dev_0.model == toks.last()
            &&& n < 0 && c != 'X' && c != 'x' ==> p is Skip
        }),
{
    let c = toks[0][0];
    if 'a' <= c && c <= 'z' {
        assert((c as u32) - 32 >= 'A' as u32);
    }
}

/// Reading a device statement does not depend on the case of the instance
/// name's first letter: the same statement with that letter lower-cased is a
/// device exactly when the original is, of the same kind, nodes, model and
/// parameters (only the name keeps its case).
pub proof fn lemma_device_case_insensitive(toks: Seq<Seq<char>>)
    requires
        toks.len() > 0,
        toks[0].len() > 0,
    ensures
        ({
            let low = toks.update(0, toks[0].update(0, crate::text::lower_char(toks[0][0])));
            let p1 = parse_device_spec(toks);
            let p2 = parse_device_spec(low);
            &&& (p1 is Skip) == (p2 is Skip)
            &&& (p1 is Dev) == (p2 is Dev)
            &&& (p1 is Dev ==> p1->Dev_0.kind == p2->Dev_0.kind && p1->Dev_0.nodes == p2->Dev_0.nodes && p1->Dev_0.model
                == p2->Dev_0.model && p1->Dev_0.params == p2->Dev_0.params && p2->Dev_0.name == low[0])
        }),
{
    let low = toks.update(0, toks[0].update(0, crate::text::lower_char(toks[0][0])));
    lemma_kind_case_insensitive(toks[0]);
    assert(low[0] == toks[0].update(0, crate::text::lower_char(toks[0][0])));
    assert(kind_of(low[0]) == kind_of(toks[0]));
    assert(low.len() == toks.len());
    assert(low.subrange(1, low.len() as int) =~= toks.subrange(1, toks.len() as int));
    assert(low.skip(1) =~= toks.skip(1));
    assert forall|i: int| 1 <= i < toks.len() implies low[i] == toks[i] by {}
    if toks.len() >= 2 {
        assert(low.last() == toks.last());
    }
    let k = kind_of(toks[0]);
    match fixed_terms_spec(k) {
        Some(nt) => {
            if toks.len() >= 1 + nt {
                assert(low.subrange(1, 1 + nt as int) =~= toks.subrange(1, 1 + nt as int));
                if toks.len() > 1 + nt {
                    assert(low.skip(2 + nt as int) =~= toks.skip(2 + nt as int));
                }
            }
        },
        None => {},
    }
    if k == 'X' && toks.len() >= 3 {
        assert(low.subrange(1, low.len() - 1) =~= toks.subrange(1, toks.len() - 1));
    }
}

/// The message of a device with too few terminals.
pub open spec fn short_device_msg(toks: Seq<Seq<char>>, nt: nat) -> Seq<char> {
    "device "@ + toks[0] + " needs "@ + dec(nt) + " terminals: "@ + quoted(join(toks, " "@))
}

/// What Rust's `Debug` writes for the string `s`: `s` in double quotes,
/// with `\`, `"` and the characters `Debug` does not print as they are
/// (line breaks, control and other non-printable characters) escaped.
pub uninterp spec fn debug_str(s: Seq<char>) -> Seq<char>;

/// `s` as a message quotes it: as `Debug` writes it.
pub open spec fn quoted(s: Seq<char>) -> Seq<char> {
    debug_str(s)
}

/// `Debug` of a string: `format!("{:?}", s)`. Its result is named by
/// `debug_str`, a function of the characters of `s` alone; which characters
/// are escaped and how rests on std's Unicode tables, so nothing more of it
/// is stated.
#[verifier::external_body]
fn debug_text(s: &str) -> (r: String)
    ensures
        r@ == debug_str(s@),
{
    format!("{:?}", s)
}

/// The items of `v` separated by `sep`.
pub open spec fn join(v: Seq<Seq<char>>, sep: Seq<char>) -> Seq<char>
    decreases v.len(),
{
    if v.len() == 0 {
        Seq::empty()
    } else if v.len() == 1 {
        v[0]
    } else {
        join(v.drop_last(), sep) + sep + v.last()
    }
}

/// The device that a statement's tokens describe.
pub open spec fn parse_device_spec(toks: Seq<Seq<char>>) -> DevRead {
    let name = toks[0];
    let kind = kind_of(name);
    if kind == 'X' {
        if toks.len() < 3 {
            DevRead::Skip
        } else {
            DevRead::Dev(
                DeviceV {
                    kind,
                    name,
                    nodes: toks.subrange(1, toks.len() - 1),
                    model: toks.last(),
                    params: Seq::empty(),
                },
            )
        }
    } else {
        match fixed_terms_spec(kind) {
            None => DevRead::Skip,
            Some(nt) => if toks.len() < 1 + nt {
                DevRead::Bad(short_device_msg(toks, nt))
            } else {
                let model = if toks.len() > 1 + nt { toks[1 + nt as int] } else { Seq::empty() };
                let rest = if toks.len() > 1 + nt { toks.skip(2 + nt as int) } else { Seq::empty() };
                DevRead::Dev(
                    DeviceV {
                        kind,
                        name,
                        nodes: toks.subrange(1, 1 + nt as int),
                        model,
                        params: params_spec(kind, model, rest),
                    },
                )
            },
        }
    }
}


/// Strings made from `v[lo..hi]`.
pub fn strings_of(v: &Vec<Vec<char>>, lo: usize, hi: usize) -> (r: Vec<String>)
    requires
        lo <= hi <= v.len(),
    ensures
        strs(r@) == vv(v@).subrange(lo as int, hi as int),
{
    let mut r: Vec<String> = Vec::new();
    let mut i = lo;
    while i < hi
        invariant
            lo <= i <= hi <= v.len(),
            strs(r@) == vv(v@).subrange(lo as int, i as int),
        decreases hi - i,
    {
        let s = string_of(&v[i]);
        let ghost r0 = r@;
        r.push(s);
        proof {
            assert(r@ == r0.push(s));
            assert(strs(r@) =~= strs(r0).push(s@));
            assert(vv(v@)[i as int] == v@[i as int]@);
            assert(strs(r@) =~= vv(v@).subrange(lo as int, i + 1));
        }
        i += 1;
    }
    r
}

/// Appends `quoted(v)` to `out`.
pub fn push_quoted(out: &mut Vec<char>, v: &Vec<char>)
    ensures
        final(out)@ == old(out)@ + quoted(v@),
{
    let t = string_of(v);
    let q = debug_text(t.as_str());
    push_all(out, &chars_of(q.as_str()));
}

/// Appends `join(v, sep)` to `out`.
pub fn push_join(out: &mut Vec<char>, v: &Vec<Vec<char>>, sep: &str)
    ensures
        final(out)@ == old(out)@ + join(vv(v@), sep@),
{
    let ghost o = out@;
    let mut j: Vec<char> = Vec::new();
    let mut i: usize = 0;
    while i < v.len()
        invariant
            i <= v.len(),
            j@ == join(vv(v@).take(i as int), sep@),
        decreases v.len() - i,
    {
        proof {
            assert(vv(v@).take(i + 1).drop_last() =~= vv(v@).take(i as int));
        }
        if i > 0 {
            push_str(&mut j, sep);
        }
        push_all(&mut j, &v[i]);
        proof {
            if i == 0 {
                assert(j@ =~= vv(v@).take(1)[0]);
            }
        }
        i += 1;
    }
    proof {
        assert(vv(v@).take(v.len() as int) =~= vv(v@));
    }
    push_all(out, &j);
}

/// Position of the first `=` in `t` (or its length).
fn eq_pos(t: &Vec<char>) -> (i: usize)
    ensures
        i <= t.len(),
        before_eq(t@) == t@.take(i as int),
        t@.contains('=') <==> i < t.len(),
{
    let mut i: usize = 0;
    while i < t.len() && t[i] != '='
        invariant
            i <= t.len(),
            forall|k: int| 0 <= k < i ==> t@[k] != '=',
        decreases t.len() - i,
    {
        i += 1;
    }
    proof {
        lemma_before_eq(t@, i as int);
        if i < t.len() {
            assert(t@[i as int] == '=');
        } else {
            assert(!t@.contains('='));
        }
    }
    i
}

proof fn lemma_before_eq(t: Seq<char>, i: int)
    requires
        0 <= i <= t.len(),
        forall|k: int| 0 <= k < i ==> t[k] != '=',
        i == t.len() || t[i] == '=',
    ensures
        before_eq(t) == t.take(i),
    decreases i,
{
    if i == 0 {
        assert(t.take(0) =~= Seq::<char>::empty());
    } else {
        let u = t.drop_first();
        assert forall|k: int| 0 <= k < i - 1 implies u[k] != '=' by {
            assert(u[k] == t[k + 1]);
        }
        lemma_before_eq(u, i - 1);
        assert(seq![t[0]] + u.take(i - 1) =~= t.take(i));
    }
}

/// The parameters of a device (see `params_spec`).
fn read_params(kind: char, model: &Vec<char>, toks: &Vec<Vec<char>>, from: usize) -> (r: Vec<
    (String, String),
>)
    requires
        from <= toks.len(),
    ensures
        pairs(r@) == params_spec(kind, model@, vv(toks@).skip(from as int)),
{
    let mut r: Vec<(String, String)> = Vec::new();
    if (kind == 'R' || kind == 'C' || kind == 'L') && model.len() > 0 && eq_pos(model) == model.len() {
        let key = string_of(&chars_of("value"));
        r.push((key, string_of(model)));
    }
    let ghost base = pairs(r@);
    proof {
        assert(base + kv_params(vv(toks@).skip(from as int).take(0)) =~= base);
    }
    let mut i = from;
    while i < toks.len()
        invariant
            from <= i <= toks.len(),
            pairs(r@) == base + kv_params(vv(toks@).skip(from as int).take(i - from)),
        decreases toks.len() - i,
    {
        let ghost rest = vv(toks@).skip(from as int);
        proof {
            assert(rest.take(i - from + 1).drop_last() =~= rest.take(i - from));
            assert(rest.take(i - from + 1).last() == toks@[i as int]@);
        }
        let t = &toks[i];
        let e = eq_pos(t);
        if e < t.len() {
            let k = slice_of(t, 0, e);
            let kl = lower_vec(&k);
            let v = slice_of(t, e + 1, t.len());
            proof {
                assert(v@ =~= t@.skip(e + 1));
            }
            let ks = string_of(&kl);
            let vs = string_of(&v);
            let ghost r0 = r@;
            r.push((ks, vs));
            proof {
                assert(before_eq(t@).len() == e);
                assert(kl@ == lower(before_eq(t@)));
                assert(pairs(r@) =~= pairs(r0).push((ks@, vs@)));
                assert(pairs(r@) =~= base + kv_params(rest.take(i - from)).push(
                    (lower(before_eq(t@)), t@.skip(before_eq(t@).len() + 1int)),
                ));
            }
        }
        i += 1;
    }
    proof {
        let rest = vv(toks@).skip(from as int);
        assert(rest.take(toks.len() - from) =~= rest);
        if (kind == 'R' || kind == 'C' || kind == 'L') && model@.len() > 0 && !model@.contains('=') {
            reveal_strlit("value");
        }
    }
    r
}

/// The device a statement's tokens describe (see `parse_device_spec`).
fn parse_device(toks: &Vec<Vec<char>>) -> (r: Result<Option<Device>, SpiceError>)
    requires
        toks.len() >= 1,
    ensures
        match parse_device_spec(vv(toks@)) {
            DevRead::Skip => r matches Ok(None),
            DevRead::Bad(m) => r matches Err(e) && e.0@ == m,
            DevRead::Dev(d) => r matches Ok(Some(dev)) && dev@ == d,
        },
{
    let name = &toks[0];
    let kind = if name.len() > 0 { ascii_upper(name[0]) } else { '?' };
    let ghost tv = vv(toks@);
    proof {
        assert(tv[0] == name@);
    }
    if kind == 'X' {
        if toks.len() < 3 {
            return Ok(None);
        }
        let last = toks.len() - 1;
        let d = Device {
            kind,
            name: string_of(name),
            nodes: strings_of(toks, 1, last),
            model: string_of(&toks[last]),
            params: Vec::new(),
        };
        proof {
            assert(pairs(d.params@) =~= Seq::<(Seq<char>, Seq<char>)>::empty());
        }
        return Ok(Some(d));
    }
    match fixed_terms(kind) {
        None => Ok(None),
        Some(nt) => {
            if toks.len() < 1 + nt {
                let mut m: Vec<char> = Vec::new();
                push_str(&mut m, "device ");
                push_all(&mut m, name);
                push_str(&mut m, " needs ");
                push_dec(&mut m, nt);
                push_str(&mut m, " terminals: ");
                let mut j: Vec<char> = Vec::new();
                push_join(&mut j, toks, " ");
                push_quoted(&mut m, &j);
                proof {
                    assert(m@ =~= short_device_msg(tv, nt as nat));
                }
                return Err(SpiceError(string_of(&m)));
            }
            let empty: Vec<char> = Vec::new();
            let model: &Vec<char> = if toks.len() > 1 + nt { &toks[1 + nt] } else { &empty };
            let from = if toks.len() > 1 + nt { 2 + nt } else { toks.len() };
            let params = read_params(kind, model, toks, from);
            proof {
                if toks.len() <= 1 + nt {
                    assert(tv.skip(from as int) =~= Seq::<Seq<char>>::empty());
                }
            }
            let d = Device {
                kind,
                name: string_of(name),
                nodes: strings_of(toks, 1, 1 + nt),
                model: string_of(model),
                params,
            };
            Ok(Some(d))
        },
    }
}


// ---------------------------------------------------------------- flattening

/// Recursion guard: a self-referential subcircuit is not expanded past this depth.
pub const MAX_HIER_DEPTH: usize = 100;

/// The last definition in `defs` whose lower-cased name is `key`.
pub open spec fn table_find(defs: Seq<NetlistV>, key: Seq<char>) -> Option<NetlistV>
    decreases defs.len(),
{
    if defs.len() == 0 {
        None
    } else if lower(defs.last().name) == key {
        Some(defs.last())
    } else {
        table_find(defs.drop_last(), key)
    }
}

/// The actual bound to `formal` (the last binding wins).
pub open spec fn subst_find(sub: Seq<(Seq<char>, Seq<char>)>, formal: Seq<char>) -> Option<Seq<char>>
    decreases sub.len(),
{
    if sub.len() == 0 {
        None
    } else if sub.last().0 == formal {
        Some(sub.last().1)
    } else {
        subst_find(sub.drop_last(), formal)
    }
}

/// A node resolved in the current frame: a bound formal becomes its actual, a
/// global stays itself, any other (internal) net gets the instance-path prefix.
pub open spec fn resolve_node(
    node: Seq<char>,
    sub: Seq<(Seq<char>, Seq<char>)>,
    globals: Seq<Seq<char>>,
    prefix: Seq<char>,
) -> Seq<char> {
    match subst_find(sub, node) {
        Some(a) => a,
        None => if globals.contains(node) { node } else { prefix + node },
    }
}

/// A global net stays itself wherever it is met: in any frame where it is not
/// a bound formal, whatever the instance path, it resolves to its own name.
pub proof fn lemma_global_stays(node: Seq<char>, sub: Seq<(Seq<char>, Seq<char>)>, globals: Seq<Seq<char>>, prefix: Seq<char>)
    requires
        globals.contains(node),
        forall|i: int| 0 <= i < sub.len() ==> #[trigger] sub[i].0 != node,
    ensures
        resolve_node(node, sub, globals, prefix) == node,
{
    lemma_unbound(sub, node);
}

proof fn lemma_unbound(sub: Seq<(Seq<char>, Seq<char>)>, node: Seq<char>)
    requires
        forall|i: int| 0 <= i < sub.len() ==> #[trigger] sub[i].0 != node,
    ensures
        subst_find(sub, node) is None,
    decreases sub.len(),
{
    if sub.len() > 0 {
        assert(sub[sub.len() - 1].0 != node);
        assert forall|i: int| 0 <= i < sub.drop_last().len() implies #[trigger] sub.drop_last()[i].0 != node by {
            assert(sub.drop_last()[i] == sub[i]);
        }
        lemma_unbound(sub.drop_last(), node);
    }
}

/// Inside an instance of a subcircuit, a global net that is not one of the
/// subcircuit's ports stays global: it is not made private to the instance,
/// at any depth and under any instance path.
pub proof fn lemma_global_in_instance(
    def: NetlistV,
    actuals: Seq<Seq<char>>,
    node: Seq<char>,
    globals: Seq<Seq<char>>,
    prefix: Seq<char>,
)
    requires
        actuals.len() == def.ports.len(),
        globals.contains(node),
        !def.ports.contains(node),
    ensures
        resolve_node(node, zip(def.ports, actuals), globals, prefix) == node,
{
    let sub = zip(def.ports, actuals);
    assert forall|i: int| 0 <= i < sub.len() implies #[trigger] sub[i].0 != node by {
        assert(sub[i].0 == def.ports[i]);
    }
    lemma_global_stays(node, sub, globals, prefix);
}

/// Inside an instance, a formal port of the subcircuit becomes the net
/// passed for it at the call site (for a port named twice, the later one),
/// whether or not that name is also global, under any instance path.
pub proof fn lemma_formal_bound(
    def: NetlistV,
    actuals: Seq<Seq<char>>,
    k: int,
    globals: Seq<Seq<char>>,
    prefix: Seq<char>,
)
    requires
        actuals.len() == def.ports.len(),
        0 <= k < def.ports.len(),
        forall|j: int| k < j < def.ports.len() ==> #[trigger] def.ports[j] != def.ports[k],
    ensures
        resolve_node(def.ports[k], zip(def.ports, actuals), globals, prefix) == actuals[k],
{
    let sub = zip(def.ports, actuals);
    assert forall|j: int| k < j < sub.len() implies #[trigger] sub[j].0 != sub[k].0 by {
        assert(sub[j].0 == def.ports[j]);
    }
    lemma_subst_last(sub, k);
}

proof fn lemma_subst_last(sub: Seq<(Seq<char>, Seq<char>)>, k: int)
    requires
        0 <= k < sub.len(),
        forall|j: int| k < j < sub.len() ==> #[trigger] sub[j].0 != sub[k].0,
    ensures
        subst_find(sub, sub[k].0) == Some(sub[k].1),
    decreases sub.len(),
{
    if k < sub.len() - 1 {
        let p = sub.drop_last();
        assert(sub[sub.len() - 1].0 != sub[k].0);
        assert forall|j: int| k < j < p.len() implies #[trigger] p[j].0 != p[k].0 by {
            assert(p[j] == sub[j]);
        }
        lemma_subst_last(p, k);
        assert(p[k] == sub[k]);
    }
}

/// Any other net of an instance, neither a bound formal nor global, is made
/// private to it: it gets the instance path in front of its name.
pub proof fn lemma_internal_prefixed(node: Seq<char>, sub: Seq<(Seq<char>, Seq<char>)>, globals: Seq<Seq<char>>, prefix: Seq<char>)
    requires
        !globals.contains(node),
        forall|i: int| 0 <= i < sub.len() ==> #[trigger] sub[i].0 != node,
    ensures
        resolve_node(node, sub, globals, prefix) == prefix + node,
{
    lemma_unbound(sub, node);
}

/// SPICE ground `0` is a global net of every netlist read, and every
/// `.global` name read is too: the globals only ever grow.
pub proof fn lemma_ground_global(stmts: Seq<Seq<char>>)
    ensures
        read_all(stmts).globals.len() >= 1,
        read_all(stmts).globals[0] == "0"@,
        read_all(stmts).globals.contains("0"@),
    decreases stmts.len(),
{
    if stmts.len() > 0 {
        lemma_ground_global(stmts.drop_last());
        let st = read_all(stmts.drop_last());
        let t = stmts.last();
        assert(read_all(stmts) == read_step(st, t));
        let toks = tokens(t);
        if !(st.err is Some || st.stuck || toks.len() == 0) && lower(toks[0]) == ".global"@ {
            assert((st.globals + toks.skip(1))[0] == st.globals[0]);
        }
    }
    assert(read_all(stmts).globals[0] == "0"@);
}

pub open spec fn zip(a: Seq<Seq<char>>, b: Seq<Seq<char>>) -> Seq<(Seq<char>, Seq<char>)> {
    Seq::new(a.len(), |i: int| (a[i], b[i]))
}

/// The devices that the cell devices `ds` expand to.
pub open spec fn expand_spec(
    ds: Seq<DeviceV>,
    defs: Seq<NetlistV>,
    globals: Seq<Seq<char>>,
    sub: Seq<(Seq<char>, Seq<char>)>,
    prefix: Seq<char>,
    depth: nat,
) -> Seq<DeviceV>
    decreases (if depth <= 100 { 100 - depth } else { 0 }), ds.len(),
{
    if ds.len() == 0 {
        Seq::empty()
    } else {
        expand_spec(ds.drop_last(), defs, globals, sub, prefix, depth) + expand_one(
            ds.last(),
            defs,
            globals,
            sub,
            prefix,
            depth,
        )
    }
}

/// What one device expands to: an `X` instance of a defined subcircuit with
/// matching arity (below the depth limit) becomes that subcircuit's devices,
/// with its ports bound to the resolved call-site nets and its internal names
/// under `prefix + instance + "/"`; any other device is kept, renamed under
/// `prefix`, with its nodes resolved.
pub open spec fn expand_one(
    d: DeviceV,
    defs: Seq<NetlistV>,
    globals: Seq<Seq<char>>,
    sub: Seq<(Seq<char>, Seq<char>)>,
    prefix: Seq<char>,
    depth: nat,
) -> Seq<DeviceV>
    decreases (if depth <= 100 { 100 - depth } else { 0 }), 0nat,
{
    let nodes = d.nodes.map_values(|n: Seq<char>| resolve_node(n, sub, globals, prefix));
    let found = if d.kind == 'X' { table_find(defs, lower(d.model)) } else { None };
    match found {
        Some(def) => if depth < 100 && def.ports.len() == nodes.len() {
            expand_spec(
                def.devices,
                defs,
                globals,
                zip(def.ports, nodes),
                prefix + d.name + seq!['/'],
                depth + 1,
            )
        } else {
            seq![DeviceV { name: prefix + d.name, nodes, ..d }]
        },
        None => seq![DeviceV { name: prefix + d.name, nodes, ..d }],
    }
}

/// Every device that flattening produces under an instance path carries that
/// path at the front of its name.
pub proof fn lemma_expand_names(
    ds: Seq<DeviceV>,
    defs: Seq<NetlistV>,
    globals: Seq<Seq<char>>,
    sub: Seq<(Seq<char>, Seq<char>)>,
    prefix: Seq<char>,
    depth: nat,
)
    ensures
        forall|i: int| 0 <= i < expand_spec(ds, defs, globals, sub, prefix, depth).len()
            ==> (#[trigger] expand_spec(ds, defs, globals, sub, prefix, depth)[i]).name.len() >= prefix.len()
            && expand_spec(ds, defs, globals, sub, prefix, depth)[i].name.take(prefix.len() as int) == prefix,
    decreases (if depth <= 100 { 100 - depth } else { 0 }), ds.len(),
{
    if ds.len() > 0 {
        lemma_expand_names(ds.drop_last(), defs, globals, sub, prefix, depth);
        lemma_expand_one_names(ds.last(), defs, globals, sub, prefix, depth);
        let l = expand_spec(ds.drop_last(), defs, globals, sub, prefix, depth);
        let r = expand_one(ds.last(), defs, globals, sub, prefix, depth);
        assert(expand_spec(ds, defs, globals, sub, prefix, depth) == l + r);
        assert forall|i: int| 0 <= i < (l + r).len() implies (#[trigger] (l + r)[i]).name.len() >= prefix.len()
            && (l + r)[i].name.take(prefix.len() as int) == prefix by {
            if i < l.len() {
                assert((l + r)[i] == l[i]);
            } else {
                assert((l + r)[i] == r[i - l.len()]);
            }
        }
    }
}

proof fn lemma_expand_one_names(
    d: DeviceV,
    defs: Seq<NetlistV>,
    globals: Seq<Seq<char>>,
    sub: Seq<(Seq<char>, Seq<char>)>,
    prefix: Seq<char>,
    depth: nat,
)
    ensures
        forall|i: int| 0 <= i < expand_one(d, defs, globals, sub, prefix, depth).len()
            ==> (#[trigger] expand_one(d, defs, globals, sub, prefix, depth)[i]).name.len() >= prefix.len()
            && expand_one(d, defs, globals, sub, prefix, depth)[i].name.take(prefix.len() as int) == prefix,
    decreases (if depth <= 100 { 100 - depth } else { 0 }), 0nat,
{
    let nodes = d.nodes.map_values(|n: Seq<char>| resolve_node(n, sub, globals, prefix));
    let found = if d.kind == 'X' { table_find(defs, lower(d.model)) } else { None };
    assert((prefix + d.name).take(prefix.len() as int) =~= prefix);
    match found {
        Some(def) => if depth < 100 && def.ports.len() == nodes.len() {
            let p2 = prefix + d.name + seq!['/'];
            lemma_expand_names(def.devices, defs, globals, zip(def.ports, nodes), p2, depth + 1);
            let e = expand_spec(def.devices, defs, globals, zip(def.ports, nodes), p2, depth + 1);
            assert forall|i: int| 0 <= i < e.len() implies (#[trigger] e[i]).name.len() >= prefix.len()
                && e[i].name.take(prefix.len() as int) == prefix by {
                let nm = e[i].name;
                assert(nm.len() >= p2.len());
                assert(nm.take(p2.len() as int) == p2);
                assert(nm.take(prefix.len() as int) =~= nm.take(p2.len() as int).take(prefix.len() as int));
                assert(p2.take(prefix.len() as int) =~= prefix);
            }
        } else {
        },
        None => {},
    }
}

/// `top` flattened against the subcircuit definitions `defs`.
pub open spec fn flatten_spec(top: NetlistV, defs: Seq<NetlistV>, globals: Seq<Seq<char>>) -> NetlistV {
    NetlistV {
        devices: expand_spec(top.devices, defs, globals, Seq::empty(), Seq::empty(), 0),
        ..top
    }
}

/// `d` is kept as it is by flattening: it is not an instance of a defined
/// subcircuit whose ports match its nodes in number.
pub open spec fn kept_by_flatten(d: DeviceV, defs: Seq<NetlistV>) -> bool {
    d.kind != 'X' || match table_find(defs, lower(d.model)) {
        Some(def) => def.ports.len() != d.nodes.len(),
        None => true,
    }
}

proof fn lemma_flat_devices_unchanged(ds: Seq<DeviceV>, defs: Seq<NetlistV>, globals: Seq<Seq<char>>)
    requires
        forall|i: int| 0 <= i < ds.len() ==> #[trigger] kept_by_flatten(ds[i], defs),
    ensures
        expand_spec(ds, defs, globals, Seq::empty(), Seq::empty(), 0) == ds,
    decreases ds.len(),
{
    if ds.len() > 0 {
        lemma_flat_devices_unchanged(ds.drop_last(), defs, globals);
        let d = ds.last();
        assert(kept_by_flatten(ds[ds.len() - 1], defs));
        let nodes = d.nodes.map_values(|n: Seq<char>| resolve_node(n, Seq::empty(), globals, Seq::empty()));
        assert forall|p: int| 0 <= p < d.nodes.len() implies nodes[p] == d.nodes[p] by {
            assert(subst_find(Seq::empty(), d.nodes[p]) is None);
            assert(Seq::<char>::empty() + d.nodes[p] =~= d.nodes[p]);
        }
        assert(nodes =~= d.nodes);
        assert(Seq::<char>::empty() + d.name =~= d.name);
        assert(DeviceV { name: Seq::<char>::empty() + d.name, nodes, ..d } == d);
        assert(expand_one(d, defs, globals, Seq::empty(), Seq::empty(), 0) =~= seq![d]);
        assert(ds =~= ds.drop_last().push(d));
    }
}

/// A cell none of whose devices is an instance of a defined subcircuit of
/// matching arity is its own flattening: flattening renames nothing and
/// rewires nothing.
pub proof fn lemma_flat_cell_unchanged(top: NetlistV, defs: Seq<NetlistV>, globals: Seq<Seq<char>>)
    requires
        forall|i: int| 0 <= i < top.devices.len() ==> #[trigger] kept_by_flatten(top.devices[i], defs),
    ensures
        flatten_spec(top, defs, globals) == top,
{
    lemma_flat_devices_unchanged(top.devices, defs, globals);
}

pub open spec fn nets(v: Seq<Netlist>) -> Seq<NetlistV> {
    v.map_values(|n: Netlist| n@)
}

/// Index of the last definition whose lower-cased name is `key`.
fn find_def(keys: &Vec<Vec<char>>, key: &Vec<char>, Ghost(defs): Ghost<Seq<NetlistV>>) -> (r: Option<usize>)
    requires
        keys.len() == defs.len(),
        forall|i: int| 0 <= i < defs.len() ==> #[trigger] keys@[i]@ == lower(defs[i].name),
    ensures
        match r {
            Some(i) => i < defs.len() && table_find(defs, key@) == Some(defs[i as int]),
            None => table_find(defs, key@) is None,
        },
{
    let mut i = keys.len();
    proof {
        assert(defs.take(i as int) =~= defs);
    }
    while i > 0
        invariant
            i <= keys.len() == defs.len(),
            forall|k: int| 0 <= k < defs.len() ==> #[trigger] keys@[k]@ == lower(defs[k].name),
            table_find(defs, key@) == table_find(defs.take(i as int), key@),
        decreases i,
    {
        let ghost t = defs.take(i as int);
        proof {
            assert(t.drop_last() =~= defs.take(i - 1));
            assert(t.last() == defs[i - 1]);
        }
        if eq_chars(&keys[i - 1], key) {
            return Some(i - 1);
        }
        i -= 1;
    }
    None
}

fn find_subst(sub: &Vec<(String, String)>, node: &String) -> (r: Option<usize>)
    ensures
        match r {
            Some(i) => i < sub.len() && subst_find(pairs(sub@), node@) == Some(sub@[i as int].1@),
            None => subst_find(pairs(sub@), node@) is None,
        },
{
    let ghost p = pairs(sub@);
    let mut i = sub.len();
    proof {
        assert(p.take(i as int) =~= p);
    }
    while i > 0
        invariant
            i <= sub.len(),
            p == pairs(sub@),
            subst_find(p, node@) == subst_find(p.take(i as int), node@),
        decreases i,
    {
        proof {
            assert(p.take(i as int).drop_last() =~= p.take(i - 1));
            assert(p.take(i as int).last() == (sub@[i - 1].0@, sub@[i - 1].1@));
        }
        if sub[i - 1].0 == *node {
            return Some(i - 1);
        }
        i -= 1;
    }
    None
}

fn contains_str(v: &Vec<String>, s: &String) -> (r: bool)
    ensures
        r == strs(v@).contains(s@),
{
    let mut i: usize = 0;
    while i < v.len()
        invariant
            i <= v.len(),
            forall|k: int| 0 <= k < i ==> v@[k]@ != s@,
        decreases v.len() - i,
    {
        if v[i] == *s {
            proof {
                assert(strs(v@)[i as int] == s@);
            }
            return true;
        }
        i += 1;
    }
    proof {
        if strs(v@).contains(s@) {
            let k = choose|k: int| 0 <= k < strs(v@).len() && strs(v@)[k] == s@;
            assert(v@[k]@ == s@);
        }
    }
    false
}

fn resolve(node: &String, sub: &Vec<(String, String)>, globals: &Vec<String>, prefix: &Vec<char>) -> (r:
    String)
    ensures
        r@ == resolve_node(node@, pairs(sub@), strs(globals@), prefix@),
{
    match find_subst(sub, node) {
        Some(i) => sub[i].1.clone(),
        None => {
            if contains_str(globals, node) {
                node.clone()
            } else {
                let mut v = prefix.clone();
                push_str(&mut v, node.as_str());
                string_of(&v)
            }
        },
    }
}

#[verifier::loop_isolation(false)]
fn expand(
    ds: &Vec<Device>,
    table: &Vec<Netlist>,
    keys: &Vec<Vec<char>>,
    globals: &Vec<String>,
    sub: &Vec<(String, String)>,
    prefix: &Vec<char>,
    depth: usize,
    out: &mut Vec<Device>,
)
    requires
        depth <= MAX_HIER_DEPTH,
        keys.len() == table.len(),
        forall|i: int| 0 <= i < table.len() ==> #[trigger] keys@[i]@ == lower(table@[i]@.name),
    ensures
        devs(final(out)@) == devs(old(out)@) + expand_spec(
            devs(ds@),
            nets(table@),
            strs(globals@),
            pairs(sub@),
            prefix@,
            depth as nat,
        ),
    decreases MAX_HIER_DEPTH - depth,
{
    let ghost defs = nets(table@);
    let ghost dv = devs(ds@);
    let ghost o = devs(out@);
    proof {
        assert forall|i: int| 0 <= i < defs.len() implies #[trigger] keys@[i]@ == lower(defs[i].name) by {
            assert(defs[i] == table@[i]@);
        }
        assert(dv.take(0) =~= Seq::<DeviceV>::empty());
    }
    let mut i: usize = 0;
    while i < ds.len()
        invariant
            i <= ds.len(),
            devs(out@) == o + expand_spec(dv.take(i as int), defs, strs(globals@), pairs(sub@), prefix@, depth as nat),
        decreases ds.len() - i,
    {
        let d = &ds[i];
        proof {
            assert(dv.take(i + 1).drop_last() =~= dv.take(i as int));
            assert(dv.take(i + 1).last() == d@);
        }
        let ghost rn = d@.nodes.map_values(|n: Seq<char>| resolve_node(n, pairs(sub@), strs(globals@), prefix@));
        let mut nodes: Vec<String> = Vec::new();
        let mut k: usize = 0;
        while k < d.nodes.len()
            invariant
                k <= d.nodes.len(),
                strs(nodes@) == rn.take(k as int),
            decreases d.nodes.len() - k,
        {
            let n = resolve(&d.nodes[k], sub, globals, prefix);
            let ghost n0 = nodes@;
            nodes.push(n);
            proof {
                assert(strs(nodes@) =~= strs(n0).push(n@));
                assert(strs(nodes@) =~= rn.take(k + 1));
            }
            k += 1;
        }
        proof {
            assert(rn.take(d.nodes.len() as int) =~= rn);
        }
        let ghost oi = devs(out@);
        let ghost one = expand_one(d@, defs, strs(globals@), pairs(sub@), prefix@, depth as nat);
        let found = if d.kind == 'X' {
            let mk = lower_vec(&chars_of(d.model.as_str()));
            find_def(keys, &mk, Ghost(defs))
        } else {
            None
        };
        proof {
            if d.kind != 'X' {
                assert(found is None);
            }
        }
        let mut expanded = false;
        if let Some(ti) = found {
            let def = &table[ti];
            proof {
                assert(defs[ti as int] == def@);
            }
            if depth < MAX_HIER_DEPTH && def.ports.len() == nodes.len() {
                let mut csub: Vec<(String, String)> = Vec::new();
                let mut j: usize = 0;
                while j < def.ports.len()
                    invariant
                        j <= def.ports.len() == nodes.len(),
                        pairs(csub@) == zip(strs(def.ports@), strs(nodes@)).take(j as int),
                    decreases def.ports.len() - j,
                {
                    let ghost c0 = csub@;
                    csub.push((def.ports[j].clone(), nodes[j].clone()));
                    proof {
                        assert(pairs(csub@) =~= pairs(c0).push((def.ports@[j as int]@, nodes@[j as int]@)));
                        assert(pairs(csub@) =~= zip(strs(def.ports@), strs(nodes@)).take(j + 1));
                    }
                    j += 1;
                }
                proof {
                    assert(zip(strs(def.ports@), strs(nodes@)).take(def.ports.len() as int) =~= zip(
                        strs(def.ports@),
                        strs(nodes@),
                    ));
                }
                let mut cp = prefix.clone();
                push_str(&mut cp, d.name.as_str());
                cp.push('/');
                expand(&def.devices, table, keys, globals, &csub, &cp, depth + 1, out);
                proof {
                    assert(cp@ =~= prefix@ + d@.name + seq!['/']);
                    assert(one == expand_spec(def@.devices, defs, strs(globals@), zip(def@.ports, rn), cp@, (depth + 1) as nat));
                    assert(devs(out@) == oi + one);
                }
                expanded = true;
            }
        }
        if !expanded {
            let mut nm = prefix.clone();
            push_str(&mut nm, d.name.as_str());
            let nd = Device {
                kind: d.kind,
                name: string_of(&nm),
                nodes,
                model: d.model.clone(),
                params: copy_pairs(&d.params),
            };
            let ghost o1 = out@;
            out.push(nd);
            proof {
                assert(devs(out@) =~= devs(o1).push(nd@));
                assert(one =~= seq![nd@]);
                assert(devs(out@) =~= oi + one);
            }
        }
        proof {
            assert(devs(out@) =~= o + expand_spec(dv.take(i + 1), defs, strs(globals@), pairs(sub@), prefix@, depth as nat));
        }
        i += 1;
    }
    proof {
        assert(dv.take(ds.len() as int) =~= dv);
    }
}

/// The lower-cased names of `table`'s definitions.
fn def_keys(table: &Vec<Netlist>) -> (keys: Vec<Vec<char>>)
    ensures
        keys.len() == table.len(),
        forall|i: int| 0 <= i < table.len() ==> #[trigger] keys@[i]@ == lower(table@[i]@.name),
{
    let mut keys: Vec<Vec<char>> = Vec::new();
    let mut i: usize = 0;
    while i < table.len()
        invariant
            i <= table.len(),
            keys.len() == i,
            forall|k: int| 0 <= k < i ==> #[trigger] keys@[k]@ == lower(table@[k]@.name),
        decreases table.len() - i,
    {
        keys.push(lower_vec(&chars_of(table[i].name.as_str())));
        i += 1;
    }
    keys
}

/// Recursively expands the cell's `X` instances down to primitive devices.
///
/// At each level a node resolves in the current namespace: a formal port maps
/// to the actual net at the call site, a global stays itself, and any other
/// (internal) net is prefixed with the instance path, so two instances of the
/// same cell get distinct internal nets. `table` holds the subcircuit
/// definitions, looked up by ASCII-case-insensitive name (the last of equal
/// names wins). An `X` whose subcircuit is absent, whose arity differs, or that
/// sits `MAX_HIER_DEPTH` levels deep is kept as an opaque device with its nodes
/// mapped.
pub fn flatten(top: &Netlist, table: &Vec<Netlist>, globals: &Vec<String>) -> (r: Netlist)
    ensures
        r@ == flatten_spec(top@, nets(table@), strs(globals@)),
{
    let keys = def_keys(table);
    let mut out: Vec<Device> = Vec::new();
    let sub: Vec<(String, String)> = Vec::new();
    let prefix: Vec<char> = Vec::new();
    expand(&top.devices, table, &keys, globals, &sub, &prefix, 0, &mut out);
    proof {
        assert(devs(Seq::<Device>::empty()) =~= Seq::<DeviceV>::empty());
        assert(pairs(sub@) =~= Seq::<(Seq<char>, Seq<char>)>::empty());
        assert(devs(out@) =~= expand_spec(top@.devices, nets(table@), strs(globals@), Seq::empty(), Seq::empty(), 0));
    }
    Netlist { name: top.name.clone(), ports: copy_strings(&top.ports), devices: out }
}


// ---------------------------------------------------------------- reading

/// The reader's state after some statements.
pub ghost struct ReadState {
    /// Finished `.subckt` definitions, in order.
    pub subckts: Seq<NetlistV>,
    /// Devices outside any `.subckt`.
    pub flat: Seq<DeviceV>,
    /// Global nets (`0`, then each `.global` name).
    pub globals: Seq<Seq<char>>,
    /// The `.subckt` being read, if any.
    pub cur: Option<NetlistV>,
    /// The first error met, if any (reading stops there).
    pub err: Option<Seq<char>>,
    /// A `.subckt` statement without a name was met (the reader cannot go on).
    pub stuck: bool,
}

pub open spec fn read_init() -> ReadState {
    ReadState {
        subckts: Seq::empty(),
        flat: Seq::empty(),
        globals: seq!["0"@],
        cur: None,
        err: None,
        stuck: false,
    }
}

/// One statement's effect on the reader.
pub open spec fn read_step(st: ReadState, stmt: Seq<char>) -> ReadState {
    let toks = tokens(stmt);
    if st.err is Some || st.stuck || toks.len() == 0 {
        st
    } else {
        let head = lower(toks[0]);
        if head == ".subckt"@ {
            if toks.len() == 1 {
                ReadState { stuck: true, ..st }
            } else {
                ReadState {
                    cur: Some(NetlistV { name: toks[1], ports: toks.skip(2), devices: Seq::empty() }),
                    ..st
                }
            }
        } else if head == ".ends"@ {
            match st.cur {
                Some(n) => ReadState { subckts: st.subckts.push(n), cur: None, ..st },
                None => st,
            }
        } else if head == ".global"@ {
            ReadState { globals: st.globals + toks.skip(1), ..st }
        } else if head.len() > 0 && head[0] == '.' {
            st
        } else {
            match parse_device_spec(toks) {
                DevRead::Skip => st,
                DevRead::Bad(m) => ReadState { err: Some(m), ..st },
                DevRead::Dev(d) => match st.cur {
                    Some(n) => ReadState {
                        cur: Some(NetlistV { devices: n.devices.push(d), ..n }),
                        ..st
                    },
                    None => ReadState { flat: st.flat.push(d), ..st },
                },
            }
        }
    }
}

pub open spec fn read_all(stmts: Seq<Seq<char>>) -> ReadState
    decreases stmts.len(),
{
    if stmts.len() == 0 {
        read_init()
    } else {
        read_step(read_all(stmts.drop_last()), stmts.last())
    }
}

/// Dot-commands are read without regard to ASCII case: two statements whose
/// first words differ only in case and whose other words agree have the same
/// effect on the reader.
pub proof fn lemma_command_case(st: ReadState, s1: Seq<char>, s2: Seq<char>)
    requires
        tokens(s1).len() > 0,
        tokens(s2).len() == tokens(s1).len(),
        lower(tokens(s1)[0]) == lower(tokens(s2)[0]),
        lower(tokens(s1)[0]).len() > 0,
        lower(tokens(s1)[0])[0] == '.',
        tokens(s1).skip(1) == tokens(s2).skip(1),
    ensures
        read_step(st, s1) == read_step(st, s2),
{
    let t1 = tokens(s1);
    let t2 = tokens(s2);
    if t1.len() > 1 {
        assert(t1[1] == t1.skip(1)[0]);
        assert(t2[1] == t2.skip(1)[0]);
        assert(t1.skip(2) =~= t1.skip(1).skip(1));
        assert(t2.skip(2) =~= t2.skip(1).skip(1));
    }
}

/// The top cell is chosen without regard to ASCII case: names that differ
/// only in case choose the same cell and give the same flattened netlist.
pub proof fn lemma_top_case(text: Seq<char>, w1: Seq<char>, w2: Seq<char>)
    requires
        lower(w1) == lower(w2),
    ensures
        parse_spec(text, Some(w1)) is Ok <==> parse_spec(text, Some(w2)) is Ok,
        parse_spec(text, Some(w1)) is Ok ==> parse_spec(text, Some(w1)) == parse_spec(text, Some(w2)),
{
}

/// The reader cannot go on with `text`: a `.subckt` statement without a name
/// comes before any error.
pub open spec fn parse_stuck(text: Seq<char>) -> bool {
    read_all(statements_spec(text)).stuck
}

pub open spec fn not_found_msg(want: Seq<char>) -> Seq<char> {
    "subckt "@ + quoted(want) + " not found"@
}

pub open spec fn many_msg(subckts: Seq<NetlistV>) -> Seq<char> {
    dec(subckts.len()) + " subckts; pass `top:` to choose ("@ + join(
        subckts.map_values(|n: NetlistV| n.name),
        ", "@,
    ) + ")"@
}

/// What `Netlist::parse(text, top)` gives: the first device error; else the
/// `top` subcircuit if it is named (`not found` when no definition has that
/// name); else the single subcircuit, or the top-level devices as `(top)` when
/// there is none (an error when there are several); flattened against every
/// definition.
pub open spec fn parse_spec(text: Seq<char>, top: Option<Seq<char>>) -> Result<NetlistV, Seq<char>> {
    let st = read_all(statements_spec(text));
    match st.err {
        Some(m) => Err(m),
        None => match top {
            Some(want) => match table_find(st.subckts, lower(want)) {
                None => Err(not_found_msg(want)),
                Some(def) => Ok(flatten_spec(def, st.subckts, st.globals)),
            },
            None => if st.subckts.len() == 0 {
                Ok(
                    flatten_spec(
                        NetlistV { name: "(top)"@, ports: Seq::empty(), devices: st.flat },
                        st.subckts,
                        st.globals,
                    ),
                )
            } else if st.subckts.len() == 1 {
                Ok(flatten_spec(st.subckts[0], st.subckts, st.globals))
            } else {
                Err(many_msg(st.subckts))
            },
        },
    }
}

fn lit(s: &str) -> (r: Vec<char>)
    ensures
        r@ == s@,
{
    chars_of(s)
}

/// Appends copies of `src` to `dst`.
fn append_strings(dst: &mut Vec<String>, src: &Vec<String>)
    ensures
        strs(final(dst)@) == strs(old(dst)@) + strs(src@),
{
    let ghost g0 = strs(dst@);
    let mut k: usize = 0;
    while k < src.len()
        invariant
            k <= src.len(),
            strs(dst@) == g0 + strs(src@).take(k as int),
        decreases src.len() - k,
    {
        let ghost g1 = dst@;
        dst.push(src[k].clone());
        proof {
            assert(strs(dst@) =~= strs(g1).push(src@[k as int]@));
            assert(strs(src@).take(k + 1) =~= strs(src@).take(k as int).push(src@[k as int]@));
        }
        k += 1;
    }
    proof {
        assert(strs(src@).take(src.len() as int) =~= strs(src@));
    }
}

/// The reader's state, executable.
struct Reader {
    subckts: Vec<Netlist>,
    flat: Vec<Device>,
    globals: Vec<String>,
    cur: Option<Netlist>,
    err: Option<String>,
    stuck: bool,
}

spec fn reader_is(r: &Reader, st: ReadState) -> bool {
    &&& nets(r.subckts@) == st.subckts
    &&& devs(r.flat@) == st.flat
    &&& strs(r.globals@) == st.globals
    &&& match (r.cur, st.cur) {
        (Some(a), Some(b)) => a@ == b,
        (None, None) => true,
        _ => false,
    }
    &&& match (r.err, st.err) {
        (Some(a), Some(b)) => a@ == b,
        (None, None) => true,
        _ => false,
    }
    &&& r.stuck == st.stuck
}

proof fn lemma_halted_stays(sv: Seq<Seq<char>>, i: int, j: int)
    requires
        0 <= i <= j <= sv.len(),
        read_all(sv.take(i)).err is Some || read_all(sv.take(i)).stuck,
    ensures
        read_all(sv.take(j)) == read_all(sv.take(i)),
    decreases j - i,
{
    if j > i {
        lemma_halted_stays(sv, i, j - 1);
        assert(sv.take(j).drop_last() =~= sv.take(j - 1));
    }
}

/// Reads the statements, stopping at the first error or nameless `.subckt`.
fn read(stmts: &Vec<Vec<char>>) -> (r: Reader)
    ensures
        reader_is(&r, read_all(vv(stmts@))),
{
    let ghost sv = vv(stmts@);
    let mut globals: Vec<String> = Vec::new();
    globals.push(string_of(&lit("0")));
    let mut r = Reader {
        subckts: Vec::new(),
        flat: Vec::new(),
        globals,
        cur: None,
        err: None,
        stuck: false,
    };
    proof {
        assert(strs(r.globals@) =~= seq!["0"@]);
        assert(nets(r.subckts@) =~= Seq::<NetlistV>::empty());
        assert(devs(r.flat@) =~= Seq::<DeviceV>::empty());
        assert(sv.take(0) =~= Seq::<Seq<char>>::empty());
    }
    let mut i: usize = 0;
    while i < stmts.len()
        invariant
            i <= stmts.len(),
            sv == vv(stmts@),
            reader_is(&r, read_all(sv.take(i as int))),
            !r.stuck && r.err is None,
        decreases stmts.len() - i,
    {
        let ghost st = read_all(sv.take(i as int));
        proof {
            assert(sv.take(i + 1).drop_last() =~= sv.take(i as int));
            assert(sv.take(i + 1).last() == stmts@[i as int]@);
        }
        let toks = split_ws(&stmts[i]);
        let ghost tv = tokens(stmts@[i as int]@);
        proof {
            assert(vv(toks@) =~= tv);
        }
        if toks.len() > 0 {
            let head = lower_vec(&toks[0]);
            proof {
                assert(toks@[0]@ == tv[0]);
            }
            if eq_chars(&head, &lit(".subckt")) {
                if toks.len() == 1 {
                    r.stuck = true;
                    proof {
                        lemma_halted_stays(sv, i + 1, sv.len() as int);
                        assert(sv.take(sv.len() as int) =~= sv);
                    }
                    return r;
                }
                let name = string_of(&toks[1]);
                let ports = strings_of(&toks, 2, toks.len());
                proof {
                    assert(vv(toks@).subrange(2, toks.len() as int) =~= tv.skip(2));
                }
                r.cur = Some(Netlist { name, ports, devices: Vec::new() });
                proof {
                    assert(toks@[1]@ == tv[1]);
                    assert(devs(Seq::<Device>::empty()) =~= Seq::<DeviceV>::empty());
                    assert(reader_is(&r, read_step(st, sv[i as int])));
                }
            } else if eq_chars(&head, &lit(".ends")) {
                let c = r.cur;
                r.cur = None;
                match c {
                    Some(n) => {
                        let ghost s0 = r.subckts@;
                        r.subckts.push(n);
                        proof {
                            assert(nets(r.subckts@) =~= nets(s0).push(n@));
                        }
                    },
                    None => {},
                }
                proof {
                    assert(reader_is(&r, read_step(st, sv[i as int])));
                }
            } else if eq_chars(&head, &lit(".global")) {
                let more = strings_of(&toks, 1, toks.len());
                append_strings(&mut r.globals, &more);
                proof {
                    assert(vv(toks@).subrange(1, toks.len() as int) =~= tv.skip(1));
                    assert(reader_is(&r, read_step(st, sv[i as int])));
                }
            } else if head.len() > 0 && head[0] == '.' {
            } else {
                match parse_device(&toks) {
                    Err(e) => {
                        r.err = Some(e.0);
                        proof {
                            lemma_halted_stays(sv, i + 1, sv.len() as int);
                            assert(sv.take(sv.len() as int) =~= sv);
                        }
                        return r;
                    },
                    Ok(None) => {},
                    Ok(Some(d)) => {
                        let c = r.cur;
                        r.cur = None;
                        match c {
                            Some(mut n) => {
                                let ghost d0 = n.devices@;
                                n.devices.push(d);
                                proof {
                                    assert(devs(n.devices@) =~= devs(d0).push(d@));
                                }
                                r.cur = Some(n);
                                proof {
                                    assert(reader_is(&r, read_step(st, sv[i as int])));
                                }
                            },
                            None => {
                                let ghost f0 = r.flat@;
                                r.flat.push(d);
                                proof {
                                    assert(devs(r.flat@) =~= devs(f0).push(d@));
                                    assert(reader_is(&r, read_step(st, sv[i as int])));
                                }
                            },
                        }
                    },
                }
            }
        }
        proof {
            assert(reader_is(&r, read_step(st, sv[i as int])));
        }
        i += 1;
    }
    proof {
        assert(sv.take(stmts.len() as int) =~= sv);
    }
    r
}

impl Netlist {
    /// Whether `Netlist::parse` can read `text`: it cannot go past a
    /// `.subckt` statement without a name.
    pub fn readable(text: &str) -> (r: bool)
        ensures
            r == !parse_stuck(text@),
    {
        let stmts = statements(text);
        let r = read(&stmts);
        !r.stuck
    }

    /// Reads `text`; with `top`, returns that `.subckt` (by ASCII-case-insensitive
    /// name), else the single subcircuit, else the flat top-level devices as
    /// `(top)`. The chosen cell is flattened to primitive devices against every
    /// definition in the text (see [`flatten`]).
    pub fn parse(text: &str, top: Option<&str>) -> (r: Result<Netlist, SpiceError>)
        requires
            !parse_stuck(text@),
        ensures
            match parse_spec(text@, opt_view(top)) {
                Ok(n) => r matches Ok(got) && got@ == n,
                Err(m) => r matches Err(e) && e.0@ == m,
            },
    {
        let stmts = statements(text);
        let rd = read(&stmts);
        let ghost st = read_all(statements_spec(text@));
        if let Some(m) = rd.err {
            return Err(SpiceError(m));
        }
        match top {
            Some(want) => {
                let wv = chars_of(want);
                let key = lower_vec(&wv);
                let keys = def_keys(&rd.subckts);
                match find_def(&keys, &key, Ghost(nets(rd.subckts@))) {
                    None => {
                        let mut m: Vec<char> = Vec::new();
                        push_str(&mut m, "subckt ");
                        push_quoted(&mut m, &wv);
                        push_str(&mut m, " not found");
                        proof {
                            assert(m@ =~= not_found_msg(want@));
                        }
                        Err(SpiceError(string_of(&m)))
                    },
                    Some(i) => Ok(flatten(&rd.subckts[i], &rd.subckts, &rd.globals)),
                }
            },
            None => {
                if rd.subckts.len() == 0 {
                    let top_cell = Netlist {
                        name: string_of(&lit("(top)")),
                        ports: Vec::new(),
                        devices: rd.flat,
                    };
                    proof {
                        assert(strs(top_cell.ports@) =~= Seq::<Seq<char>>::empty());
                    }
                    Ok(flatten(&top_cell, &rd.subckts, &rd.globals))
                } else if rd.subckts.len() == 1 {
                    Ok(flatten(&rd.subckts[0], &rd.subckts, &rd.globals))
                } else {
                    let mut names: Vec<Vec<char>> = Vec::new();
                    let mut k: usize = 0;
                    while k < rd.subckts.len()
                        invariant
                            k <= rd.subckts.len(),
                            vv(names@) == nets(rd.subckts@).map_values(|n: NetlistV| n.name).take(k as int),
                        decreases rd.subckts.len() - k,
                    {
                        let ghost n0 = names@;
                        names.push(chars_of(rd.subckts[k].name.as_str()));
                        proof {
                            assert(vv(names@) =~= vv(n0).push(rd.subckts@[k as int]@.name));
                            assert(nets(rd.subckts@).map_values(|n: NetlistV| n.name).take(k + 1) =~= nets(
                                rd.subckts@,
                            ).map_values(|n: NetlistV| n.name).take(k as int).push(rd.subckts@[k as int]@.name));
                        }
                        k += 1;
                    }
                    proof {
                        assert(nets(rd.subckts@).map_values(|n: NetlistV| n.name).take(k as int) =~= nets(
                            rd.subckts@,
                        ).map_values(|n: NetlistV| n.name));
                    }
                    let mut m: Vec<char> = Vec::new();
                    push_dec(&mut m, rd.subckts.len());
                    push_str(&mut m, " subckts; pass `top:` to choose (");
                    push_join(&mut m, &names, ", ");
                    push_str(&mut m, ")");
                    proof {
                        assert(m@ =~= many_msg(st.subckts));
                    }
                    Err(SpiceError(string_of(&m)))
                }
            },
        }
    }
}

pub open spec fn opt_view(o: Option<&str>) -> Option<Seq<char>> {
    match o {
        Some(s) => Some(s@),
        None => None,
    }
}

} // verus!
