//! Writing a netlist (such as one extracted from a layout) back as SPICE text.
use vstd::prelude::*;
use crate::engine::push_join_strs;
use crate::spice::{fixed_terms_spec, join, kind_of, params_spec, parse_spec, parse_stuck, read_all, read_step, stmts_of_lines, DeviceV, Netlist, NetlistV, ReadState};
use crate::text::{cut_comment, is_ws, line_state, lines, lower, ltrim, rtrim, strip_cr, tok_state, tokens, trim, push_str, string_of};

verus! {

/// One device line: name, nodes and model, separated by spaces.
pub open spec fn device_line(d: DeviceV) -> Seq<char> {
    d.name + " "@ + join(d.nodes, " "@) + " "@ + d.model + "\n"@
}

pub open spec fn device_lines(ds: Seq<DeviceV>) -> Seq<char>
    decreases ds.len(),
{
    if ds.len() == 0 {
        Seq::empty()
    } else {
        device_lines(ds.drop_last()) + device_line(ds.last())
    }
}

/// The SPICE text of a netlist: a `.subckt` with its name and ports, a line
/// per device, `.ends`.
pub open spec fn spice_spec(nl: NetlistV) -> Seq<char> {
    ".subckt "@ + nl.name + " "@ + join(nl.ports, " "@) + "\n"@ + device_lines(nl.devices) + ".ends\n"@
}

/// Renders a netlist as SPICE text.
pub fn to_spice(nl: &Netlist) -> (s: String)
    ensures
        s@ == spice_spec(nl@),
{
    let mut v: Vec<char> = Vec::new();
    push_str(&mut v, ".subckt ");
    push_str(&mut v, nl.name.as_str());
    push_str(&mut v, " ");
    push_join_strs(&mut v, &nl.ports, " ");
    push_str(&mut v, "\n");
    let ghost v0 = v@;
    let ghost ds = nl@.devices;
    let mut i: usize = 0;
    while i < nl.devices.len()
        invariant
            i <= nl.devices.len(),
            ds == nl@.devices,
            v@ == v0 + device_lines(ds.take(i as int)),
        decreases nl.devices.len() - i,
    {
        let d = &nl.devices[i];
        let ghost w = v@;
        push_str(&mut v, d.name.as_str());
        push_str(&mut v, " ");
        push_join_strs(&mut v, &d.nodes, " ");
        push_str(&mut v, " ");
        push_str(&mut v, d.model.as_str());
        push_str(&mut v, "\n");
        proof {
            assert(d@ == ds[i as int]);
            assert(v@ =~= w + device_line(d@));
            assert(ds.take(i + 1).drop_last() =~= ds.take(i as int));
        }
        i += 1;
    }
    push_str(&mut v, ".ends\n");
    proof {
        assert(ds.take(i as int) =~= ds);
        assert(v@ =~= spice_spec(nl@));
    }
    string_of(&v)
}

// ---------------------------------------------------------------- reading it back

/// A SPICE word as `to_spice` writes one: non-empty, with no blank and no
/// comment character.
pub open spec fn word(w: Seq<char>) -> bool {
    &&& w.len() > 0
    &&& forall|i: int| 0 <= i < w.len() ==> !is_ws(#[trigger] w[i]) && w[i] != ';' && w[i] != '$'
}

/// Characters with no blank among them leave the tokenizer in the middle of
/// a token.
proof fn lemma_tok_chars(s: Seq<char>, w: Seq<char>)
    requires
        forall|i: int| 0 <= i < w.len() ==> !is_ws(#[trigger] w[i]),
    ensures
        tok_state(s + w) == (tok_state(s).0, tok_state(s).1 + w),
    decreases w.len(),
{
    if w.len() == 0 {
        assert(s + w =~= s);
        assert(tok_state(s).1 + w =~= tok_state(s).1);
    } else {
        let w1 = w.drop_last();
        lemma_tok_chars(s, w1);
        assert((s + w).drop_last() =~= s + w1);
        assert((s + w).last() == w.last());
        assert(tok_state(s).1 + w1 + seq![w.last()] =~= tok_state(s).1 + w);
    }
}

/// A blank ends the token being read.
proof fn lemma_tok_space(s: Seq<char>)
    ensures
        tok_state(s + " "@) == (if tok_state(s).1.len() > 0 {
            (tok_state(s).0.push(tok_state(s).1), Seq::<char>::empty())
        } else {
            tok_state(s)
        }),
{
    reveal_strlit(" ");
    assert((s + " "@).drop_last() =~= s);
    assert((s + " "@).last() == ' ');
}

/// Words joined by single blanks read back as those words, the last one
/// still being read.
proof fn lemma_tok_join(s: Seq<char>, ws: Seq<Seq<char>>)
    requires
        tok_state(s).1.len() == 0,
        ws.len() > 0,
        forall|k: int| 0 <= k < ws.len() ==> word(#[trigger] ws[k]),
    ensures
        tok_state(s + join(ws, " "@)) == (tok_state(s).0 + ws.drop_last(), ws.last()),
    decreases ws.len(),
{
    if ws.len() == 1 {
        assert(word(ws[0]));
        lemma_tok_chars(s, ws[0]);
        assert(tok_state(s).1 + ws[0] =~= ws[0]);
        assert(tok_state(s).0 + ws.drop_last() =~= tok_state(s).0);
    } else {
        let dl = ws.drop_last();
        lemma_tok_join(s, dl);
        let j = join(dl, " "@);
        assert(join(ws, " "@) == j + " "@ + ws.last());
        lemma_tok_space(s + j);
        assert(word(ws.last()));
        lemma_tok_chars(s + j + " "@, ws.last());
        assert(s + join(ws, " "@) =~= s + j + " "@ + ws.last());
        assert(tok_state(s).0 + dl.drop_last() + seq![dl.last()] =~= tok_state(s).0 + ws.drop_last());
        assert(Seq::<char>::empty() + ws.last() =~= ws.last());
    }
}

/// Characters other than a line feed extend the line being read.
proof fn lemma_line_chars(s: Seq<char>, l: Seq<char>)
    requires
        !l.contains('\n'),
    ensures
        line_state(s + l) == (line_state(s).0, line_state(s).1 + l),
    decreases l.len(),
{
    if l.len() == 0 {
        assert(s + l =~= s);
        assert(line_state(s).1 + l =~= line_state(s).1);
    } else {
        let l1 = l.drop_last();
        assert(!l1.contains('\n')) by {
            if l1.contains('\n') {
                let i = choose|i: int| 0 <= i < l1.len() && l1[i] == '\n';
                assert(l[i] == '\n');
            }
        }
        lemma_line_chars(s, l1);
        assert((s + l).drop_last() =~= s + l1);
        assert((s + l).last() == l.last());
        assert(l.last() != '\n') by {
            assert(l[l.len() - 1] == l.last());
        }
        assert(line_state(s).1 + l1 + seq![l.last()] =~= line_state(s).1 + l);
    }
}

/// A line and its line feed, read after whole lines, add that line.
proof fn lemma_line_add(s: Seq<char>, l: Seq<char>)
    requires
        line_state(s).1.len() == 0,
        !l.contains('\n'),
    ensures
        line_state(s + l + "\n"@) == (line_state(s).0.push(strip_cr(l)), Seq::<char>::empty()),
{
    reveal_strlit("\n");
    lemma_line_chars(s, l);
    assert((s + l + "\n"@).drop_last() =~= s + l);
    assert((s + l + "\n"@).last() == '\n');
    assert(line_state(s).1 + l =~= l);
}

/// Text free of comment characters has no comment to cut.
proof fn lemma_no_comment(s: Seq<char>)
    requires
        forall|i: int| 0 <= i < s.len() ==> #[trigger] s[i] != ';' && s[i] != '$',
    ensures
        cut_comment(s) == s,
    decreases s.len(),
{
    if s.len() > 0 {
        lemma_no_comment(s.drop_first());
        assert(s =~= seq![s[0]] + s.drop_first());
    }
}


/// Text with no line feed and no comment character.
pub open spec fn clean(s: Seq<char>) -> bool {
    forall|i: int| 0 <= i < s.len() ==> #[trigger] s[i] != '\n' && s[i] != ';' && s[i] != '$'
}

proof fn lemma_clean_add(a: Seq<char>, b: Seq<char>)
    requires
        clean(a),
        clean(b),
    ensures
        clean(a + b),
{
    assert forall|i: int| 0 <= i < (a + b).len() implies #[trigger] (a + b)[i] != '\n' && (a + b)[i] != ';' && (a + b)[i] != '$' by {
        if i < a.len() {
            assert((a + b)[i] == a[i]);
        } else {
            assert((a + b)[i] == b[i - a.len()]);
        }
    }
}

proof fn lemma_word_clean(w: Seq<char>)
    requires
        word(w),
    ensures
        clean(w),
{
    assert forall|i: int| 0 <= i < w.len() implies #[trigger] w[i] != '\n' && w[i] != ';' && w[i] != '$' by {
        assert(!is_ws(w[i]));
    }
}

proof fn lemma_join_clean(ws: Seq<Seq<char>>)
    requires
        forall|k: int| 0 <= k < ws.len() ==> word(#[trigger] ws[k]),
    ensures
        clean(join(ws, " "@)),
    decreases ws.len(),
{
    reveal_strlit(" ");
    if ws.len() == 1 {
        assert(word(ws[0]));
        lemma_word_clean(ws[0]);
    } else if ws.len() > 1 {
        lemma_join_clean(ws.drop_last());
        assert(word(ws.last()));
        lemma_word_clean(ws.last());
        lemma_clean_add(join(ws.drop_last(), " "@), " "@);
        lemma_clean_add(join(ws.drop_last(), " "@) + " "@, ws.last());
    }
}

/// A line whose text ends in a blank run keeps, trimmed, its first character.
proof fn lemma_rtrim_first(l: Seq<char>)
    requires
        l.len() > 0,
        !is_ws(l[0]),
    ensures
        rtrim(l).len() > 0,
        rtrim(l)[0] == l[0],
        !is_ws(rtrim(l).last()),
    decreases l.len(),
{
    if is_ws(l.last()) {
        assert(l.len() > 1);
        assert(l.drop_last()[0] == l[0]);
        lemma_rtrim_first(l.drop_last());
        assert(rtrim(l) == rtrim(l.drop_last()));
    }
}

/// A SPICE line that starts with neither a blank, a comment star nor a
/// continuation plus is one statement: the line, trimmed.
proof fn lemma_stmt_line(out: Seq<Seq<char>>, l: Seq<char>)
    requires
        l.len() > 0,
        clean(l),
        !is_ws(l[0]),
        l[0] != '*',
        l[0] != '+',
    ensures
        crate::spice::stmt_step(out, l) == out.push(rtrim(l)),
        trim(l) == rtrim(l),
{
    assert(ltrim(l) == l);
    assert forall|i: int| 0 <= i < l.len() implies #[trigger] l[i] != ';' && l[i] != '$' by {
        assert(clean(l));
    }
    lemma_no_comment(l);
    lemma_rtrim_first(l);
    let r = rtrim(l);
    assert(ltrim(r) == r);
    assert(rtrim(r) == r);
}

/// A line made of words read back as those words.
proof fn lemma_tokens_words(ws: Seq<Seq<char>>, l: Seq<char>)
    requires
        ws.len() > 0,
        forall|k: int| 0 <= k < ws.len() ==> word(#[trigger] ws[k]),
        l == join(ws, " "@),
    ensures
        tokens(l) == ws,
{
    lemma_tok_join(Seq::empty(), ws);
    assert(Seq::<char>::empty() + l =~= l);
    assert(Seq::<Seq<char>>::empty() + ws.drop_last() =~= ws.drop_last());
    assert(ws.drop_last().push(ws.last()) =~= ws);
    assert(word(ws.last()));
}


/// A device `to_spice` writes so that it reads back as itself: name, nodes
/// and model are words, its kind is the one its name gives and one the
/// reader types, with as many nodes as that kind has terminals, and its
/// parameters are the ones the reader takes from such a line.
pub open spec fn dev_ready(d: DeviceV) -> bool {
    &&& word(d.name)
    &&& d.kind == kind_of(d.name)
    &&& fixed_terms_spec(d.kind) == Some(d.nodes.len())
    &&& forall|p: int| 0 <= p < d.nodes.len() ==> word(#[trigger] d.nodes[p])
    &&& word(d.model)
    &&& d.params == params_spec(d.kind, d.model, Seq::empty())
}

/// A netlist `to_spice` writes so that it reads back as itself.
pub open spec fn spice_ready(nl: NetlistV) -> bool {
    &&& word(nl.name)
    &&& forall|k: int| 0 <= k < nl.ports.len() ==> word(#[trigger] nl.ports[k])
    &&& forall|i: int| 0 <= i < nl.devices.len() ==> dev_ready(#[trigger] nl.devices[i])
}

/// The `.subckt` line, without its line feed.
pub open spec fn head_line(nl: NetlistV) -> Seq<char> {
    ".subckt "@ + nl.name + " "@ + join(nl.ports, " "@)
}

/// A device line, without its line feed.
pub open spec fn body_line(d: DeviceV) -> Seq<char> {
    d.name + " "@ + join(d.nodes, " "@) + " "@ + d.model
}

proof fn lemma_join_last(ws: Seq<Seq<char>>)
    requires
        ws.len() > 0,
        ws.last().len() > 0,
    ensures
        join(ws, " "@).len() > 0,
        join(ws, " "@).last() == ws.last().last(),
{
    if ws.len() > 1 {
        assert(join(ws, " "@) == join(ws.drop_last(), " "@) + " "@ + ws.last());
    }
}

/// What a device line is made of and reads as.
proof fn lemma_body(d: DeviceV)
    requires
        dev_ready(d),
    ensures
        clean(body_line(d)),
        body_line(d).len() > 0,
        body_line(d)[0] == d.name[0],
        !is_ws(body_line(d)[0]) && body_line(d)[0] != '*' && body_line(d)[0] != '+' && body_line(d)[0] != '.',
        lower(d.name).len() > 0 && lower(d.name)[0] != '.',
        rtrim(body_line(d)) == body_line(d),
        strip_cr(body_line(d)) == body_line(d),
        tokens(body_line(d)) == seq![d.name] + d.nodes + seq![d.model],
{
    reveal_strlit(" ");
    let b = body_line(d);
    let j = join(d.nodes, " "@);
    assert(word(d.name) && word(d.model));
    lemma_word_clean(d.name);
    lemma_word_clean(d.model);
    lemma_join_clean(d.nodes);
    lemma_clean_add(d.name, " "@);
    lemma_clean_add(d.name + " "@, j);
    lemma_clean_add(d.name + " "@ + j, " "@);
    lemma_clean_add(d.name + " "@ + j + " "@, d.model);
    assert(b[0] == d.name[0]);
    assert(!is_ws(d.name[0]));
    assert(lower(d.name)[0] == crate::text::lower_char(d.name[0]));
    assert(b.last() == d.model.last()) by {
        assert(b.last() == d.model[d.model.len() - 1]);
    }
    assert(!is_ws(d.model[d.model.len() - 1]));
    // tokens
    lemma_tok_chars(Seq::empty(), d.name);
    assert(Seq::<char>::empty() + d.name =~= d.name);
    assert(Seq::<char>::empty() + d.name =~= d.name);
    lemma_tok_space(d.name);
    lemma_tok_join(d.name + " "@, d.nodes);
    lemma_tok_space(d.name + " "@ + j);
    assert(forall|i: int| 0 <= i < d.model.len() ==> !is_ws(#[trigger] d.model[i]));
    lemma_tok_chars(d.name + " "@ + j + " "@, d.model);
    assert(d.nodes.len() > 0);
    assert(seq![d.name] + d.nodes.drop_last() + seq![d.nodes.last()] =~= seq![d.name] + d.nodes);
    assert(Seq::<char>::empty() + d.model =~= d.model);
    assert((seq![d.name] + d.nodes).push(d.model) =~= seq![d.name] + d.nodes + seq![d.model]);
}

/// What the `.subckt` line is made of and reads as.
proof fn lemma_head(nl: NetlistV)
    requires
        spice_ready(nl),
    ensures
        clean(head_line(nl)),
        head_line(nl).len() > 0,
        head_line(nl)[0] == '.',
        strip_cr(head_line(nl)) == head_line(nl),
        tokens(rtrim(head_line(nl))) == seq![".subckt"@, nl.name] + nl.ports,
{
    reveal_strlit(" ");
    reveal_strlit(".subckt ");
    reveal_strlit(".subckt");
    let h = head_line(nl);
    let j = join(nl.ports, " "@);
    let sub = ".subckt"@;
    assert(".subckt "@ =~= sub + " "@);
    assert(word(nl.name));
    lemma_word_clean(nl.name);
    lemma_join_clean(nl.ports);
    lemma_clean_add(".subckt "@, nl.name);
    lemma_clean_add(".subckt "@ + nl.name, " "@);
    lemma_clean_add(".subckt "@ + nl.name + " "@, j);
    assert(h[0] == '.');
    assert(forall|i: int| 0 <= i < sub.len() ==> !is_ws(#[trigger] sub[i]));
    lemma_tok_chars(Seq::empty(), sub);
    assert(Seq::<char>::empty() + sub =~= sub);
    lemma_tok_space(sub);
    assert(forall|i: int| 0 <= i < nl.name.len() ==> !is_ws(#[trigger] nl.name[i]));
    lemma_tok_chars(sub + " "@, nl.name);
    assert(Seq::<char>::empty() + nl.name =~= nl.name);
    lemma_tok_space(sub + " "@ + nl.name);
    assert(seq![sub].push(nl.name) =~= seq![sub, nl.name]);
    if nl.ports.len() > 0 {
        assert(word(nl.ports.last()));
        lemma_join_last(nl.ports);
        assert(h.last() == j.last());
        assert(!is_ws(nl.ports.last()[nl.ports.last().len() - 1]));
        assert(rtrim(h) == h);
        lemma_tok_join(sub + " "@ + nl.name + " "@, nl.ports);
        assert(h =~= sub + " "@ + nl.name + " "@ + j);
        assert((seq![sub, nl.name] + nl.ports.drop_last()).push(nl.ports.last()) =~= seq![sub, nl.name] + nl.ports);
    } else {
        assert(j.len() == 0);
        assert(h.last() == ' ');
        assert(h.drop_last() =~= sub + " "@ + nl.name);
        assert(nl.name.last() == nl.name[nl.name.len() - 1]);
        assert(rtrim(h) == rtrim(h.drop_last()));
        assert((sub + " "@ + nl.name).last() == nl.name.last());
        assert(rtrim(h) == sub + " "@ + nl.name);
        assert(seq![sub].push(nl.name) =~= seq![sub, nl.name] + nl.ports);
    }
}


/// The text of the `.subckt` line and the first `k` device lines.
spec fn text_upto(nl: NetlistV, k: int) -> Seq<char> {
    head_line(nl) + "\n"@ + device_lines(nl.devices.take(k))
}

/// Those lines, without their line feeds.
spec fn lines_upto(nl: NetlistV, k: int) -> Seq<Seq<char>> {
    seq![head_line(nl)] + nl.devices.take(k).map_values(|d: DeviceV| body_line(d))
}

/// The statements they make.
spec fn stmts_upto(nl: NetlistV, k: int) -> Seq<Seq<char>> {
    seq![rtrim(head_line(nl))] + nl.devices.take(k).map_values(|d: DeviceV| body_line(d))
}

/// The reader after those statements: inside the `.subckt`, with the first
/// `k` devices.
spec fn read_upto(nl: NetlistV, k: int) -> ReadState {
    ReadState {
        subckts: Seq::empty(),
        flat: Seq::empty(),
        globals: seq!["0"@],
        cur: Some(NetlistV { name: nl.name, ports: nl.ports, devices: nl.devices.take(k) }),
        err: None,
        stuck: false,
    }
}

proof fn lemma_lines_upto(nl: NetlistV, k: int)
    requires
        spice_ready(nl),
        0 <= k <= nl.devices.len(),
    ensures
        line_state(text_upto(nl, k)) == (lines_upto(nl, k), Seq::<char>::empty()),
        stmts_of_lines(lines_upto(nl, k)) == stmts_upto(nl, k),
        read_all(stmts_upto(nl, k)) == read_upto(nl, k),
    decreases k,
{
    reveal_strlit("\n");
    lemma_head(nl);
    let h = head_line(nl);
    if k == 0 {
        assert(nl.devices.take(0) =~= Seq::<DeviceV>::empty());
        assert(text_upto(nl, 0) =~= Seq::<char>::empty() + h + "\n"@);
        assert(!h.contains('\n')) by {
            if h.contains('\n') {
                let i = choose|i: int| 0 <= i < h.len() && h[i] == '\n';
                assert(clean(h));
            }
        }
        lemma_line_add(Seq::empty(), h);
        assert(lines_upto(nl, 0) =~= seq![h]);
        assert(Seq::<Seq<char>>::empty().push(h) =~= seq![h]);
        assert(seq![h].drop_last() =~= Seq::<Seq<char>>::empty());
        lemma_stmt_line(Seq::empty(), h);
        assert(seq![h].last() == h);
        assert(stmts_of_lines(seq![h]) == crate::spice::stmt_step(stmts_of_lines(Seq::empty()), h));
        assert(stmts_upto(nl, 0) =~= seq![rtrim(h)]);
        assert(Seq::<Seq<char>>::empty().push(rtrim(h)) =~= seq![rtrim(h)]);
        assert(seq![rtrim(h)].drop_last() =~= Seq::<Seq<char>>::empty());
        // the `.subckt` statement opens the cell
        reveal_strlit(".subckt");
        let toks = tokens(rtrim(h));
        assert(toks == seq![".subckt"@, nl.name] + nl.ports);
        assert(toks[0] == ".subckt"@);
        assert(lower(".subckt"@) =~= ".subckt"@);
        assert(toks.skip(2) =~= nl.ports);
        assert(read_all(seq![rtrim(h)]) == read_step(read_all(Seq::empty()), rtrim(h)));
    } else {
        lemma_lines_upto(nl, k - 1);
        let d = nl.devices[k - 1];
        assert(dev_ready(d));
        lemma_body(d);
        let b = body_line(d);
        assert(nl.devices.take(k).drop_last() =~= nl.devices.take(k - 1));
        assert(nl.devices.take(k).last() == d);
        assert(device_lines(nl.devices.take(k)) == device_lines(nl.devices.take(k - 1)) + device_line(d));
        assert(text_upto(nl, k) =~= text_upto(nl, k - 1) + b + "\n"@);
        assert(!b.contains('\n')) by {
            if b.contains('\n') {
                let i = choose|i: int| 0 <= i < b.len() && b[i] == '\n';
                assert(clean(b));
            }
        }
        lemma_line_add(text_upto(nl, k - 1), b);
        assert(lines_upto(nl, k) =~= lines_upto(nl, k - 1).push(b));
        assert(lines_upto(nl, k).drop_last() =~= lines_upto(nl, k - 1));
        lemma_stmt_line(stmts_upto(nl, k - 1), b);
        assert(lines_upto(nl, k).last() == b);
        assert(stmts_of_lines(lines_upto(nl, k)) == crate::spice::stmt_step(stmts_of_lines(lines_upto(nl, k - 1)), b));
        assert(stmts_upto(nl, k) =~= stmts_upto(nl, k - 1).push(b));
        assert(stmts_upto(nl, k).drop_last() =~= stmts_upto(nl, k - 1));
        // the device statement adds the device
        let toks = tokens(b);
        let nt = d.nodes.len();
        assert(toks.len() == nt + 2);
        assert(toks[0] == d.name);
        assert(toks.subrange(1, 1 + nt as int) =~= d.nodes);
        assert(toks[1 + nt as int] == d.model);
        assert(toks.skip(2 + nt as int) =~= Seq::<Seq<char>>::empty());
        assert(lower(toks[0]) != ".subckt"@ && lower(toks[0]) != ".ends"@ && lower(toks[0]) != ".global"@) by {
            reveal_strlit(".subckt");
            reveal_strlit(".ends");
            reveal_strlit(".global");
            assert(lower(toks[0])[0] != ".subckt"@[0]);
            assert(lower(toks[0])[0] != ".ends"@[0]);
            assert(lower(toks[0])[0] != ".global"@[0]);
        }
        assert(d.kind != 'X');
        assert(crate::spice::parse_device_spec(toks) == crate::spice::DevRead::Dev(d));
        assert(read_upto(nl, k - 1).cur == Some(NetlistV { name: nl.name, ports: nl.ports, devices: nl.devices.take(k - 1) }));
        assert(nl.devices.take(k - 1).push(d) =~= nl.devices.take(k));
    }
}

/// Reading back what `to_spice` writes gives the netlist written, when each
/// name is a word the reader keeps whole and each device one it types with
/// the parameters it would read: the text is one `.subckt` whose lines are
/// the devices, in order.
pub proof fn lemma_spice_round_trip(nl: NetlistV)
    requires
        spice_ready(nl),
    ensures
        !parse_stuck(spice_spec(nl)),
        parse_spec(spice_spec(nl), None) == Ok::<NetlistV, Seq<char>>(nl),
{
    reveal_strlit("\n");
    reveal_strlit(".ends\n");
    reveal_strlit(".ends");
    let n = nl.devices.len() as int;
    lemma_lines_upto(nl, n);
    assert(nl.devices.take(n) =~= nl.devices);
    let e = ".ends"@;
    assert(".ends\n"@ =~= e + "\n"@);
    assert(spice_spec(nl) =~= text_upto(nl, n) + e + "\n"@);
    assert(!e.contains('\n')) by {
        if e.contains('\n') {
            let i = choose|i: int| 0 <= i < e.len() && e[i] == '\n';
        }
    }
    lemma_line_add(text_upto(nl, n), e);
    assert(strip_cr(e) == e);
    let ls = lines_upto(nl, n).push(e);
    assert(lines(spice_spec(nl)) == ls);
    assert(ls.drop_last() =~= lines_upto(nl, n));
    assert(clean(e));
    lemma_stmt_line(stmts_upto(nl, n), e);
    assert(rtrim(e) == e);
    let ss = stmts_upto(nl, n).push(e);
    assert(crate::spice::statements_spec(spice_spec(nl)) == ss);
    assert(ss.drop_last() =~= stmts_upto(nl, n));
    assert(word(e));
    lemma_tokens_words(seq![e], e);
    assert(lower(e) =~= e);
    let st = read_all(ss);
    assert(ss.last() == e);
    assert(st == read_step(read_upto(nl, n), e));
    assert(tokens(e) == seq![e]);
    assert(seq![e][0] == e);
    reveal_strlit(".subckt");
    assert(lower(e) == ".ends"@);
    assert(lower(e).len() != ".subckt"@.len());
    assert(NetlistV { name: nl.name, ports: nl.ports, devices: nl.devices.take(n) } == nl);
    assert(st.subckts =~= seq![nl]);
    assert forall|i: int| 0 <= i < nl.devices.len() implies #[trigger] crate::spice::kept_by_flatten(nl.devices[i], st.subckts) by {
        assert(dev_ready(nl.devices[i]));
    }
    crate::spice::lemma_flat_cell_unchanged(nl, st.subckts, st.globals);
}

} // verus!
