//! LVS job: the two netlists to compare.
//!
//! A `.lvs` job is a small `key: value` file:
//!
//! ```text
//! layout:    block_layout.spice      # the layout-extracted netlist (side A)
//! schematic: block_schematic.spice   # the reference/schematic netlist (side B)
//! top:       block                   # subckt to compare (optional; else top-level)
//! ```
//!
//! The layout side may instead be a GDS to extract (`layout_gds:` with `rules:`,
//! or a `pdk:` whose extraction rules are looked up).
use vstd::prelude::*;
use crate::text::{chars_of, lines, push_all, push_str, slice_of, split_lines, string_of, trim, trim_both};
use crate::spice::{pairs, push_quoted, quoted, vv};

verus! {

/// A parsed job.
#[derive(Debug, Clone)]
pub struct LvsJob {
    /// Layout-extracted SPICE netlist (side A).
    pub layout: Option<String>,
    /// Or a GDS to extract natively (needs `rules` or `pdk`).
    pub layout_gds: Option<String>,
    /// Extraction rules for `layout_gds`.
    pub rules: Option<String>,
    /// A PDK whose extraction rules serve when `rules` is absent.
    pub pdk: Option<String>,
    /// The reference netlist (side B).
    pub schematic: String,
    /// Subcircuit to compare; else the top level.
    pub top: Option<String>,
    /// Directory that relative paths are taken from.
    pub base_dir: String,
}

/// A job error, with a message.
#[derive(Debug)]
pub struct JobError(pub String);

/// `str::to_lowercase`: Unicode lower-casing of the whole string.
pub uninterp spec fn to_lowercase(s: Seq<char>) -> Seq<char>;

/// Every character of `s` is ASCII.
pub open spec fn all_ascii(s: Seq<char>) -> bool {
    forall|i: int| 0 <= i < s.len() ==> (#[trigger] s[i] as u32) < 128
}

/// `str::to_lowercase` (Unicode lower-casing, as the standard library defines it).
/// The contract names the result as a function of the characters and says
/// what it is on ASCII text, where Unicode lower-casing maps `A`..`Z` to
/// `a`..`z` and keeps every other character; it states nothing about the
/// Unicode case tables beyond ASCII.
#[verifier::external_body]
fn lowercase(v: &Vec<char>) -> (r: Vec<char>)
    ensures
        r@ == to_lowercase(v@),
        all_ascii(v@) ==> r@ == crate::text::lower(v@),
{
    let s: String = v.iter().collect();
    s.to_lowercase().chars().collect()
}

pub ghost struct JobV {
    pub layout: Option<Seq<char>>,
    pub layout_gds: Option<Seq<char>>,
    pub rules: Option<Seq<char>>,
    pub pdk: Option<Seq<char>>,
    pub schematic: Seq<char>,
    pub top: Option<Seq<char>>,
    pub base_dir: Seq<char>,
}

pub open spec fn ostr(o: Option<String>) -> Option<Seq<char>> {
    match o {
        Some(s) => Some(s@),
        None => None,
    }
}

impl View for LvsJob {
    type V = JobV;

    open spec fn view(&self) -> JobV {
        JobV {
            layout: ostr(self.layout),
            layout_gds: ostr(self.layout_gds),
            rules: ostr(self.rules),
            pdk: ostr(self.pdk),
            schematic: self.schematic@,
            top: ostr(self.top),
            base_dir: self.base_dir@,
        }
    }
}

/// `s` up to its first `c`.
pub open spec fn before(s: Seq<char>, c: char) -> Seq<char>
    decreases s.len(),
{
    if s.len() == 0 || s[0] == c {
        Seq::empty()
    } else {
        seq![s[0]] + before(s.drop_first(), c)
    }
}

/// The key/value entries a job text gives, in order, or the first line that
/// is not blank (after removing a `#` comment) and has no `:`.
pub open spec fn job_entries(ls: Seq<Seq<char>>) -> Result<Seq<(Seq<char>, Seq<char>)>, Seq<char>>
    decreases ls.len(),
{
    if ls.len() == 0 {
        Ok(Seq::empty())
    } else {
        match job_entries(ls.drop_last()) {
            Err(l) => Err(l),
            Ok(es) => {
                let line = trim(before(ls.last(), '#'));
                if line.len() == 0 {
                    Ok(es)
                } else if !line.contains(':') {
                    Err(line)
                } else {
                    let k = before(line, ':');
                    Ok(es.push((to_lowercase(trim(k)), trim(line.skip(k.len() + 1int)))))
                }
            },
        }
    }
}

/// The value of the last entry with key `k`.
pub open spec fn entry(es: Seq<(Seq<char>, Seq<char>)>, k: Seq<char>) -> Option<Seq<char>>
    decreases es.len(),
{
    if es.len() == 0 {
        None
    } else if es.last().0 == k {
        Some(es.last().1)
    } else {
        entry(es.drop_last(), k)
    }
}

/// The value of key `k` when it is present and not empty.
pub open spec fn nonempty(es: Seq<(Seq<char>, Seq<char>)>, k: Seq<char>) -> Option<Seq<char>> {
    match entry(es, k) {
        Some(v) => if v.len() > 0 { Some(v) } else { None },
        None => None,
    }
}

/// What `LvsJob::parse(text, base_dir)` gives: an error for the first malformed
/// line; else the job its entries give.
pub open spec fn job_spec(text: Seq<char>, base_dir: Seq<char>) -> Result<JobV, Seq<char>> {
    match job_entries(lines(text)) {
        Err(l) => Err("expected 'key: value', got "@ + quoted(l)),
        Ok(es) => job_of(es, base_dir),
    }
}

/// The job that the entries `es` (keys lower-cased) give: an error when
/// neither `layout` nor `layout_gds` is given (non-empty); else an error when
/// `schematic` is missing; else the job, the last entry of a key winning.
pub open spec fn job_of(es: Seq<(Seq<char>, Seq<char>)>, base_dir: Seq<char>) -> Result<JobV, Seq<char>> {
    let layout = nonempty(es, "layout"@);
    let layout_gds = nonempty(es, "layout_gds"@);
    if layout is None && layout_gds is None {
        Err("need `layout` (SPICE) or `layout_gds` + `rules`"@)
    } else {
        match entry(es, "schematic"@) {
            None => Err("missing key: schematic"@),
            Some(sch) => Ok(
                JobV {
                    layout,
                    layout_gds,
                    rules: nonempty(es, "rules"@),
                    pdk: nonempty(es, "pdk"@),
                    schematic: sch,
                    top: nonempty(es, "top"@),
                    base_dir,
                },
            ),
        }
    }
}

/// A line that is blank before its `#` is a comment: it adds no entry.
pub proof fn lemma_job_comment_line(ls: Seq<Seq<char>>, c: Seq<char>)
    requires
        trim(before(c, '#')).len() == 0,
    ensures
        job_entries(ls.push(c)) == job_entries(ls),
{
    assert(ls.push(c).drop_last() =~= ls);
}

/// A key the job does not know changes nothing.
pub proof fn lemma_job_unknown_key(es: Seq<(Seq<char>, Seq<char>)>, base_dir: Seq<char>, k: Seq<char>, v: Seq<char>)
    requires
        k != "layout"@,
        k != "layout_gds"@,
        k != "rules"@,
        k != "pdk"@,
        k != "schematic"@,
        k != "top"@,
    ensures
        job_of(es.push((k, v)), base_dir) == job_of(es, base_dir),
{
    let e2 = es.push((k, v));
    assert(e2.drop_last() =~= es);
    assert(e2.last() == (k, v));
    assert(e2.len() > 0);
    assert(entry(e2, "layout"@) == entry(es, "layout"@));
    assert(entry(e2, "layout_gds"@) == entry(es, "layout_gds"@));
    assert(entry(e2, "rules"@) == entry(es, "rules"@));
    assert(entry(e2, "pdk"@) == entry(es, "pdk"@));
    assert(entry(e2, "schematic"@) == entry(es, "schematic"@));
    assert(entry(e2, "top"@) == entry(es, "top"@));
}

/// A later `schematic` entry wins: appended to a job that reads, it changes
/// the schematic to its value and nothing else.
pub proof fn lemma_job_later_wins(es: Seq<(Seq<char>, Seq<char>)>, base_dir: Seq<char>, v: Seq<char>)
    requires
        job_of(es, base_dir) is Ok,
    ensures
        job_of(es.push(("schematic"@, v)), base_dir) == Ok::<JobV, Seq<char>>(
            JobV { schematic: v, ..job_of(es, base_dir)->Ok_0 },
        ),
{
    let e2 = es.push(("schematic"@, v));
    assert(e2.drop_last() =~= es);
    reveal_strlit("schematic");
    reveal_strlit("layout");
    reveal_strlit("layout_gds");
    reveal_strlit("rules");
    reveal_strlit("pdk");
    reveal_strlit("top");
    assert("schematic"@.len() != "layout"@.len());
    assert("schematic"@.len() != "layout_gds"@.len());
    assert(e2.last() == ("schematic"@, v));
    assert(entry(e2, "layout"@) == entry(es, "layout"@));
    assert(entry(e2, "layout_gds"@) == entry(es, "layout_gds"@));
    assert(entry(e2, "rules"@) == entry(es, "rules"@));
    assert(entry(e2, "pdk"@) == entry(es, "pdk"@));
    assert(entry(e2, "top"@) == entry(es, "top"@));
    assert(entry(e2, "schematic"@) == Some(v));
}

proof fn lemma_before_at(s: Seq<char>, c: char, i: int)
    requires
        0 <= i <= s.len(),
        forall|k: int| 0 <= k < i ==> s[k] != c,
        i == s.len() || s[i] == c,
    ensures
        before(s, c) == s.take(i),
    decreases i,
{
    if i == 0 {
        assert(s.take(0) =~= Seq::<char>::empty());
    } else {
        let u = s.drop_first();
        assert forall|k: int| 0 <= k < i - 1 implies u[k] != c by {
            assert(u[k] == s[k + 1]);
        }
        lemma_before_at(u, c, i - 1);
        assert(seq![s[0]] + u.take(i - 1) =~= s.take(i));
    }
}

/// Position of the first `c` in `v` (or its length).
fn find_char(v: &Vec<char>, c: char) -> (i: usize)
    ensures
        i <= v.len(),
        before(v@, c) == v@.take(i as int),
        v@.contains(c) <==> i < v.len(),
{
    let mut i: usize = 0;
    while i < v.len() && v[i] != c
        invariant
            i <= v.len(),
            forall|k: int| 0 <= k < i ==> v@[k] != c,
        decreases v.len() - i,
    {
        i += 1;
    }
    proof {
        lemma_before_at(v@, c, i as int);
        if i < v.len() {
            assert(v@[i as int] == c);
        }
    }
    i
}

/// The last entry with key `k`, by index.
fn find_entry(keys: &Vec<Vec<char>>, vals: &Vec<Vec<char>>, k: &str) -> (r: Option<usize>)
    requires
        keys.len() == vals.len(),
    ensures
        match r {
            Some(i) => i < vals.len() && entry(kv(keys@, vals@), k@) == Some(vals@[i as int]@),
            None => entry(kv(keys@, vals@), k@) is None,
        },
{
    let kc = chars_of(k);
    let ghost es = kv(keys@, vals@);
    let mut i = keys.len();
    proof {
        assert(es.take(i as int) =~= es);
    }
    while i > 0
        invariant
            i <= keys.len() == vals.len(),
            es == kv(keys@, vals@),
            kc@ == k@,
            entry(es, k@) == entry(es.take(i as int), k@),
        decreases i,
    {
        proof {
            assert(es.take(i as int).drop_last() =~= es.take(i - 1));
            assert(es.take(i as int).last() == (keys@[i - 1]@, vals@[i - 1]@));
        }
        if crate::text::eq_chars(&keys[i - 1], &kc) {
            proof {
                let t = es.take(i as int);
                assert(t.last().0 == k@);
                assert(entry(t, k@) == Some(t.last().1));
            }
            return Some(i - 1);
        }
        proof {
            let t = es.take(i as int);
            assert(t.last().0 != k@);
            assert(entry(t, k@) == entry(t.drop_last(), k@));
        }
        i -= 1;
    }
    None
}

pub open spec fn kv(keys: Seq<Vec<char>>, vals: Seq<Vec<char>>) -> Seq<(Seq<char>, Seq<char>)> {
    Seq::new(keys.len(), |i: int| (keys[i]@, vals[i]@))
}

fn opt_nonempty(keys: &Vec<Vec<char>>, vals: &Vec<Vec<char>>, k: &str) -> (r: Option<String>)
    requires
        keys.len() == vals.len(),
    ensures
        ostr(r) == nonempty(kv(keys@, vals@), k@),
{
    match find_entry(keys, vals, k) {
        Some(i) => if vals[i].len() > 0 {
            Some(string_of(&vals[i]))
        } else {
            None
        },
        None => None,
    }
}

fn msg(s: &str) -> (r: JobError)
    ensures
        r.0@ == s@,
{
    JobError(string_of(&chars_of(s)))
}

impl LvsJob {
    /// `rel` taken relative to the job's directory: an absolute path (one that
    /// starts with `/`), or any path when `base_dir` is empty, is returned
    /// as is; otherwise `base_dir` and `rel` are joined with one `/`.
    pub fn resolve(&self, rel: &str) -> (r: String)
        ensures
            r@ == resolve_spec(self.base_dir@, rel@),
    {
        let rv = chars_of(rel);
        let bv = chars_of(self.base_dir.as_str());
        if (rv.len() > 0 && rv[0] == '/') || bv.len() == 0 {
            return string_of(&rv);
        }
        let mut out = bv.clone();
        if bv[bv.len() - 1] != '/' {
            out.push('/');
        }
        push_all(&mut out, &rv);
        string_of(&out)
    }

    /// Parses a job's text; `base_dir` is the directory its relative paths are
    /// taken from.
    pub fn parse(text: &str, base_dir: &str) -> (r: Result<LvsJob, JobError>)
        ensures
            match job_spec(text@, base_dir@) {
                Ok(j) => r matches Ok(got) && got@ == j,
                Err(m) => r matches Err(e) && e.0@ == m,
            },
    {
        let cs = chars_of(text);
        let ls = split_lines(&cs);
        let ghost lv = lines(cs@);
        proof {
            assert(vv(ls@) =~= lv);
        }
        let mut keys: Vec<Vec<char>> = Vec::new();
        let mut vals: Vec<Vec<char>> = Vec::new();
        let mut i: usize = 0;
        proof {
            assert(lv.take(0) =~= Seq::<Seq<char>>::empty());
            assert(kv(keys@, vals@) =~= Seq::<(Seq<char>, Seq<char>)>::empty());
        }
        while i < ls.len()
            invariant
                i <= ls.len(),
                vv(ls@) == lv,
                lv == lines(text@),
                keys.len() == vals.len(),
                job_entries(lv.take(i as int)) == Ok::<_, Seq<char>>(kv(keys@, vals@)),
            decreases ls.len() - i,
        {
            proof {
                assert(lv.take(i + 1).drop_last() =~= lv.take(i as int));
                assert(lv.take(i + 1).last() == ls@[i as int]@);
            }
            let raw = &ls[i];
            let h = find_char(raw, '#');
            let pre = slice_of(raw, 0, h);
            let line = trim_both(&pre);
            if line.len() == 0 {
                i += 1;
                continue;
            }
            let c = find_char(&line, ':');
            if c == line.len() {
                let mut m: Vec<char> = Vec::new();
                push_str(&mut m, "expected 'key: value', got ");
                push_quoted(&mut m, &line);
                proof {
                    assert(m@ =~= "expected 'key: value', got "@ + quoted(line@));
                    assert(line@ == trim(before(lv.take(i + 1).last(), '#')));
                    assert(!line@.contains(':'));
                    assert(job_entries(lv.take(i + 1)) == Err::<Seq<(Seq<char>, Seq<char>)>, Seq<char>>(line@));
                    lemma_entries_err(lv, i as int + 1, line@);
                    assert(lv.take(lv.len() as int) =~= lv);
                }
                return Err(JobError(string_of(&m)));
            }
            let k = slice_of(&line, 0, c);
            let kt = trim_both(&k);
            let v = slice_of(&line, c + 1, line.len());
            let vt = trim_both(&v);
            let kl = lowercase(&kt);
            proof {
                assert(v@ =~= line@.skip(c + 1));
            }
            let ghost e0 = kv(keys@, vals@);
            keys.push(kl);
            vals.push(vt);
            proof {
                assert(kv(keys@, vals@) =~= e0.push((kl@, vt@)));
            }
            i += 1;
        }
        proof {
            assert(lv.take(ls.len() as int) =~= lv);
        }
        let mut entries: Vec<(String, String)> = Vec::new();
        let mut j: usize = 0;
        while j < keys.len()
            invariant
                j <= keys.len() == vals.len(),
                pairs(entries@) == kv(keys@, vals@).take(j as int),
            decreases keys.len() - j,
        {
            let ghost e0 = entries@;
            entries.push((string_of(&keys[j]), string_of(&vals[j])));
            proof {
                assert(pairs(entries@) =~= pairs(e0).push((keys@[j as int]@, vals@[j as int]@)));
                assert(kv(keys@, vals@).take(j + 1) =~= kv(keys@, vals@).take(j as int).push((keys@[j as int]@, vals@[j as int]@)));
            }
            j += 1;
        }
        proof {
            assert(kv(keys@, vals@).take(j as int) =~= kv(keys@, vals@));
        }
        LvsJob::from_entries(&entries, base_dir)
    }

    /// The job that `entries` (key, value pairs in order, keys lower-cased)
    /// give, `base_dir` being the directory relative paths are taken from.
    pub fn from_entries(entries: &Vec<(String, String)>, base_dir: &str) -> (r: Result<LvsJob, JobError>)
        ensures
            match job_of(pairs(entries@), base_dir@) {
                Ok(j) => r matches Ok(got) && got@ == j,
                Err(m) => r matches Err(e) && e.0@ == m,
            },
    {
        let mut keys: Vec<Vec<char>> = Vec::new();
        let mut vals: Vec<Vec<char>> = Vec::new();
        let mut i: usize = 0;
        while i < entries.len()
            invariant
                i <= entries.len(),
                keys.len() == vals.len(),
                kv(keys@, vals@) == pairs(entries@).take(i as int),
            decreases entries.len() - i,
        {
            let ghost e0 = kv(keys@, vals@);
            keys.push(chars_of(entries[i].0.as_str()));
            vals.push(chars_of(entries[i].1.as_str()));
            proof {
                assert(kv(keys@, vals@) =~= e0.push((entries@[i as int].0@, entries@[i as int].1@)));
                assert(pairs(entries@).take(i + 1) =~= pairs(entries@).take(i as int).push((entries@[i as int].0@, entries@[i as int].1@)));
            }
            i += 1;
        }
        proof {
            assert(pairs(entries@).take(i as int) =~= pairs(entries@));
        }
        let layout = opt_nonempty(&keys, &vals, "layout");
        let layout_gds = opt_nonempty(&keys, &vals, "layout_gds");
        if layout.is_none() && layout_gds.is_none() {
            return Err(msg("need `layout` (SPICE) or `layout_gds` + `rules`"));
        }
        let schematic = match find_entry(&keys, &vals, "schematic") {
            Some(si) => string_of(&vals[si]),
            None => {
                return Err(msg("missing key: schematic"));
            },
        };
        Ok(LvsJob {
            layout,
            layout_gds,
            rules: opt_nonempty(&keys, &vals, "rules"),
            pdk: opt_nonempty(&keys, &vals, "pdk"),
            schematic,
            top: opt_nonempty(&keys, &vals, "top"),
            base_dir: string_of(&chars_of(base_dir)),
        })
    }
}

proof fn lemma_entries_err(lv: Seq<Seq<char>>, i: int, l: Seq<char>)
    requires
        0 <= i <= lv.len(),
        job_entries(lv.take(i)) == Err::<Seq<(Seq<char>, Seq<char>)>, Seq<char>>(l),
    ensures
        job_entries(lv.take(lv.len() as int)) == Err::<Seq<(Seq<char>, Seq<char>)>, Seq<char>>(l),
    decreases lv.len() - i,
{
    if i < lv.len() {
        assert(lv.take(i + 1).drop_last() =~= lv.take(i));
        lemma_entries_err(lv, i + 1, l);
    }
}

/// Where the layout side of a job comes from.
pub enum LayoutSource {
    /// A GDS to extract with a rules file, both resolved against the job's
    /// directory.
    Gds { gds: String, rules: String },
    /// A SPICE netlist, resolved against the job's directory.
    Spice(String),
}

impl LvsJob {
    /// The layout side of the job: a GDS to extract, which needs `rules`,
    /// takes precedence over a SPICE netlist; with neither there is no
    /// layout side.
    pub fn layout_source(&self) -> (r: Result<LayoutSource, String>)
        ensures
            self.layout_gds is Some && self.rules is Some ==> (r matches Ok(LayoutSource::Gds { gds, rules }) && gds@
                == resolve_spec(self.base_dir@, self.layout_gds->0@) && rules@ == resolve_spec(self.base_dir@, self.rules->0@)),
            self.layout_gds is Some && self.rules is None ==> (r matches Err(e) && e@ == "`layout_gds` requires `rules`"@),
            self.layout_gds is None && self.layout is Some ==> (r matches Ok(LayoutSource::Spice(p)) && p@ == resolve_spec(
                self.base_dir@,
                self.layout->0@,
            )),
            self.layout_gds is None && self.layout is None ==> (r matches Err(e) && e@ == "need `layout` or `layout_gds`"@),
    {
        match &self.layout_gds {
            Some(gds) => match &self.rules {
                Some(rp) => Ok(LayoutSource::Gds { gds: self.resolve(gds.as_str()), rules: self.resolve(rp.as_str()) }),
                None => Err(string_of(&chars_of("`layout_gds` requires `rules`"))),
            },
            None => match &self.layout {
                Some(l) => Ok(LayoutSource::Spice(self.resolve(l.as_str()))),
                None => Err(string_of(&chars_of("need `layout` or `layout_gds`"))),
            },
        }
    }
}

/// An absolute path, or any path when there is no base directory, is taken
/// as it is; a relative one is placed under the base directory, with exactly
/// one `/` between the two.
pub proof fn lemma_resolve_paths(base: Seq<char>, rel: Seq<char>)
    ensures
        (rel.len() > 0 && rel[0] == '/') || base.len() == 0 ==> resolve_spec(base, rel) == rel,
        !(rel.len() > 0 && rel[0] == '/') && base.len() > 0 ==> {
            let r = resolve_spec(base, rel);
            let cut = if base.last() == '/' { base.len() - 1 } else { base.len() as int };
            &&& r == base.take(cut) + seq!['/'] + rel
            &&& (base.last() != '/' ==> r.take(base.len() as int) == base)
        },
{
    if !(rel.len() > 0 && rel[0] == '/') && base.len() > 0 {
        if base.last() == '/' {
            assert(base =~= base.take(base.len() - 1) + seq!['/']);
            assert(base + rel =~= base.take(base.len() - 1) + seq!['/'] + rel);
        } else {
            assert(base.take(base.len() as int) =~= base);
            assert((base + seq!['/'] + rel).take(base.len() as int) =~= base);
        }
    }
}

/// `rel` resolved against `base`.
pub open spec fn resolve_spec(base: Seq<char>, rel: Seq<char>) -> Seq<char> {
    if (rel.len() > 0 && rel[0] == '/') || base.len() == 0 {
        rel
    } else if base.last() == '/' {
        base + rel
    } else {
        base + seq!['/'] + rel
    }
}

} // verus!
