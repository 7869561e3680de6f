//! Character-level helpers shared by the netlist and job readers: the
//! whitespace class, trimming, tokenising and line splitting of `str`, each with
//! a specification over `Seq<char>`.
use vstd::prelude::*;

verus! {

/// The characters that Rust's `char::is_whitespace` accepts (Unicode `White_Space`).
pub open spec fn is_ws(c: char) -> bool {
    ||| c == ' '
    ||| ('\t' <= c && c <= '\r')
    ||| c == '\u{85}'
    ||| c == '\u{a0}'
    ||| c == '\u{1680}'
    ||| ('\u{2000}' <= c && c <= '\u{200a}')
    ||| c == '\u{2028}'
    ||| c == '\u{2029}'
    ||| c == '\u{202f}'
    ||| c == '\u{205f}'
    ||| c == '\u{3000}'
}

pub fn ws(c: char) -> (r: bool)
    ensures
        r == is_ws(c),
{
    c == ' ' || ('\t' <= c && c <= '\r') || c == '\u{85}' || c == '\u{a0}' || c == '\u{1680}'
        || ('\u{2000}' <= c && c <= '\u{200a}') || c == '\u{2028}' || c == '\u{2029}'
        || c == '\u{202f}' || c == '\u{205f}' || c == '\u{3000}'
}

/// ASCII lower-casing of one character (other characters are unchanged).
pub open spec fn lower_char(c: char) -> char {
    if 'A' <= c && c <= 'Z' {
        ((c as u32) + 32) as char
    } else {
        c
    }
}

/// ASCII upper-casing of one character (other characters are unchanged).
pub open spec fn upper_char(c: char) -> char {
    if 'a' <= c && c <= 'z' {
        ((c as u32) - 32) as char
    } else {
        c
    }
}

pub open spec fn lower(s: Seq<char>) -> Seq<char> {
    s.map_values(|c: char| lower_char(c))
}

pub open spec fn upper(s: Seq<char>) -> Seq<char> {
    s.map_values(|c: char| upper_char(c))
}

pub fn ascii_lower(c: char) -> (r: char)
    ensures
        r == lower_char(c),
{
    if 'A' <= c && c <= 'Z' {
        ((c as u8) + 32) as char
    } else {
        c
    }
}

pub fn ascii_upper(c: char) -> (r: char)
    ensures
        r == upper_char(c),
{
    if 'a' <= c && c <= 'z' {
        ((c as u8) - 32) as char
    } else {
        c
    }
}

/// The characters of `s`, in order.
pub fn chars_of(s: &str) -> (v: Vec<char>)
    ensures
        v@ == s@,
{
    let mut v: Vec<char> = Vec::new();
    for c in it: s.chars()
        invariant
            v@ == it.seq().take(it.index() as int),
    {
        v.push(c);
    }
    v
}

/// Builds a `String` from characters: `FromIterator<char>` for `String`, which
/// the standard library documents as concatenating the characters in order.
#[verifier::external_body]
pub(crate) fn string_of(v: &[char]) -> (s: String)
    ensures
        s@ == v@,
{
    v.iter().collect()
}


/// `s` without its leading whitespace (`str::trim_start`).
pub open spec fn ltrim(s: Seq<char>) -> Seq<char>
    decreases s.len(),
{
    if s.len() > 0 && is_ws(s[0]) {
        ltrim(s.drop_first())
    } else {
        s
    }
}

/// `s` without its trailing whitespace (`str::trim_end`).
pub open spec fn rtrim(s: Seq<char>) -> Seq<char>
    decreases s.len(),
{
    if s.len() > 0 && is_ws(s.last()) {
        rtrim(s.drop_last())
    } else {
        s
    }
}

/// `s` without leading and trailing whitespace (`str::trim`).
pub open spec fn trim(s: Seq<char>) -> Seq<char> {
    rtrim(ltrim(s))
}

pub(crate) proof fn lemma_ltrim_at(s: Seq<char>, i: int)
    requires
        0 <= i <= s.len(),
        forall|k: int| 0 <= k < i ==> is_ws(#[trigger] s[k]),
        i == s.len() || !is_ws(s[i]),
    ensures
        ltrim(s) == s.subrange(i, s.len() as int),
    decreases i,
{
    if i == 0 {
        assert(s.subrange(0, s.len() as int) =~= s);
    } else {
        let t = s.drop_first();
        assert forall|k: int| 0 <= k < i - 1 implies is_ws(#[trigger] t[k]) by {
            assert(t[k] == s[k + 1]);
        }
        lemma_ltrim_at(t, i - 1);
        assert(t.subrange(i - 1, t.len() as int) =~= s.subrange(i, s.len() as int));
    }
}

pub(crate) proof fn lemma_rtrim_at(s: Seq<char>, j: int)
    requires
        0 <= j <= s.len(),
        forall|k: int| j <= k < s.len() ==> is_ws(#[trigger] s[k]),
        j == 0 || !is_ws(s[j - 1]),
    ensures
        rtrim(s) == s.subrange(0, j),
    decreases s.len() - j,
{
    if j == s.len() {
        assert(s.subrange(0, j) =~= s);
    } else {
        let t = s.drop_last();
        assert forall|k: int| j <= k < t.len() implies is_ws(#[trigger] t[k]) by {
            assert(t[k] == s[k]);
        }
        lemma_rtrim_at(t, j);
        assert(t.subrange(0, j) =~= s.subrange(0, j));
    }
}

/// Index of the first non-whitespace character of `v[lo..hi]` (or `hi`).
fn skip_ws(v: &Vec<char>, lo: usize, hi: usize) -> (i: usize)
    requires
        lo <= hi <= v.len(),
    ensures
        lo <= i <= hi,
        forall|k: int| lo <= k < i ==> is_ws(#[trigger] v@[k]),
        i == hi || !is_ws(v@[i as int]),
{
    let mut i = lo;
    while i < hi && ws(v[i])
        invariant
            lo <= i <= hi <= v.len(),
            forall|k: int| lo <= k < i ==> is_ws(#[trigger] v@[k]),
        decreases hi - i,
    {
        i += 1;
    }
    i
}

/// One past the last non-whitespace character of `v[lo..hi]` (or `lo`).
fn skip_ws_back(v: &Vec<char>, lo: usize, hi: usize) -> (j: usize)
    requires
        lo <= hi <= v.len(),
    ensures
        lo <= j <= hi,
        forall|k: int| j <= k < hi ==> is_ws(#[trigger] v@[k]),
        j == lo || !is_ws(v@[j - 1]),
{
    let mut j = hi;
    while j > lo && ws(v[j - 1])
        invariant
            lo <= j <= hi <= v.len(),
            forall|k: int| j <= k < hi ==> is_ws(#[trigger] v@[k]),
        decreases j - lo,
    {
        j -= 1;
    }
    j
}

/// The characters `v[lo..hi]`.
pub fn slice_of(v: &Vec<char>, lo: usize, hi: usize) -> (r: Vec<char>)
    requires
        lo <= hi <= v.len(),
    ensures
        r@ == v@.subrange(lo as int, hi as int),
{
    let mut r: Vec<char> = Vec::new();
    let mut i = lo;
    while i < hi
        invariant
            lo <= i <= hi <= v.len(),
            r@ == v@.subrange(lo as int, i as int),
        decreases hi - i,
    {
        r.push(v[i]);
        i += 1;
    }
    r
}

pub fn trim_start(v: &Vec<char>) -> (r: Vec<char>)
    ensures
        r@ == ltrim(v@),
{
    let i = skip_ws(v, 0, v.len());
    proof {
        lemma_ltrim_at(v@, i as int);
    }
    slice_of(v, i, v.len())
}

pub fn trim_end(v: &Vec<char>) -> (r: Vec<char>)
    ensures
        r@ == rtrim(v@),
{
    let j = skip_ws_back(v, 0, v.len());
    proof {
        lemma_rtrim_at(v@, j as int);
    }
    slice_of(v, 0, j)
}

pub fn trim_both(v: &Vec<char>) -> (r: Vec<char>)
    ensures
        r@ == trim(v@),
{
    let a = trim_start(v);
    trim_end(&a)
}

/// Whitespace-separated tokens (`str::split_whitespace`): the tokens found
/// so far, and the token being read, after scanning `s`.
pub open spec fn tok_state(s: Seq<char>) -> (Seq<Seq<char>>, Seq<char>)
    decreases s.len(),
{
    if s.len() == 0 {
        (Seq::empty(), Seq::empty())
    } else {
        let (done, cur) = tok_state(s.drop_last());
        if is_ws(s.last()) {
            if cur.len() > 0 {
                (done.push(cur), Seq::empty())
            } else {
                (done, cur)
            }
        } else {
            (done, cur.push(s.last()))
        }
    }
}

/// The whitespace-separated tokens of `s`, in order (`str::split_whitespace`).
pub open spec fn tokens(s: Seq<char>) -> Seq<Seq<char>> {
    let (done, cur) = tok_state(s);
    if cur.len() > 0 {
        done.push(cur)
    } else {
        done
    }
}

pub fn split_ws(v: &Vec<char>) -> (r: Vec<Vec<char>>)
    ensures
        r@.len() == tokens(v@).len(),
        forall|k: int| 0 <= k < r@.len() ==> #[trigger] r@[k]@ == tokens(v@)[k],
{
    let mut done: Vec<Vec<char>> = Vec::new();
    let mut cur: Vec<char> = Vec::new();
    let mut i: usize = 0;
    while i < v.len()
        invariant
            i <= v.len(),
            done@.len() == tok_state(v@.take(i as int)).0.len(),
            forall|k: int|
                0 <= k < done@.len() ==> #[trigger] done@[k]@ == tok_state(v@.take(i as int)).0[k],
            cur@ == tok_state(v@.take(i as int)).1,
        decreases v.len() - i,
    {
        proof {
            assert(v@.take(i + 1).drop_last() =~= v@.take(i as int));
        }
        let c = v[i];
        if ws(c) {
            if cur.len() > 0 {
                done.push(cur);
                cur = Vec::new();
            }
        } else {
            cur.push(c);
        }
        i += 1;
    }
    proof {
        assert(v@.take(v.len() as int) =~= v@);
    }
    if cur.len() > 0 {
        done.push(cur);
    }
    done
}

/// `s` with one trailing carriage return removed, if it has one.
pub open spec fn strip_cr(s: Seq<char>) -> Seq<char> {
    if s.len() > 0 && s.last() == '\r' {
        s.drop_last()
    } else {
        s
    }
}

/// Lines (`str::lines`): the finished lines and the line being read after scanning `s`.
pub open spec fn line_state(s: Seq<char>) -> (Seq<Seq<char>>, Seq<char>)
    decreases s.len(),
{
    if s.len() == 0 {
        (Seq::empty(), Seq::empty())
    } else {
        let (done, cur) = line_state(s.drop_last());
        if s.last() == '\n' {
            (done.push(strip_cr(cur)), Seq::empty())
        } else {
            (done, cur.push(s.last()))
        }
    }
}

/// The lines of `s` as `str::lines` yields them: split at `\n`, a `\r`
/// directly before a `\n` dropped, and no empty line after a final `\n`.
pub open spec fn lines(s: Seq<char>) -> Seq<Seq<char>> {
    let (done, cur) = line_state(s);
    if cur.len() > 0 {
        done.push(cur)
    } else {
        done
    }
}

pub fn split_lines(v: &Vec<char>) -> (r: Vec<Vec<char>>)
    ensures
        r@.len() == lines(v@).len(),
        forall|k: int| 0 <= k < r@.len() ==> #[trigger] r@[k]@ == lines(v@)[k],
{
    let mut done: Vec<Vec<char>> = Vec::new();
    let mut cur: Vec<char> = Vec::new();
    let mut i: usize = 0;
    while i < v.len()
        invariant
            i <= v.len(),
            done@.len() == line_state(v@.take(i as int)).0.len(),
            forall|k: int|
                0 <= k < done@.len() ==> #[trigger] done@[k]@ == line_state(v@.take(i as int)).0[k],
            cur@ == line_state(v@.take(i as int)).1,
        decreases v.len() - i,
    {
        proof {
            assert(v@.take(i + 1).drop_last() =~= v@.take(i as int));
        }
        let c = v[i];
        if c == '\n' {
            if cur.len() > 0 && cur[cur.len() - 1] == '\r' {
                cur.pop();
            }
            done.push(cur);
            cur = Vec::new();
        } else {
            cur.push(c);
        }
        i += 1;
    }
    proof {
        assert(v@.take(v.len() as int) =~= v@);
    }
    if cur.len() > 0 {
        done.push(cur);
    }
    done
}

/// The decimal digit for `d < 10`.
pub open spec fn digit(d: nat) -> char {
    if d == 0 { '0' } else if d == 1 { '1' } else if d == 2 { '2' } else if d == 3 { '3' }
    else if d == 4 { '4' } else if d == 5 { '5' } else if d == 6 { '6' } else if d == 7 { '7' }
    else if d == 8 { '8' } else { '9' }
}

/// The decimal representation of `n`, as `Display` writes an unsigned integer.
pub open spec fn dec(n: nat) -> Seq<char>
    decreases n,
{
    if n < 10 {
        seq![digit(n)]
    } else {
        dec(n / 10).push(digit(n % 10))
    }
}

fn digit_char(d: usize) -> (c: char)
    requires
        d < 10,
    ensures
        c == digit(d as nat),
{
    if d == 0 { '0' } else if d == 1 { '1' } else if d == 2 { '2' } else if d == 3 { '3' }
    else if d == 4 { '4' } else if d == 5 { '5' } else if d == 6 { '6' } else if d == 7 { '7' }
    else if d == 8 { '8' } else { '9' }
}

/// Appends the decimal representation of `n` to `out`.
pub fn push_dec(out: &mut Vec<char>, n: usize)
    ensures
        final(out)@ == old(out)@ + dec(n as nat),
    decreases n,
{
    if n < 10 {
        out.push(digit_char(n));
    } else {
        push_dec(out, n / 10);
        out.push(digit_char(n % 10));
    }
}

/// Appends the decimal representation of `n` to `out`.
pub fn push_dec_u64(out: &mut Vec<char>, n: u64)
    ensures
        final(out)@ == old(out)@ + dec(n as nat),
    decreases n,
{
    if n < 10 {
        push_dec(out, n as usize);
    } else {
        push_dec_u64(out, n / 10);
        push_dec(out, (n % 10) as usize);
        proof {
            assert(dec((n % 10) as nat) == seq![digit((n % 10) as nat)]);
        }
    }
}

/// Appends the characters of `s` to `out`.
pub fn push_str(out: &mut Vec<char>, s: &str)
    ensures
        final(out)@ == old(out)@ + s@,
{
    let cs = chars_of(s);
    push_all(out, &cs);
}

/// Appends `v` to `out`.
pub fn push_all(out: &mut Vec<char>, v: &Vec<char>)
    ensures
        final(out)@ == old(out)@ + v@,
{
    let ghost o = out@;
    let mut i: usize = 0;
    while i < v.len()
        invariant
            i <= v.len(),
            out@ == o + v@.take(i as int),
        decreases v.len() - i,
    {
        proof {
            assert(v@.take(i + 1) =~= v@.take(i as int).push(v@[i as int]));
        }
        out.push(v[i]);
        i += 1;
    }
    proof {
        assert(v@.take(v.len() as int) =~= v@);
    }
}


/// `s` up to (not including) its first `;` or `$` (an inline comment).
pub open spec fn cut_comment(s: Seq<char>) -> Seq<char>
    decreases s.len(),
{
    if s.len() == 0 {
        s
    } else if s[0] == ';' || s[0] == '$' {
        Seq::empty()
    } else {
        seq![s[0]] + cut_comment(s.drop_first())
    }
}

/// `s` without its leading run of `c` (`str::trim_start_matches(c)`).
pub open spec fn drop_lead(s: Seq<char>, c: char) -> Seq<char>
    decreases s.len(),
{
    if s.len() > 0 && s[0] == c {
        drop_lead(s.drop_first(), c)
    } else {
        s
    }
}

pub(crate) proof fn lemma_cut_at(s: Seq<char>, i: int)
    requires
        0 <= i <= s.len(),
        forall|k: int| 0 <= k < i ==> #[trigger] s[k] != ';' && s[k] != '$',
        i == s.len() || s[i] == ';' || s[i] == '$',
    ensures
        cut_comment(s) == s.take(i),
    decreases i,
{
    if i == 0 {
        if s.len() == 0 {
            assert(s.take(0) =~= s);
        } else {
            assert(s.take(0) =~= Seq::<char>::empty());
        }
    } else {
        let t = s.drop_first();
        assert forall|k: int| 0 <= k < i - 1 implies #[trigger] t[k] != ';' && t[k] != '$' by {
            assert(t[k] == s[k + 1]);
        }
        lemma_cut_at(t, i - 1);
        assert(seq![s[0]] + t.take(i - 1) =~= s.take(i));
    }
}

pub fn cut_comment_exec(v: &Vec<char>) -> (r: Vec<char>)
    ensures
        r@ == cut_comment(v@),
{
    let mut i: usize = 0;
    while i < v.len() && v[i] != ';' && v[i] != '$'
        invariant
            i <= v.len(),
            forall|k: int| 0 <= k < i ==> #[trigger] v@[k] != ';' && v@[k] != '$',
        decreases v.len() - i,
    {
        i += 1;
    }
    proof {
        lemma_cut_at(v@, i as int);
    }
    slice_of(v, 0, i)
}

pub(crate) proof fn lemma_drop_lead_at(s: Seq<char>, c: char, i: int)
    requires
        0 <= i <= s.len(),
        forall|k: int| 0 <= k < i ==> #[trigger] s[k] == c,
        i == s.len() || s[i] != c,
    ensures
        drop_lead(s, c) == s.subrange(i, s.len() as int),
    decreases i,
{
    if i == 0 {
        assert(s.subrange(0, s.len() as int) =~= s);
    } else {
        let t = s.drop_first();
        assert forall|k: int| 0 <= k < i - 1 implies #[trigger] t[k] == c by {
            assert(t[k] == s[k + 1]);
        }
        lemma_drop_lead_at(t, c, i - 1);
        assert(t.subrange(i - 1, t.len() as int) =~= s.subrange(i, s.len() as int));
    }
}

pub fn drop_lead_exec(v: &Vec<char>, c: char) -> (r: Vec<char>)
    ensures
        r@ == drop_lead(v@, c),
{
    let mut i: usize = 0;
    while i < v.len() && v[i] == c
        invariant
            i <= v.len(),
            forall|k: int| 0 <= k < i ==> #[trigger] v@[k] == c,
        decreases v.len() - i,
    {
        i += 1;
    }
    proof {
        lemma_drop_lead_at(v@, c, i as int);
    }
    slice_of(v, i, v.len())
}

/// Element-wise equality of two character vectors.
pub fn eq_chars(a: &Vec<char>, b: &Vec<char>) -> (r: bool)
    ensures
        r == (a@ == b@),
{
    if a.len() != b.len() {
        return false;
    }
    let mut i: usize = 0;
    while i < a.len()
        invariant
            i <= a.len() == b.len(),
            forall|k: int| 0 <= k < i ==> a@[k] == b@[k],
        decreases a.len() - i,
    {
        if a[i] != b[i] {
            return false;
        }
        i += 1;
    }
    proof {
        assert(a@ =~= b@);
    }
    true
}

/// ASCII lower-casing of a character vector.
pub fn lower_vec(v: &Vec<char>) -> (r: Vec<char>)
    ensures
        r@ == lower(v@),
{
    let mut r: Vec<char> = Vec::new();
    let mut i: usize = 0;
    while i < v.len()
        invariant
            i <= v.len(),
            r@ == lower(v@.take(i as int)),
        decreases v.len() - i,
    {
        proof {
            assert(lower(v@.take(i + 1)) =~= lower(v@.take(i as int)).push(lower_char(v@[i as int])));
        }
        r.push(ascii_lower(v[i]));
        i += 1;
    }
    proof {
        assert(v@.take(v.len() as int) =~= v@);
    }
    r
}

/// ASCII upper-casing of a character vector.
pub fn upper_vec(v: &Vec<char>) -> (r: Vec<char>)
    ensures
        r@ == upper(v@),
{
    let mut r: Vec<char> = Vec::new();
    let mut i: usize = 0;
    while i < v.len()
        invariant
            i <= v.len(),
            r@ == upper(v@.take(i as int)),
        decreases v.len() - i,
    {
        proof {
            assert(upper(v@.take(i + 1)) =~= upper(v@.take(i as int)).push(upper_char(v@[i as int])));
        }
        r.push(ascii_upper(v[i]));
        i += 1;
    }
    proof {
        assert(v@.take(v.len() as int) =~= v@);
    }
    r
}


// ---------------------------------------------------------------- keys

/// A self-delimiting encoding of one string: its length, `:`, the string.
pub open spec fn enc(s: Seq<char>) -> Seq<char> {
    dec(s.len()) + seq![':'] + s
}

/// The encodings of a list of strings, concatenated.
pub open spec fn enc_list(v: Seq<Seq<char>>) -> Seq<char>
    decreases v.len(),
{
    if v.len() == 0 {
        Seq::empty()
    } else {
        enc_list(v.drop_last()) + enc(v.last())
    }
}

pub proof fn lemma_dec_digits(n: nat)
    ensures
        dec(n).len() >= 1,
        forall|k: int| 0 <= k < dec(n).len() ==> #[trigger] dec(n)[k] != ':',
    decreases n,
{
    if n >= 10 {
        lemma_dec_digits(n / 10);
    }
}

pub proof fn lemma_dec_injective(n: nat, m: nat)
    requires
        dec(n) == dec(m),
    ensures
        n == m,
    decreases n + m,
{
    lemma_dec_digits(n);
    lemma_dec_digits(m);
    if n >= 10 && m >= 10 {
        lemma_dec_digits(n / 10);
        lemma_dec_digits(m / 10);
        assert(dec(n / 10) =~= dec(n).drop_last());
        assert(dec(m / 10) =~= dec(m).drop_last());
        lemma_dec_injective(n / 10, m / 10);
        assert(dec(n).last() == digit(n % 10));
        assert(dec(m).last() == digit(m % 10));
        lemma_digit_injective(n % 10, m % 10);
    } else if n >= 10 {
        lemma_dec_digits(n / 10);
        assert(dec(n).len() >= 2);
    } else if m >= 10 {
        lemma_dec_digits(m / 10);
        assert(dec(m).len() >= 2);
    } else {
        assert(dec(n)[0] == digit(n));
        assert(dec(m)[0] == digit(m));
        lemma_digit_injective(n, m);
    }
}

proof fn lemma_digit_injective(a: nat, b: nat)
    requires
        a < 10,
        b < 10,
        digit(a) == digit(b),
    ensures
        a == b,
{
}

/// An encoded string at the front of a text determines it and what follows.
pub proof fn lemma_enc_cancel(s1: Seq<char>, s2: Seq<char>, r1: Seq<char>, r2: Seq<char>)
    requires
        enc(s1) + r1 == enc(s2) + r2,
    ensures
        s1 == s2,
        r1 == r2,
{
    let e = enc(s1) + r1;
    let d1 = dec(s1.len());
    let d2 = dec(s2.len());
    lemma_dec_digits(s1.len());
    lemma_dec_digits(s2.len());
    assert(e[d1.len() as int] == ':');
    assert((enc(s2) + r2)[d2.len() as int] == ':');
    if d1.len() < d2.len() {
        assert(e[d1.len() as int] == d2[d1.len() as int]);
    } else if d2.len() < d1.len() {
        assert(e[d2.len() as int] == d1[d2.len() as int]);
    }
    assert(d1.len() == d2.len());
    assert(d1 =~= e.take(d1.len() as int));
    assert(d2 =~= (enc(s2) + r2).take(d2.len() as int));
    lemma_dec_injective(s1.len(), s2.len());
    let h: int = d1.len() as int + 1;
    assert(s1 =~= e.subrange(h, h + s1.len()));
    assert(s2 =~= (enc(s2) + r2).subrange(h, h + s2.len()));
    assert(r1 =~= e.skip(h + s1.len()));
    assert(r2 =~= (enc(s2) + r2).skip(h + s2.len()));
}

proof fn lemma_enc_list_front(v: Seq<Seq<char>>)
    requires
        v.len() > 0,
    ensures
        enc_list(v) == enc(v[0]) + enc_list(v.drop_first()),
    decreases v.len(),
{
    if v.len() == 1 {
        assert(v.drop_first() =~= Seq::<Seq<char>>::empty());
        assert(v.drop_last() =~= Seq::<Seq<char>>::empty());
        assert(enc_list(v.drop_last()) =~= Seq::<char>::empty());
        assert(v.last() == v[0]);
        assert(enc_list(v) =~= enc(v[0]));
    } else {
        lemma_enc_list_front(v.drop_last());
        assert(v.drop_last().drop_first() =~= v.drop_first().drop_last());
        assert(v.drop_first().last() == v.last());
        assert(enc_list(v) =~= enc(v[0]) + enc_list(v.drop_first()));
    }
}

/// Different lists of strings have different encodings.
pub proof fn lemma_enc_list_injective(v1: Seq<Seq<char>>, v2: Seq<Seq<char>>)
    requires
        enc_list(v1) == enc_list(v2),
    ensures
        v1 == v2,
    decreases v1.len(),
{
    if v1.len() == 0 && v2.len() == 0 {
        assert(v1 =~= v2);
    } else if v1.len() == 0 {
        lemma_enc_list_front(v2);
        lemma_dec_digits(v2[0].len());
        assert(enc_list(v2).len() > 0);
    } else if v2.len() == 0 {
        lemma_enc_list_front(v1);
        lemma_dec_digits(v1[0].len());
        assert(enc_list(v1).len() > 0);
    } else {
        lemma_enc_list_front(v1);
        lemma_enc_list_front(v2);
        lemma_enc_cancel(v1[0], v2[0], enc_list(v1.drop_first()), enc_list(v2.drop_first()));
        lemma_enc_list_injective(v1.drop_first(), v2.drop_first());
        assert(v1 =~= seq![v1[0]] + v1.drop_first());
        assert(v2 =~= seq![v2[0]] + v2.drop_first());
    }
}

/// Appends `enc(v)` to `out`.
pub fn push_enc(out: &mut Vec<char>, v: &Vec<char>)
    ensures
        final(out)@ == old(out)@ + enc(v@),
{
    push_dec(out, v.len());
    out.push(':');
    push_all(out, v);
    proof {
        assert(final(out)@ =~= old(out)@ + enc(v@));
    }
}

} // verus!
