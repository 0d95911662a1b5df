//! Paths, references and the page wrapper of the renderer.
use vstd::prelude::*;
use crate::ast::{Target, TargetM};
use crate::text::{chars_of, ends_with, has_suffix, is_digit, push_all, push_str, slice_of, string_of, trim, trimmed};
pub use crate::render::{Compiler, Render};

verus! {

// ---------------------------------------------------------------------------
// file keys
/// The parts of a path between `/`.
pub open spec fn split_slash_go(s: Seq<char>, i: int, parts: Seq<Seq<char>>, cur: Seq<char>) -> Seq<
    Seq<char>,
>
    decreases s.len() - i,
{
    if i >= s.len() || i < 0 {
        parts.push(cur)
    } else if s[i] == '/' {
        split_slash_go(s, i + 1, parts.push(cur), Seq::empty())
    } else {
        split_slash_go(s, i + 1, parts, cur.push(s[i]))
    }
}

/// Resolving `.` and `..` components of the parts of a path.
pub open spec fn norm_go(parts: Seq<Seq<char>>, k: int, acc: Seq<Seq<char>>) -> Seq<Seq<char>>
    decreases parts.len() - k,
{
    if k >= parts.len() || k < 0 {
        acc
    } else {
        let p = parts[k];
        if p.len() == 0 || p == "."@ {
            norm_go(parts, k + 1, acc)
        } else if p == ".."@ {
            norm_go(
                parts,
                k + 1,
                if acc.len() > 0 {
                    acc.drop_last()
                } else {
                    acc
                },
            )
        } else {
            norm_go(parts, k + 1, acc.push(p))
        }
    }
}

/// `parts.join("/")`.
pub open spec fn join_slash(s: Seq<Seq<char>>) -> Seq<char>
    decreases s.len(),
{
    if s.len() == 0 {
        Seq::empty()
    } else if s.len() == 1 {
        s[0]
    } else {
        join_slash(s.drop_last()) + "/"@ + s.last()
    }
}

/// A path without empty, `.` and `..` components, relative to the root.
pub open spec fn normalize_of(p: Seq<char>) -> Seq<char> {
    join_slash(norm_go(split_slash_go(p, 0, Seq::empty(), Seq::empty()), 0, Seq::empty()))
}

/// The key of the file that `reference` names from directory `base_dir`.
pub open spec fn file_key_of(base_dir: Seq<char>, reference: Seq<char>) -> Seq<char> {
    if base_dir.len() == 0 {
        normalize_of(reference)
    } else {
        normalize_of(base_dir + "/"@ + reference)
    }
}

pub open spec fn vv(s: Seq<Vec<char>>) -> Seq<Seq<char>> {
    s.map_values(|v: Vec<char>| v@)
}

fn split_slash(s: &[char]) -> (parts: Vec<Vec<char>>)
    ensures
        vv(parts@) == split_slash_go(s@, 0, Seq::empty(), Seq::empty()),
{
    let mut parts: Vec<Vec<char>> = Vec::new();
    let mut cur: Vec<char> = Vec::new();
    let mut i: usize = 0;
    assert(vv(parts@) =~= Seq::<Seq<char>>::empty());
    while i < s.len()
        invariant
            i <= s@.len(),
            split_slash_go(s@, i as int, vv(parts@), cur@) == split_slash_go(
                s@,
                0,
                Seq::empty(),
                Seq::empty(),
            ),
        decreases s@.len() - i,
    {
        if s[i] == '/' {
            assert(vv(parts@.push(cur)) =~= vv(parts@).push(cur@));
            parts.push(cur);
            cur = Vec::new();
        } else {
            cur.push(s[i]);
        }
        i = i + 1;
    }
    assert(vv(parts@.push(cur)) =~= vv(parts@).push(cur@));
    parts.push(cur);
    parts
}

fn is_lit(v: &[char], lit: &str) -> (b: bool)
    ensures
        b == (v@ == lit@),
{
    let l = chars_of(lit);
    crate::text::same(v, &l)
}

fn join_slash_exec(s: &Vec<Vec<char>>) -> (r: Vec<char>)
    ensures
        r@ == join_slash(vv(s@)),
{
    let mut out: Vec<char> = Vec::new();
    let mut k: usize = 0;
    while k < s.len()
        invariant
            k <= s@.len(),
            out@ == join_slash(vv(s@).take(k as int)),
        decreases s@.len() - k,
    {
        assert(vv(s@).take(k + 1).drop_last() =~= vv(s@).take(k as int));
        if k > 0 {
            push_str(&mut out, "/");
        }
        push_all(&mut out, &s[k]);
        k = k + 1;
    }
    assert(vv(s@).take(k as int) =~= vv(s@));
    out
}

fn normalize(p: &[char]) -> (r: Vec<char>)
    ensures
        r@ == normalize_of(p@),
{
    let parts = split_slash(p);
    let mut acc: Vec<Vec<char>> = Vec::new();
    let mut k: usize = 0;
    assert(vv(acc@) =~= Seq::<Seq<char>>::empty());
    while k < parts.len()
        invariant
            k <= parts@.len(),
            norm_go(vv(parts@), k as int, vv(acc@)) == norm_go(vv(parts@), 0, Seq::empty()),
        decreases parts@.len() - k,
    {
        let part = &parts[k];
        assert(vv(parts@)[k as int] == part@);
        if part.len() == 0 || is_lit(part, ".") {
        } else if is_lit(part, "..") {
            if acc.len() > 0 {
                let ghost before = vv(acc@);
                acc.pop();
                assert(vv(acc@) =~= before.drop_last());
            }
        } else {
            let c = crate::text::slice_of(part, 0, part.len());
            assert(c@ =~= part@);
            assert(vv(acc@.push(c)) =~= vv(acc@).push(c@));
            acc.push(c);
        }
        k = k + 1;
    }
    join_slash_exec(&acc)
}

} // verus!

verus! {

/// The key of the file that `reference` names from directory `base_dir`:
/// the joined path with empty and `.` components dropped and `..` going up.
pub fn resolve_file_key(base_dir: &str, reference: &str) -> (r: String)
    ensures
        r@ == file_key_of(base_dir@, reference@),
        file_key_of(Seq::empty(), r@) == r@,
        r@.len() > 0 ==> forall|j: int|
            0 <= j < split_slash_go(r@, 0, Seq::empty(), Seq::empty()).len() ==> {
                let seg = #[trigger] split_slash_go(r@, 0, Seq::empty(), Seq::empty())[j];
                seg.len() > 0 && seg != "."@ && seg != ".."@
            },
{
    proof {
        lemma_file_key_fixed(base_dir@, reference@);
        if base_dir@.len() == 0 {
            lemma_normalize_segments(reference@);
        } else {
            lemma_normalize_segments(base_dir@ + "/"@ + reference@);
        }
    }
    let b = chars_of(base_dir);
    let mut p: Vec<char> = Vec::new();
    if b.len() > 0 {
        push_all(&mut p, &b);
        push_str(&mut p, "/");
    }
    push_str(&mut p, reference);
    let n = normalize(&p);
    string_of(&n)
}

/// Index of the last `/`.
pub open spec fn last_slash(s: Seq<char>) -> Option<int>
    decreases s.len(),
{
    if s.len() == 0 {
        None
    } else if s.last() == '/' {
        Some(s.len() - 1)
    } else {
        last_slash(s.drop_last())
    }
}

/// The directory part of a file key (empty at the root).
pub open spec fn base_dir_of(key: Seq<char>) -> Seq<char> {
    match last_slash(key) {
        Some(i) => key.take(i),
        None => Seq::empty(),
    }
}

proof fn lemma_last_slash(s: Seq<char>, k: int)
    requires
        0 <= k <= s.len(),
        forall|j: int| k <= j < s.len() ==> #[trigger] s[j] != '/',
        k > 0 ==> s[k - 1] == '/',
    ensures
        last_slash(s) == (if k > 0 {
            Some(k - 1)
        } else {
            None::<int>
        }),
    decreases s.len() - k,
{
    if k < s.len() {
        assert(s.drop_last().len() == s.len() - 1);
        assert forall|j: int| k <= j < s.drop_last().len() implies #[trigger] s.drop_last()[j]
            != '/' by {
            assert(s.drop_last()[j] == s[j]);
        }
        if k > 0 {
            assert(s.drop_last()[k - 1] == s[k - 1]);
        }
        lemma_last_slash(s.drop_last(), k);
    }
}

pub fn base_dir(key: &[char]) -> (r: Vec<char>)
    ensures
        r@ == base_dir_of(key@),
{
    let mut k = key.len();
    while k > 0 && key[k - 1] != '/'
        invariant
            k <= key@.len(),
            forall|j: int| k <= j < key@.len() ==> #[trigger] key@[j] != '/',
        decreases k,
    {
        k = k - 1;
    }
    proof {
        lemma_last_slash(key@, k as int);
    }
    if k > 0 {
        let r = slice_of(key, 0, k - 1);
        assert(r@ =~= key@.take(k - 1));
        r
    } else {
        Vec::new()
    }
}

// ---------------------------------------------------------------------------
// references
/// `{expr}` loses its braces after trimming.
pub open spec fn strip_braces_of(s0: Seq<char>) -> Seq<char> {
    let s = trim(s0);
    if s.len() >= 2 && s[0] == '{' && s.last() == '}' {
        s.subrange(1, s.len() - 1)
    } else {
        s
    }
}

pub fn strip_braces(s0: &[char]) -> (r: Vec<char>)
    ensures
        r@ == strip_braces_of(s0@),
{
    let s = trimmed(s0);
    let n = s.len();
    if n >= 2 && s[0] == '{' && s[n - 1] == '}' {
        slice_of(&s, 1, n - 1)
    } else {
        s
    }
}

/// One step of a reference: `.field`, `[n]`, `["key"]` or `[key]`.
#[derive(Debug)]
pub enum Seg {
    Field(String),
    Index(i64),
}

pub enum SegM {
    Field(Seq<char>),
    Index(int),
}

impl View for Seg {
    type V = SegM;

    open spec fn view(&self) -> SegM {
        match self {
            Seg::Field(s) => SegM::Field(s@),
            Seg::Index(n) => SegM::Index(*n as int),
        }
    }
}

pub open spec fn segs_view(s: Seq<Seg>) -> Seq<SegM> {
    s.map_values(|g: Seg| g@)
}

pub open spec fn digit_val(c: char) -> int {
    (c as u32) - ('0' as u32)
}

pub open spec fn all_digits(s: Seq<char>) -> bool {
    forall|i: int| 0 <= i < s.len() ==> is_digit(#[trigger] s[i])
}

pub open spec fn i64_cap() -> int {
    9223372036854775809
}

/// Decimal value of digits, saturated just above the `i64` range.
pub open spec fn sat_dec(s: Seq<char>) -> int
    decreases s.len(),
{
    if s.len() == 0 {
        0
    } else {
        let v = sat_dec(s.drop_last()) * 10 + digit_val(s.last());
        if v > i64_cap() {
            i64_cap()
        } else {
            v
        }
    }
}

/// `str::parse::<i64>`.
pub open spec fn parse_i64_of(s: Seq<char>) -> Option<int> {
    let neg = s.len() > 0 && s[0] == '-';
    let ds = if s.len() > 0 && (s[0] == '-' || s[0] == '+') {
        s.drop_first()
    } else {
        s
    };
    if ds.len() > 0 && all_digits(ds) {
        let v = if neg {
            -sat_dec(ds)
        } else {
            sat_dec(ds)
        };
        if i64::MIN <= v <= i64::MAX {
            Some(v)
        } else {
            None
        }
    } else {
        None
    }
}

fn parse_i64(s: &[char]) -> (r: Option<i64>)
    ensures
        match r {
            Some(n) => parse_i64_of(s@) == Some(n as int),
            None => parse_i64_of(s@) is None,
        },
{
    let n = s.len();
    let neg = n > 0 && s[0] == '-';
    let start: usize = if n > 0 && (s[0] == '-' || s[0] == '+') {
        1
    } else {
        0
    };
    let ds = slice_of(s, start, n);
    let ghost dsv = if s@.len() > 0 && (s@[0] == '-' || s@[0] == '+') {
        s@.drop_first()
    } else {
        s@
    };
    proof {
        if start == 1 {
            assert(ds@ =~= s@.drop_first());
        } else {
            assert(ds@ =~= s@);
        }
    }
    assert(ds@ == dsv);
    if ds.len() == 0 {
        return None;
    }
    let mut v: u64 = 0;
    let mut i: usize = 0;
    while i < ds.len()
        invariant
            i <= ds@.len(),
            ds@ == dsv,
            dsv == (if s@.len() > 0 && (s@[0] == '-' || s@[0] == '+') {
                s@.drop_first()
            } else {
                s@
            }),
            v == sat_dec(ds@.take(i as int)),
            v <= i64_cap(),
            forall|j: int| 0 <= j < i ==> is_digit(#[trigger] ds@[j]),
        decreases ds@.len() - i,
    {
        let c = ds[i];
        if !('0' <= c && c <= '9') {
            assert(!all_digits(ds@));
            return None;
        }
        assert(ds@.take(i + 1).drop_last() =~= ds@.take(i as int));
        let d = (c as u32 - '0' as u32) as u128;
        let w: u128 = (v as u128) * 10 + d;
        v = if w > 9223372036854775809u128 {
            9223372036854775809u64
        } else {
            w as u64
        };
        i = i + 1;
    }
    assert(ds@.take(i as int) =~= ds@);
    if neg {
        if v <= 9223372036854775808u64 {
            if v == 9223372036854775808u64 {
                Some(i64::MIN)
            } else {
                Some(0 - (v as i64))
            }
        } else {
            None
        }
    } else {
        if v <= 9223372036854775807u64 {
            Some(v as i64)
        } else {
            None
        }
    }
}

/// `str::trim_matches(['"', '\''])`.
pub open spec fn is_quote(c: char) -> bool {
    c == '"' || c == '\''
}

pub open spec fn trim_quotes_start(s: Seq<char>) -> Seq<char>
    decreases s.len(),
{
    if s.len() > 0 && is_quote(s[0]) {
        trim_quotes_start(s.drop_first())
    } else {
        s
    }
}

pub open spec fn trim_quotes_end(s: Seq<char>) -> Seq<char>
    decreases s.len(),
{
    if s.len() > 0 && is_quote(s.last()) {
        trim_quotes_end(s.drop_last())
    } else {
        s
    }
}

pub open spec fn trim_quotes(s: Seq<char>) -> Seq<char> {
    trim_quotes_end(trim_quotes_start(s))
}

proof fn lemma_tq_start(s: Seq<char>, i: int)
    requires
        0 <= i <= s.len(),
        forall|j: int| 0 <= j < i ==> is_quote(#[trigger] s[j]),
    ensures
        trim_quotes_start(s) == trim_quotes_start(s.subrange(i, s.len() as int)),
    decreases i,
{
    if i > 0 {
        assert(s.drop_first().subrange(i - 1, s.drop_first().len() as int) =~= s.subrange(
            i,
            s.len() as int,
        ));
        lemma_tq_start(s.drop_first(), i - 1);
    } else {
        assert(s.subrange(0, s.len() as int) =~= s);
    }
}

proof fn lemma_tq_end(s: Seq<char>, i: int)
    requires
        0 <= i <= s.len(),
        forall|j: int| i <= j < s.len() ==> is_quote(#[trigger] s[j]),
    ensures
        trim_quotes_end(s) == trim_quotes_end(s.subrange(0, i)),
    decreases s.len() - i,
{
    if i < s.len() {
        assert(s.drop_last().subrange(0, i) =~= s.subrange(0, i));
        lemma_tq_end(s.drop_last(), i);
    } else {
        assert(s.subrange(0, s.len() as int) =~= s);
    }
}

fn trim_quotes_exec(s: &[char]) -> (r: Vec<char>)
    ensures
        r@ == trim_quotes(s@),
{
    let mut i: usize = 0;
    while i < s.len() && (s[i] == '"' || s[i] == '\'')
        invariant
            i <= s@.len(),
            forall|j: int| 0 <= j < i ==> is_quote(#[trigger] s@[j]),
        decreases s@.len() - i,
    {
        i = i + 1;
    }
    proof {
        lemma_tq_start(s@, i as int);
        let t = s@.subrange(i as int, s@.len() as int);
        if t.len() > 0 {
            assert(t[0] == s@[i as int]);
        }
    }
    let t = slice_of(s, i, s.len());
    let mut k: usize = t.len();
    while k > 0 && (t[k - 1] == '"' || t[k - 1] == '\'')
        invariant
            k <= t@.len(),
            forall|j: int| k <= j < t@.len() ==> is_quote(#[trigger] t@[j]),
        decreases k,
    {
        k = k - 1;
    }
    proof {
        lemma_tq_end(t@, k as int);
        let u = t@.subrange(0, k as int);
        if u.len() > 0 {
            assert(u.last() == t@[k - 1]);
        }
    }
    slice_of(&t, 0, k)
}

/// First index at or after `k` holding `.` or `[` (or the length).
pub open spec fn seg_end(s: Seq<char>, k: int) -> int
    decreases s.len() - k,
{
    if k >= s.len() || k < 0 || s[k] == '.' || s[k] == '[' {
        k
    } else {
        seg_end(s, k + 1)
    }
}

/// First index at or after `k` holding `]` (or the length).
pub open spec fn bracket_end(s: Seq<char>, k: int) -> int
    decreases s.len() - k,
{
    if k >= s.len() || k < 0 || s[k] == ']' {
        k
    } else {
        bracket_end(s, k + 1)
    }
}

pub proof fn lemma_seg_end(s: Seq<char>, k: int)
    requires
        0 <= k <= s.len(),
    ensures
        k <= seg_end(s, k) <= s.len(),
    decreases s.len() - k,
{
    if k < s.len() && s[k] != '.' && s[k] != '[' {
        lemma_seg_end(s, k + 1);
    }
}

pub proof fn lemma_bracket_end(s: Seq<char>, k: int)
    requires
        0 <= k <= s.len(),
    ensures
        k <= bracket_end(s, k) <= s.len(),
    decreases s.len() - k,
{
    if k < s.len() && s[k] != ']' {
        lemma_bracket_end(s, k + 1);
    }
}

pub open spec fn bracket_seg(inner0: Seq<char>) -> SegM {
    let inner = trim(inner0);
    match parse_i64_of(inner) {
        Some(n) => SegM::Index(n),
        None => SegM::Field(trim_quotes(inner)),
    }
}

/// The steps after the root of a reference.
pub open spec fn trail_go(s: Seq<char>, i: int, segs: Seq<SegM>) -> Seq<SegM>
    decreases s.len() - i,
{
    if i >= s.len() || i < 0 {
        segs
    } else if s[i] == '.' {
        proof {
            lemma_seg_end(s, i + 1);
        }
        let j = seg_end(s, i + 1);
        trail_go(s, j, segs.push(SegM::Field(s.subrange(i + 1, j))))
    } else if s[i] == '[' {
        proof {
            lemma_bracket_end(s, i + 1);
        }
        let j = bracket_end(s, i + 1);
        trail_go(
            s,
            if j < s.len() {
                j + 1
            } else {
                j
            },
            segs.push(bracket_seg(s.subrange(i + 1, j))),
        )
    } else {
        trail_go(s, i + 1, segs)
    }
}

pub open spec fn trailing_of(s: Seq<char>) -> Seq<SegM> {
    trail_go(s, 0, Seq::empty())
}

fn seg_end_exec(s: &[char], k: usize) -> (j: usize)
    requires
        k <= s@.len(),
    ensures
        j == seg_end(s@, k as int),
{
    let mut j = k;
    while j < s.len() && s[j] != '.' && s[j] != '['
        invariant
            k <= j <= s@.len(),
            seg_end(s@, j as int) == seg_end(s@, k as int),
        decreases s@.len() - j,
    {
        j = j + 1;
    }
    j
}

fn bracket_end_exec(s: &[char], k: usize) -> (j: usize)
    requires
        k <= s@.len(),
    ensures
        j == bracket_end(s@, k as int),
{
    let mut j = k;
    while j < s.len() && s[j] != ']'
        invariant
            k <= j <= s@.len(),
            bracket_end(s@, j as int) == bracket_end(s@, k as int),
        decreases s@.len() - j,
    {
        j = j + 1;
    }
    j
}

fn parse_trailing(s: &[char]) -> (r: Vec<Seg>)
    ensures
        segs_view(r@) == trailing_of(s@),
{
    let mut segs: Vec<Seg> = Vec::new();
    let mut i: usize = 0;
    assert(segs_view(segs@) =~= Seq::<SegM>::empty());
    while i < s.len()
        invariant
            i <= s@.len(),
            trail_go(s@, i as int, segs_view(segs@)) == trailing_of(s@),
        decreases s@.len() - i,
    {
        if s[i] == '.' {
            proof {
                lemma_seg_end(s@, i + 1);
            }
            let j = seg_end_exec(s, i + 1);
            let name = slice_of(s, i + 1, j);
            let g = Seg::Field(string_of(&name));
            assert(segs_view(segs@.push(g)) =~= segs_view(segs@).push(g@));
            segs.push(g);
            i = j;
        } else if s[i] == '[' {
            proof {
                lemma_bracket_end(s@, i + 1);
            }
            let j = bracket_end_exec(s, i + 1);
            let raw = slice_of(s, i + 1, j);
            let inner = trimmed(&raw);
            let g = match parse_i64(&inner) {
                Some(n) => Seg::Index(n),
                None => {
                    let t = trim_quotes_exec(&inner);
                    Seg::Field(string_of(&t))
                },
            };
            assert(segs_view(segs@.push(g)) =~= segs_view(segs@).push(g@));
            segs.push(g);
            i = if j < s.len() {
                j + 1
            } else {
                j
            };
        } else {
            i = i + 1;
        }
    }
    segs
}

/// First index of `.` or `[`, or the length.
pub open spec fn root_end(s: Seq<char>) -> int {
    seg_end(s, 0)
}

/// A reference split into its root name and its steps.
pub open spec fn split_segments_of(expr: Seq<char>) -> (Seq<char>, Seq<SegM>) {
    let r = root_end(expr);
    (expr.take(r), trailing_of(expr.skip(r)))
}

pub fn split_segments(expr: &[char]) -> (r: (Vec<char>, Vec<Seg>))
    ensures
        (r.0@, segs_view(r.1@)) == split_segments_of(expr@),
{
    proof {
        lemma_seg_end(expr@, 0);
    }
    let r = seg_end_exec(expr, 0);
    let root = slice_of(expr, 0, r);
    let rest = slice_of(expr, r, expr.len());
    assert(root@ =~= expr@.take(r as int));
    assert(rest@ =~= expr@.skip(r as int));
    (root, parse_trailing(&rest))
}

/// First index of `pat` in `s`, searching from `i`.
pub open spec fn find_sub(s: Seq<char>, pat: Seq<char>, i: int) -> Option<int>
    decreases s.len() + 1 - i,
{
    if i < 0 || i + pat.len() > s.len() {
        None
    } else if s.subrange(i, i + pat.len()) == pat {
        Some(i)
    } else {
        find_sub(s, pat, i + 1)
    }
}

/// `pat` stands in `s` at position `j`.
pub open spec fn occurs_at(s: Seq<char>, pat: Seq<char>, j: int) -> bool {
    0 <= j && j + pat.len() <= s.len() && s.subrange(j, j + pat.len()) == pat
}

/// `find_sub` finds the first occurrence from `i` on, and none means there
/// is none.
pub proof fn lemma_find_sub(s: Seq<char>, pat: Seq<char>, i: int)
    requires
        0 <= i,
    ensures
        match find_sub(s, pat, i) {
            None => forall|j: int| i <= j ==> !#[trigger] occurs_at(s, pat, j),
            Some(k) => i <= k && occurs_at(s, pat, k) && forall|j: int|
                i <= j < k ==> !#[trigger] occurs_at(s, pat, j),
        },
    decreases s.len() + 1 - i,
{
    if i + pat.len() > s.len() {
    } else if s.subrange(i, i + pat.len()) == pat {
    } else {
        lemma_find_sub(s, pat, i + 1);
        assert(!occurs_at(s, pat, i));
    }
}

pub fn find_sub_exec(s: &[char], pat: &[char]) -> (r: Option<usize>)
    ensures
        match r {
            Some(i) => find_sub(s@, pat@, 0) == Some(i as int) && i + pat@.len() <= s@.len(),
            None => find_sub(s@, pat@, 0) is None,
        },
{
    let mut i: usize = 0;
    while i <= s.len() && pat.len() <= s.len() - i
        invariant
            i <= s@.len() + 1,
            find_sub(s@, pat@, i as int) == find_sub(s@, pat@, 0),
        decreases s@.len() + 1 - i,
    {
        let part = slice_of(s, i, i + pat.len());
        assert(pat@.len() == 0 ==> part@ =~= pat@);
        if crate::text::same(&part, pat) {
            return Some(i);
        }
        i = i + 1;
    }
    None
}

pub open spec fn file_ref_msg(expr: Seq<char>) -> Seq<char> {
    "data file reference `"@ + expr + "` must reference a `.kdl` file"@
}

/// A data file reference split into the file path (through `.kdl`) and steps.
pub open spec fn split_file_ref_of(expr: Seq<char>) -> Result<(Seq<char>, Seq<SegM>), Seq<char>> {
    match find_sub(expr, ".kdl"@, 0) {
        None => Err(file_ref_msg(expr)),
        Some(pos) => {
            let end = pos + 4;
            Ok((expr.take(end), trailing_of(expr.skip(end))))
        },
    }
}

pub fn split_file_ref(expr: &[char]) -> (r: Result<(Vec<char>, Vec<Seg>), String>)
    ensures
        match r {
            Ok((p, g)) => split_file_ref_of(expr@) == Ok::<(Seq<char>, Seq<SegM>), Seq<char>>(
                (p@, segs_view(g@)),
            ),
            Err(e) => split_file_ref_of(expr@) == Err::<(Seq<char>, Seq<SegM>), Seq<char>>(e@),
        },
        r is Err <==> !exists|j: int| #[trigger] occurs_at(expr@, ".kdl"@, j),
        r matches Err(e) ==> e@ == file_ref_msg(expr@),
        r matches Ok((p, g)) ==> exists|pos: int|
            #[trigger] occurs_at(expr@, ".kdl"@, pos) && (forall|j: int|
                0 <= j < pos ==> !#[trigger] occurs_at(expr@, ".kdl"@, j)) && p@ == expr@.take(pos + 4)
                && segs_view(g@) == trailing_of(expr@.skip(pos + 4)),
{
    proof {
        reveal_strlit(".kdl");
        lemma_find_sub(expr@, ".kdl"@, 0);
    }
    let kdl = chars_of(".kdl");
    proof {
        reveal_strlit(".kdl");
    }
    assert(kdl@.len() == 4);
    match find_sub_exec(expr, &kdl) {
        None => {
            let mut m = chars_of("data file reference `");
            push_all(&mut m, expr);
            push_str(&mut m, "` must reference a `.kdl` file");
            Err(string_of(&m))
        },
        Some(pos) => {
            let n = expr.len();
            let klen = kdl.len();
            assert(pos + klen <= n);
            let end = pos + klen;
            let p = slice_of(expr, 0, end);
            let rest = slice_of(expr, end, expr.len());
            assert(p@ =~= expr@.take(end as int));
            assert(rest@ =~= expr@.skip(end as int));
            Ok((p, parse_trailing(&rest)))
        },
    }
}

// ---------------------------------------------------------------------------
// labels, routes and documents
/// How an invocation target is named in messages.
pub open spec fn target_label_of(t: TargetM) -> Seq<char> {
    match t {
        TargetM::Local(n) => "#"@ + n,
        TargetM::Var(n) => "{"@ + n + "}"@,
        TargetM::File { path, section } => match section {
            Some(s) => path + "#"@ + s,
            None => path,
        },
    }
}

pub fn target_label(t: &Target) -> (r: String)
    ensures
        r@ == target_label_of(t@),
{
    let mut m: Vec<char> = Vec::new();
    match t {
        Target::Local(n) => {
            push_str(&mut m, "#");
            push_str(&mut m, n.as_str());
        },
        Target::Var(n) => {
            push_str(&mut m, "{");
            push_str(&mut m, n.as_str());
            push_str(&mut m, "}");
        },
        Target::File { path, section } => {
            push_str(&mut m, path.as_str());
            match section {
                Some(s) => {
                    push_str(&mut m, "#");
                    push_str(&mut m, s.as_str());
                },
                None => {},
            }
        },
    }
    string_of(&m)
}

/// The output path of a page: `x.df` becomes `x.html`.
pub open spec fn page_route_of(key: Seq<char>) -> Seq<char> {
    if ends_with(key, ".df"@) {
        key.take(key.len() - 3) + ".html"@
    } else {
        key
    }
}

pub fn page_route(key: &str) -> (r: String)
    ensures
        r@ == page_route_of(key@),
{
    let k = chars_of(key);
    let df = chars_of(".df");
    proof {
        reveal_strlit(".df");
    }
    if has_suffix(&k, &df) {
        let mut m = slice_of(&k, 0, k.len() - 3);
        push_str(&mut m, ".html");
        assert(m@ =~= key@.take(key@.len() - 3) + ".html"@);
        string_of(&m)
    } else {
        string_of(&k)
    }
}

/// The page around a rendered body, with its bundled styles and scripts.
pub open spec fn document_of(body: Seq<char>, css: Seq<char>, js: Seq<char>) -> Seq<char> {
    "<!DOCTYPE html>\n<html>\n<head>\n<meta charset=\"utf-8\">\n"@ + (if css.len() > 0 {
        "<style>\n"@ + css + "\n</style>\n"@
    } else {
        Seq::empty()
    }) + "</head>\n<body>\n"@ + body + "\n"@ + (if js.len() > 0 {
        "<script>\n"@ + js + "\n</script>\n"@
    } else {
        Seq::empty()
    }) + "</body>\n</html>\n"@
}

pub fn wrap_document(body: &[char], css: &[char], js: &[char]) -> (r: Vec<char>)
    ensures
        r@ == document_of(body@, css@, js@),
{
    let mut out: Vec<char> = Vec::new();
    push_str(&mut out, "<!DOCTYPE html>\n<html>\n<head>\n<meta charset=\"utf-8\">\n");
    let ghost a = out@;
    if css.len() > 0 {
        push_str(&mut out, "<style>\n");
        push_all(&mut out, css);
        push_str(&mut out, "\n</style>\n");
    }
    let ghost b = out@;
    push_str(&mut out, "</head>\n<body>\n");
    push_all(&mut out, body);
    push_str(&mut out, "\n");
    let ghost c = out@;
    if js.len() > 0 {
        push_str(&mut out, "<script>\n");
        push_all(&mut out, js);
        push_str(&mut out, "\n</script>\n");
    }
    push_str(&mut out, "</body>\n</html>\n");
    assert(out@ =~= document_of(body@, css@, js@));
    out
}


// ---------------------------------------------------------------------------
// laws
/// A template `x.df` becomes the page `x.html`.
pub proof fn lemma_page_route(k: Seq<char>)
    ensures
        page_route_of(k + ".df"@) == k + ".html"@,
{
    reveal_strlit(".df");
    let s = k + ".df"@;
    assert(s.subrange(s.len() - 3, s.len() as int) =~= ".df"@);
    assert(s.take(s.len() - 3) =~= k);
}

/// Keys that are not templates keep their name.
pub proof fn lemma_page_route_other(k: Seq<char>)
    requires
        !ends_with(k, ".df"@),
    ensures
        page_route_of(k) == k,
{
}

proof fn lemma_norm_go_clean(parts: Seq<Seq<char>>, k: int, acc: Seq<Seq<char>>)
    requires
        forall|j: int|
            0 <= j < acc.len() ==> (#[trigger] acc[j]).len() > 0 && acc[j] != "."@ && acc[j] != ".."@,
    ensures
        forall|j: int|
            0 <= j < norm_go(parts, k, acc).len() ==> (#[trigger] norm_go(parts, k, acc)[j]).len()
                > 0 && norm_go(parts, k, acc)[j] != "."@ && norm_go(parts, k, acc)[j] != ".."@,
    decreases parts.len() - k,
{
    if k >= parts.len() || k < 0 {
    } else {
        let p = parts[k];
        if p.len() == 0 || p == "."@ {
            lemma_norm_go_clean(parts, k + 1, acc);
            assert(norm_go(parts, k, acc) == norm_go(parts, k + 1, acc));
        } else if p == ".."@ {
            let a2 = if acc.len() > 0 {
                acc.drop_last()
            } else {
                acc
            };
            assert forall|j: int| 0 <= j < a2.len() implies (#[trigger] a2[j]).len() > 0 && a2[j]
                != "."@ && a2[j] != ".."@ by {
                assert(a2[j] == acc[j]);
            }
            lemma_norm_go_clean(parts, k + 1, a2);
            assert(norm_go(parts, k, acc) == norm_go(parts, k + 1, a2));
        } else {
            let a2 = acc.push(p);
            assert forall|j: int| 0 <= j < a2.len() implies (#[trigger] a2[j]).len() > 0 && a2[j]
                != "."@ && a2[j] != ".."@ by {
                if j < acc.len() {
                    assert(a2[j] == acc[j]);
                }
            }
            lemma_norm_go_clean(parts, k + 1, a2);
            assert(norm_go(parts, k, acc) == norm_go(parts, k + 1, a2));
        }
    }
}

pub open spec fn no_slash(s: Seq<char>) -> bool {
    forall|j: int| 0 <= j < s.len() ==> s[j] != '/'
}

proof fn lemma_split_acc(s: Seq<char>, i: int, parts: Seq<Seq<char>>, cur: Seq<char>)
    requires
        0 <= i <= s.len(),
    ensures
        split_slash_go(s, i, parts, cur) == parts + split_slash_go(s, i, Seq::empty(), cur),
    decreases s.len() - i,
{
    if i >= s.len() {
        assert(parts.push(cur) =~= parts + Seq::<Seq<char>>::empty().push(cur));
    } else if s[i] == '/' {
        lemma_split_acc(s, i + 1, parts.push(cur), Seq::empty());
        lemma_split_acc(s, i + 1, Seq::empty().push(cur), Seq::empty());
        assert(parts.push(cur) + split_slash_go(s, i + 1, Seq::empty(), Seq::empty()) =~= parts + (
        Seq::<Seq<char>>::empty().push(cur) + split_slash_go(s, i + 1, Seq::empty(), Seq::empty())));
    } else {
        lemma_split_acc(s, i + 1, parts, cur.push(s[i]));
    }
}

proof fn lemma_split_no_slash(s: Seq<char>, i: int, cur: Seq<char>)
    requires
        0 <= i <= s.len(),
        forall|j: int| i <= j < s.len() ==> s[j] != '/',
    ensures
        split_slash_go(s, i, Seq::empty(), cur) == seq![cur + s.subrange(i, s.len() as int)],
    decreases s.len() - i,
{
    if i >= s.len() {
        assert(cur + s.subrange(i, s.len() as int) =~= cur);
    } else {
        lemma_split_no_slash(s, i + 1, cur.push(s[i]));
        assert(cur.push(s[i]) + s.subrange(i + 1, s.len() as int) =~= cur + s.subrange(
            i,
            s.len() as int,
        ));
    }
}

proof fn lemma_split_shift(pre: Seq<char>, b: Seq<char>, j: int, cur: Seq<char>)
    requires
        0 <= j <= b.len(),
    ensures
        split_slash_go(pre + b, pre.len() + j, Seq::empty(), cur) == split_slash_go(
            b,
            j,
            Seq::empty(),
            cur,
        ),
    decreases b.len() - j,
{
    let x = pre + b;
    if j >= b.len() {
    } else {
        assert(x[pre.len() + j] == b[j]);
        if b[j] == '/' {
            lemma_split_shift(pre, b, j + 1, Seq::empty());
            lemma_split_acc(x, pre.len() + j + 1, Seq::empty().push(cur), Seq::empty());
            lemma_split_acc(b, j + 1, Seq::empty().push(cur), Seq::empty());
        } else {
            lemma_split_shift(pre, b, j + 1, cur.push(b[j]));
        }
    }
}

proof fn lemma_split_cat(a: Seq<char>, b: Seq<char>, i: int, cur: Seq<char>)
    requires
        0 <= i <= a.len(),
    ensures
        split_slash_go(a + "/"@ + b, i, Seq::empty(), cur) == split_slash_go(
            a,
            i,
            Seq::empty(),
            cur,
        ) + split_slash_go(b, 0, Seq::empty(), Seq::empty()),
    decreases a.len() - i,
{
    reveal_strlit("/");
    let x = a + "/"@ + b;
    let sb = split_slash_go(b, 0, Seq::empty(), Seq::empty());
    assert(x =~= (a + "/"@) + b);
    if i == a.len() {
        assert(x[i] == '/');
        lemma_split_acc(x, i + 1, Seq::empty().push(cur), Seq::empty());
        lemma_split_shift(a + "/"@, b, 0, Seq::empty());
        assert(split_slash_go(a, i, Seq::empty(), cur) =~= seq![cur]);
    } else {
        assert(x[i] == a[i]);
        if a[i] == '/' {
            lemma_split_cat(a, b, i + 1, Seq::empty());
            lemma_split_acc(x, i + 1, Seq::empty().push(cur), Seq::empty());
            lemma_split_acc(a, i + 1, Seq::empty().push(cur), Seq::empty());
            assert(seq![cur] + (split_slash_go(a, i + 1, Seq::empty(), Seq::empty()) + sb) =~= (
            seq![cur] + split_slash_go(a, i + 1, Seq::empty(), Seq::empty())) + sb);
            assert(Seq::<Seq<char>>::empty().push(cur) =~= seq![cur]);
        } else {
            lemma_split_cat(a, b, i + 1, cur.push(a[i]));
        }
    }
}

proof fn lemma_split_join(parts: Seq<Seq<char>>)
    requires
        parts.len() > 0,
        forall|j: int| 0 <= j < parts.len() ==> no_slash(#[trigger] parts[j]),
    ensures
        split_slash_go(join_slash(parts), 0, Seq::empty(), Seq::empty()) == parts,
    decreases parts.len(),
{
    if parts.len() == 1 {
        assert(no_slash(parts[0]));
        lemma_split_no_slash(parts[0], 0, Seq::empty());
        assert(Seq::<char>::empty() + parts[0].subrange(0, parts[0].len() as int) =~= parts[0]);
        assert(parts =~= seq![parts[0]]);
    } else {
        let init = parts.drop_last();
        assert forall|j: int| 0 <= j < init.len() implies no_slash(#[trigger] init[j]) by {
            assert(init[j] == parts[j]);
        }
        lemma_split_join(init);
        lemma_split_cat(join_slash(init), parts.last(), 0, Seq::empty());
        assert(no_slash(parts[parts.len() - 1]));
        lemma_split_no_slash(parts.last(), 0, Seq::empty());
        assert(Seq::<char>::empty() + parts.last().subrange(0, parts.last().len() as int)
            =~= parts.last());
        assert(init + seq![parts.last()] =~= parts);
    }
}

proof fn lemma_split_parts_no_slash(s: Seq<char>, i: int, parts: Seq<Seq<char>>, cur: Seq<char>)
    requires
        0 <= i <= s.len(),
        no_slash(cur),
        forall|j: int| 0 <= j < parts.len() ==> no_slash(#[trigger] parts[j]),
    ensures
        forall|j: int|
            0 <= j < split_slash_go(s, i, parts, cur).len() ==> no_slash(
                #[trigger] split_slash_go(s, i, parts, cur)[j],
            ),
    decreases s.len() - i,
{
    if i >= s.len() {
        let r = parts.push(cur);
        assert forall|j: int| 0 <= j < r.len() implies no_slash(#[trigger] r[j]) by {
            if j < parts.len() {
                assert(r[j] == parts[j]);
            }
        }
    } else if s[i] == '/' {
        let p2 = parts.push(cur);
        assert forall|j: int| 0 <= j < p2.len() implies no_slash(#[trigger] p2[j]) by {
            if j < parts.len() {
                assert(p2[j] == parts[j]);
            }
        }
        lemma_split_parts_no_slash(s, i + 1, p2, Seq::empty());
        assert(split_slash_go(s, i, parts, cur) == split_slash_go(s, i + 1, p2, Seq::empty()));
    } else {
        let c2 = cur.push(s[i]);
        assert forall|j: int| 0 <= j < c2.len() implies c2[j] != '/' by {
            if j < cur.len() {
                assert(c2[j] == cur[j]);
            }
        }
        lemma_split_parts_no_slash(s, i + 1, parts, c2);
        assert(split_slash_go(s, i, parts, cur) == split_slash_go(s, i + 1, parts, c2));
    }
}

proof fn lemma_norm_go_no_slash(parts: Seq<Seq<char>>, k: int, acc: Seq<Seq<char>>)
    requires
        0 <= k,
        forall|j: int| 0 <= j < parts.len() ==> no_slash(#[trigger] parts[j]),
        forall|j: int| 0 <= j < acc.len() ==> no_slash(#[trigger] acc[j]),
    ensures
        forall|j: int|
            0 <= j < norm_go(parts, k, acc).len() ==> no_slash(#[trigger] norm_go(parts, k, acc)[j]),
    decreases parts.len() - k,
{
    if k >= parts.len() {
    } else {
        let p = parts[k];
        if p.len() == 0 || p == "."@ {
            lemma_norm_go_no_slash(parts, k + 1, acc);
            assert(norm_go(parts, k, acc) == norm_go(parts, k + 1, acc));
        } else if p == ".."@ {
            let a2 = if acc.len() > 0 {
                acc.drop_last()
            } else {
                acc
            };
            assert forall|j: int| 0 <= j < a2.len() implies no_slash(#[trigger] a2[j]) by {
                assert(a2[j] == acc[j]);
            }
            lemma_norm_go_no_slash(parts, k + 1, a2);
            assert(norm_go(parts, k, acc) == norm_go(parts, k + 1, a2));
        } else {
            let a2 = acc.push(p);
            assert forall|j: int| 0 <= j < a2.len() implies no_slash(#[trigger] a2[j]) by {
                if j < acc.len() {
                    assert(a2[j] == acc[j]);
                }
            }
            lemma_norm_go_no_slash(parts, k + 1, a2);
            assert(norm_go(parts, k, acc) == norm_go(parts, k + 1, a2));
        }
    }
}

proof fn lemma_norm_go_clean_id(parts: Seq<Seq<char>>, k: int, acc: Seq<Seq<char>>)
    requires
        0 <= k <= parts.len(),
        forall|j: int|
            0 <= j < parts.len() ==> (#[trigger] parts[j]).len() > 0 && parts[j] != "."@
                && parts[j] != ".."@,
    ensures
        norm_go(parts, k, acc) == acc + parts.subrange(k, parts.len() as int),
    decreases parts.len() - k,
{
    if k >= parts.len() {
        assert(acc + parts.subrange(k, parts.len() as int) =~= acc);
    } else {
        let p = parts[k];
        assert(p.len() > 0 && p != "."@ && p != ".."@);
        lemma_norm_go_clean_id(parts, k + 1, acc.push(p));
        assert(acc.push(p) + parts.subrange(k + 1, parts.len() as int) =~= acc + parts.subrange(
            k,
            parts.len() as int,
        ));
    }
}

/// Normalizing a normalized path changes nothing.
pub proof fn lemma_normalize_idempotent(p: Seq<char>)
    ensures
        normalize_of(normalize_of(p)) == normalize_of(p),
{
    let sp = split_slash_go(p, 0, Seq::empty(), Seq::empty());
    let parts = norm_go(sp, 0, Seq::empty());
    let q = join_slash(parts);
    lemma_normalize_clean(p);
    assert(normalize_of(p) == q);
    if parts.len() == 0 {
        assert(q =~= Seq::<char>::empty());
        let sq = split_slash_go(q, 0, Seq::empty(), Seq::empty());
        assert(sq =~= seq![Seq::<char>::empty()]);
        assert(norm_go(sq, 1, Seq::empty()) == Seq::<Seq<char>>::empty());
        assert(norm_go(sq, 0, Seq::empty()) == Seq::<Seq<char>>::empty());
    } else {
        assert(no_slash(Seq::<char>::empty()));
        lemma_split_parts_no_slash(p, 0, Seq::empty(), Seq::empty());
        lemma_norm_go_no_slash(sp, 0, Seq::empty());
        lemma_split_join(parts);
        lemma_norm_go_clean_id(parts, 0, Seq::empty());
        assert(Seq::<Seq<char>>::empty() + parts.subrange(0, parts.len() as int) =~= parts);
    }
}

/// The `/`-separated segments of a normalized path are never empty, `.`
/// or `..` (the empty path has none).
pub proof fn lemma_normalize_segments(p: Seq<char>)
    ensures
        normalize_of(p).len() > 0 ==> forall|j: int|
            0 <= j < split_slash_go(normalize_of(p), 0, Seq::empty(), Seq::empty()).len() ==> {
                let seg = #[trigger] split_slash_go(normalize_of(p), 0, Seq::empty(), Seq::empty())[j];
                seg.len() > 0 && seg != "."@ && seg != ".."@
            },
{
    let sp = split_slash_go(p, 0, Seq::empty(), Seq::empty());
    let parts = norm_go(sp, 0, Seq::empty());
    lemma_normalize_clean(p);
    if parts.len() > 0 {
        assert(no_slash(Seq::<char>::empty()));
        lemma_split_parts_no_slash(p, 0, Seq::empty(), Seq::empty());
        lemma_norm_go_no_slash(sp, 0, Seq::empty());
        lemma_split_join(parts);
    } else {
        assert(normalize_of(p) == join_slash(parts));
    }
}

/// A resolved key resolves to itself from the project root.
pub proof fn lemma_file_key_fixed(base_dir: Seq<char>, reference: Seq<char>)
    ensures
        file_key_of(Seq::empty(), file_key_of(base_dir, reference)) == file_key_of(
            base_dir,
            reference,
        ),
{
    if base_dir.len() == 0 {
        lemma_normalize_idempotent(reference);
    } else {
        lemma_normalize_idempotent(base_dir + "/"@ + reference);
    }
}

/// A resolved file key is its parts joined by `/`, and no part is empty,
/// `.` or `..`: a key never climbs above the project root.
pub proof fn lemma_normalize_clean(p: Seq<char>)
    ensures
        ({
            let parts = norm_go(split_slash_go(p, 0, Seq::empty(), Seq::empty()), 0, Seq::empty());
            &&& normalize_of(p) == join_slash(parts)
            &&& forall|j: int|
                0 <= j < parts.len() ==> (#[trigger] parts[j]).len() > 0 && parts[j] != "."@
                    && parts[j] != ".."@
        }),
{
    lemma_norm_go_clean(split_slash_go(p, 0, Seq::empty(), Seq::empty()), 0, Seq::empty());
}

} // verus!
