//! The line lexer of template files.
//!
//! A template is read line by line: section headers (`#Name`, `#name > target`,
//! `#style.css`), raw asset bodies, indentation changes, and content lines made
//! of `>`-chained segments (elements `<tag attr=value`, invocations `<:Target`,
//! control nodes `<:if`, `<:else`, `<:for`, and text with `{references}`).
use vstd::prelude::*;
use crate::ast::{Attr, AttrM, Chunk, ChunkM, CondNode, ElNode, ElseStub, InvNode, LoopNode, Node, NodeM, RawValue, RawValueM, Target, TargetM, TextNode, attrs_view, chunks_view, nodes_view};
use crate::number::{parse_number, parse_number_exec};
use crate::text::{chars_of, lines_exec, lines_of, nat_text, same, strip_cr, strip_cr_exec, usize_text, vv_chars, ends_with, has_prefix, has_suffix, is_alpha, is_ascii_alpha, is_word, is_word_char, is_whitespace, is_ws, push_all, push_str, slice_of, starts_with, string_of, trim, trim_start, trimmed, trimmed_start};

verus! {

/// A lexing error at a 1-based line.
#[derive(Debug)]
pub struct LexError {
    pub line: usize,
    pub msg: String,
}

pub struct LexErrorM {
    pub line: nat,
    pub msg: Seq<char>,
}

impl View for LexError {
    type V = LexErrorM;

    open spec fn view(&self) -> LexErrorM {
        LexErrorM { line: self.line as nat, msg: self.msg@ }
    }
}

pub open spec fn lex_err(line: nat, msg: Seq<char>) -> LexErrorM {
    LexErrorM { line, msg }
}

fn make_error(line: usize, msg: &Vec<char>) -> (e: LexError)
    ensures
        e@ == lex_err(line as nat, msg@),
{
    LexError { line, msg: string_of(msg) }
}

// ---------------------------------------------------------------------------
// indentation and blank lines
/// Width of the leading blanks of a line: a space counts 1, a tab 4.
pub open spec fn ws_width(s: Seq<char>) -> nat
    decreases s.len(),
{
    if s.len() > 0 && (s[0] == ' ' || s[0] == '\t') {
        (if s[0] == '\t' {
            4nat
        } else {
            1nat
        }) + ws_width(s.drop_first())
    } else {
        0
    }
}

proof fn lemma_ws_width_bound(s: Seq<char>)
    ensures
        ws_width(s) <= 4 * s.len(),
    decreases s.len(),
{
    if s.len() > 0 {
        lemma_ws_width_bound(s.drop_first());
    }
}

fn leading_ws(line: &[char]) -> (w: usize)
    requires
        line@.len() * 4 <= usize::MAX,
    ensures
        w == ws_width(line@),
{
    let mut i: usize = 0;
    let mut w: usize = 0;
    assert(line@.skip(0) =~= line@);
    while i < line.len() && (line[i] == ' ' || line[i] == '\t')
        invariant
            i <= line@.len(),
            line@.len() * 4 <= usize::MAX,
            w <= 4 * i,
            w + ws_width(line@.skip(i as int)) == ws_width(line@),
        decreases line@.len() - i,
    {
        assert(line@.skip(i as int).drop_first() =~= line@.skip(i + 1));
        assert(line@.skip(i as int)[0] == line@[i as int]);
        if line[i] == '\t' {
            w = w + 4;
        } else {
            w = w + 1;
        }
        i = i + 1;
    }
    proof {
        if i < line@.len() {
            assert(line@.skip(i as int)[0] == line@[i as int]);
        }
    }
    w
}

/// A line that is empty, blank, or a `%` comment.
pub open spec fn blank_or_comment(line: Seq<char>) -> bool {
    let t = trim_start(line);
    t.len() == 0 || t[0] == '%'
}

fn is_blank_or_comment(line: &[char]) -> (b: bool)
    ensures
        b == blank_or_comment(line@),
{
    let t = trimmed_start(line);
    t.len() == 0 || t[0] == '%'
}

// ---------------------------------------------------------------------------
// runs and searches
/// Number of leading identifier characters.
pub open spec fn word_run(s: Seq<char>) -> nat
    decreases s.len(),
{
    if s.len() > 0 && is_word(s[0]) {
        1 + word_run(s.drop_first())
    } else {
        0
    }
}

proof fn lemma_word_run_skip(s: Seq<char>, i: int)
    requires
        0 <= i <= s.len(),
        forall|j: int| 0 <= j < i ==> is_word(#[trigger] s[j]),
    ensures
        word_run(s) == i + word_run(s.skip(i)),
    decreases i,
{
    if i > 0 {
        assert(s.drop_first().skip(i - 1) =~= s.skip(i));
        lemma_word_run_skip(s.drop_first(), i - 1);
    } else {
        assert(s.skip(0) =~= s);
    }
}

fn word_end(s: &[char], from: usize) -> (end: usize)
    requires
        from <= s@.len(),
    ensures
        from <= end <= s@.len(),
        end - from == word_run(s@.skip(from as int)),
{
    let mut i = from;
    while i < s.len() && is_word_char(s[i])
        invariant
            from <= i <= s@.len(),
            forall|j: int| from <= j < i ==> is_word(#[trigger] s@[j]),
        decreases s@.len() - i,
    {
        i = i + 1;
    }
    proof {
        let t = s@.skip(from as int);
        assert forall|j: int| 0 <= j < i - from implies is_word(#[trigger] t[j]) by {
            assert(t[j] == s@[from + j]);
        }
        lemma_word_run_skip(t, i - from);
        assert(t.skip(i - from) =~= s@.skip(i as int));
        if i < s@.len() {
            assert(s@.skip(i as int)[0] == s@[i as int]);
        }
    }
    i
}

/// Index of the first `c` in `s`, or the length when there is none.
pub open spec fn first_of(s: Seq<char>, c: char) -> nat
    decreases s.len(),
{
    if s.len() == 0 {
        0
    } else if s[0] == c {
        0
    } else {
        1 + first_of(s.drop_first(), c)
    }
}

proof fn lemma_first_of(s: Seq<char>, c: char, r: int)
    requires
        0 <= r <= s.len(),
        forall|j: int| 0 <= j < r ==> #[trigger] s[j] != c,
        r < s.len() ==> s[r] == c,
    ensures
        first_of(s, c) == r,
    decreases s.len(),
{
    if s.len() > 0 && s[0] != c {
        assert forall|j: int| 0 <= j < r - 1 implies #[trigger] s.drop_first()[j] != c by {
            assert(s.drop_first()[j] == s[j + 1]);
        }
        lemma_first_of(s.drop_first(), c, r - 1);
    }
}

pub fn find_char(s: &[char], c: char) -> (r: usize)
    ensures
        r == first_of(s@, c),
        r <= s@.len(),
        forall|j: int| 0 <= j < r ==> #[trigger] s@[j] != c,
        r < s@.len() ==> s@[r as int] == c,
{
    let mut i: usize = 0;
    while i < s.len() && s[i] != c
        invariant
            i <= s@.len(),
            forall|j: int| 0 <= j < i ==> #[trigger] s@[j] != c,
        decreases s@.len() - i,
    {
        i = i + 1;
    }
    proof {
        lemma_first_of(s@, c, i as int);
    }
    i
}

pub open spec fn all_word(s: Seq<char>) -> bool {
    forall|i: int| 0 <= i < s.len() ==> is_word(#[trigger] s[i])
}

fn is_all_word(s: &[char]) -> (b: bool)
    ensures
        b == all_word(s@),
{
    let mut i: usize = 0;
    while i < s.len()
        invariant
            i <= s@.len(),
            forall|j: int| 0 <= j < i ==> is_word(#[trigger] s@[j]),
        decreases s@.len() - i,
    {
        if !is_word_char(s[i]) {
            return false;
        }
        i = i + 1;
    }
    true
}

// ---------------------------------------------------------------------------
// section headers
/// The name after `#`: an identifier, with an optional `.ext` suffix.
pub open spec fn section_name_of(rest: Seq<char>) -> Seq<char> {
    let n = word_run(rest) as int;
    if n + 1 < rest.len() && rest[n] == '.' && is_alpha(rest[n + 1]) {
        rest.take(n + 2 + word_run(rest.skip(n + 2)))
    } else {
        rest.take(n)
    }
}

fn section_name(rest: &[char]) -> (name: Vec<char>)
    ensures
        name@ == section_name_of(rest@),
        name@.len() <= rest@.len(),
{
    let n = word_end(rest, 0);
    assert(rest@.skip(0) =~= rest@);
    if rest.len() > 0 && n < rest.len() - 1 && rest[n] == '.' && is_ascii_alpha(rest[n + 1]) {
        let m = word_end(rest, n + 2);
        slice_of(rest, 0, m)
    } else {
        slice_of(rest, 0, n)
    }
}

/// Asset sections carry raw CSS or JavaScript.
pub open spec fn asset_name(name: Seq<char>) -> bool {
    ends_with(name, ".css"@) || ends_with(name, ".js"@)
}

pub fn is_asset_name(name: &[char]) -> (b: bool)
    ensures
        b == asset_name(name@),
{
    let css = chars_of(".css");
    let js = chars_of(".js");
    has_suffix(name, &css) || has_suffix(name, &js)
}

pub open spec fn file_ref(s: Seq<char>) -> bool {
    starts_with(s, "./"@) || starts_with(s, "../"@) || starts_with(s, "/"@)
}

pub fn is_file_ref(s: &[char]) -> (b: bool)
    ensures
        b == file_ref(s@),
{
    let a = chars_of("./");
    let b = chars_of("../");
    let c = chars_of("/");
    has_prefix(s, &a) || has_prefix(s, &b) || has_prefix(s, &c)
}

pub open spec fn opt_nonempty(s: Seq<char>) -> Option<Seq<char>> {
    if s.len() == 0 {
        None
    } else {
        Some(s)
    }
}

/// Target of an invocation or an alias.
pub open spec fn parse_target_of(s0: Seq<char>, line: nat) -> Result<TargetM, LexErrorM> {
    let s = trim(s0);
    if s.len() > 0 && s[0] == '{' && s.last() == '}' && s.len() >= 2 {
        Ok(TargetM::Var(trim(s.subrange(1, s.len() - 1))))
    } else if file_ref(s) {
        let h = first_of(s, '#');
        if h < s.len() {
            Ok(
                TargetM::File {
                    path: trim(s.take(h as int)),
                    section: opt_nonempty(trim(s.skip(h as int + 1))),
                },
            )
        } else {
            Ok(TargetM::File { path: s, section: None })
        }
    } else if all_word(s) {
        Ok(TargetM::Local(s))
    } else {
        Err(lex_err(line, "invalid target expression `"@ + s + "`"@))
    }
}

fn parse_target(s0: &[char], line: usize) -> (r: Result<Target, LexError>)
    ensures
        match r {
            Ok(t) => parse_target_of(s0@, line as nat) == Ok::<TargetM, LexErrorM>(t@),
            Err(e) => parse_target_of(s0@, line as nat) == Err::<TargetM, LexErrorM>(e@),
        },
{
    let s = trimmed(s0);
    let n = s.len();
    if n > 0 && s[0] == '{' && s[n - 1] == '}' && n >= 2 {
        let inner = slice_of(&s, 1, n - 1);
        let v = trimmed(&inner);
        return Ok(Target::Var(string_of(&v)));
    }
    if is_file_ref(&s) {
        let h = find_char(&s, '#');
        if h < n {
            let p = slice_of(&s, 0, h);
            let q = slice_of(&s, h + 1, n);
            let path = trimmed(&p);
            let sec = trimmed(&q);
            assert(p@ =~= s@.take(h as int));
            assert(q@ =~= s@.skip(h + 1));
            let section = if sec.len() == 0 {
                None
            } else {
                Some(string_of(&sec))
            };
            return Ok(Target::File { path: string_of(&path), section });
        } else {
            return Ok(Target::File { path: string_of(&s), section: None });
        }
    }
    if is_all_word(&s) {
        return Ok(Target::Local(string_of(&s)));
    }
    let mut msg: Vec<char> = Vec::new();
    push_str(&mut msg, "invalid target expression `");
    push_all(&mut msg, &s);
    push_str(&mut msg, "`");
    Err(make_error(line, &msg))
}

/// A section header: its name and, for an alias, its target.
pub struct SectionDecl {
    pub name: String,
    pub alias: Option<Target>,
}

pub struct SectionDeclM {
    pub name: Seq<char>,
    pub alias: Option<TargetM>,
}

impl View for SectionDecl {
    type V = SectionDeclM;

    open spec fn view(&self) -> SectionDeclM {
        SectionDeclM {
            name: self.name@,
            alias: match self.alias {
                Some(t) => Some(t@),
                None => None,
            },
        }
    }
}

/// A line starting with `#`: `#name`, `#name > target`, or no header at all.
pub open spec fn section_decl_of(line: Seq<char>, line_no: nat) -> Result<
    Option<SectionDeclM>,
    LexErrorM,
> {
    let rest = line.drop_first();
    let name = section_name_of(rest);
    if name.len() == 0 {
        Ok(None)
    } else {
        let after = trim_start(rest.skip(name.len() as int));
        if after.len() == 0 {
            Ok(Some(SectionDeclM { name, alias: None }))
        } else if after[0] == '>' {
            match parse_target_of(trim(after.drop_first()), line_no) {
                Ok(t) => Ok(Some(SectionDeclM { name, alias: Some(t) })),
                Err(e) => Err(e),
            }
        } else {
            Ok(None)
        }
    }
}

fn parse_section_decl(line: &[char], line_no: usize) -> (r: Result<Option<SectionDecl>, LexError>)
    requires
        line@.len() > 0,
    ensures
        match r {
            Ok(Some(d)) => section_decl_of(line@, line_no as nat) == Ok::<
                Option<SectionDeclM>,
                LexErrorM,
            >(Some(d@)),
            Ok(None) => section_decl_of(line@, line_no as nat) == Ok::<
                Option<SectionDeclM>,
                LexErrorM,
            >(None),
            Err(e) => section_decl_of(line@, line_no as nat) == Err::<
                Option<SectionDeclM>,
                LexErrorM,
            >(e@),
        },
{
    let rest = slice_of(line, 1, line.len());
    assert(rest@ =~= line@.drop_first());
    let name = section_name(&rest);
    if name.len() == 0 {
        return Ok(None);
    }
    let tail = slice_of(&rest, name.len(), rest.len());
    let after = trimmed_start(&tail);
    if after.len() == 0 {
        return Ok(Some(SectionDecl { name: string_of(&name), alias: None }));
    }
    if after[0] == '>' {
        let a1 = slice_of(&after, 1, after.len());
        assert(a1@ =~= after@.drop_first());
        let expr = trimmed(&a1);
        match parse_target(&expr, line_no) {
            Ok(t) => Ok(Some(SectionDecl { name: string_of(&name), alias: Some(t) })),
            Err(e) => Err(e),
        }
    } else {
        Ok(None)
    }
}

} // verus!

verus! {

// ---------------------------------------------------------------------------
// splitting
pub open spec fn vv(s: Seq<Vec<char>>) -> Seq<Seq<char>> {
    s.map_values(|v: Vec<char>| v@)
}

pub open spec fn next_braces(c: char, braces: nat) -> nat {
    if c == '{' {
        braces + 1
    } else if c == '}' {
        if braces > 0 {
            (braces - 1) as nat
        } else {
            0
        }
    } else {
        braces
    }
}

/// Splitting a content line at `>` outside quotes and braces.
pub open spec fn chain_go(
    s: Seq<char>,
    i: int,
    segs: Seq<Seq<char>>,
    cur: Seq<char>,
    quote: Option<char>,
    braces: nat,
) -> Seq<Seq<char>>
    decreases s.len() - i,
{
    if i >= s.len() || i < 0 {
        segs.push(trim(cur))
    } else {
        let c = s[i];
        match quote {
            Some(q) => chain_go(
                s,
                i + 1,
                segs,
                cur.push(c),
                if c == q {
                    None
                } else {
                    quote
                },
                braces,
            ),
            None => if c == '"' || c == '\'' {
                chain_go(s, i + 1, segs, cur.push(c), Some(c), braces)
            } else if c == '>' && braces == 0 {
                chain_go(s, i + 1, segs.push(trim(cur)), Seq::empty(), None, braces)
            } else {
                chain_go(s, i + 1, segs, cur.push(c), None, next_braces(c, braces))
            },
        }
    }
}

/// The `>`-separated segments of a content line, each trimmed.
pub open spec fn split_chain_of(s: Seq<char>) -> Seq<Seq<char>> {
    chain_go(s, 0, Seq::empty(), Seq::empty(), None, 0)
}

proof fn lemma_vv_push(s: Seq<Vec<char>>, v: Vec<char>)
    ensures
        vv(s.push(v)) == vv(s).push(v@),
{
    assert(vv(s.push(v)) =~= vv(s).push(v@));
}

fn split_chain(line: &[char]) -> (segs: Vec<Vec<char>>)
    ensures
        vv(segs@) == split_chain_of(line@),
{
    let mut segs: Vec<Vec<char>> = Vec::new();
    let mut cur: Vec<char> = Vec::new();
    let mut quote: Option<char> = None;
    let mut braces: usize = 0;
    let mut i: usize = 0;
    assert(vv(segs@) =~= Seq::<Seq<char>>::empty());
    while i < line.len()
        invariant
            i <= line@.len(),
            braces <= i,
            chain_go(line@, i as int, vv(segs@), cur@, quote, braces as nat) == split_chain_of(
                line@,
            ),
        decreases line@.len() - i,
    {
        let c = line[i];
        match quote {
            Some(q) => {
                cur.push(c);
                if c == q {
                    quote = None;
                }
            },
            None => {
                if c == '"' || c == '\'' {
                    quote = Some(c);
                    cur.push(c);
                } else if c == '>' && braces == 0 {
                    let t = trimmed(&cur);
                    proof {
                        lemma_vv_push(segs@, t);
                    }
                    segs.push(t);
                    cur = Vec::new();
                } else {
                    cur.push(c);
                    if c == '{' {
                        braces = braces + 1;
                    } else if c == '}' {
                        if braces > 0 {
                            braces = braces - 1;
                        }
                    }
                }
            },
        }
        i = i + 1;
    }
    let t = trimmed(&cur);
    proof {
        lemma_vv_push(segs@, t);
    }
    segs.push(t);
    segs
}

/// Splitting at whitespace outside quotes and braces.
pub open spec fn tok_go(
    s: Seq<char>,
    i: int,
    toks: Seq<Seq<char>>,
    cur: Seq<char>,
    quote: Option<char>,
    braces: nat,
) -> Seq<Seq<char>>
    decreases s.len() - i,
{
    if i >= s.len() || i < 0 {
        if cur.len() > 0 {
            toks.push(cur)
        } else {
            toks
        }
    } else {
        let c = s[i];
        match quote {
            Some(q) => tok_go(
                s,
                i + 1,
                toks,
                cur.push(c),
                if c == q {
                    None
                } else {
                    quote
                },
                braces,
            ),
            None => if c == '"' || c == '\'' {
                tok_go(s, i + 1, toks, cur.push(c), Some(c), braces)
            } else if is_ws(c) && braces == 0 && c != '{' && c != '}' {
                tok_go(
                    s,
                    i + 1,
                    if cur.len() > 0 {
                        toks.push(cur)
                    } else {
                        toks
                    },
                    Seq::empty(),
                    None,
                    braces,
                )
            } else {
                tok_go(s, i + 1, toks, cur.push(c), None, next_braces(c, braces))
            },
        }
    }
}

/// The whitespace-separated tokens of a string; quoted and braced parts stay whole.
pub open spec fn tokens_of(s: Seq<char>) -> Seq<Seq<char>> {
    tok_go(s, 0, Seq::empty(), Seq::empty(), None, 0)
}

fn tokens(input: &[char]) -> (toks: Vec<Vec<char>>)
    ensures
        vv(toks@) == tokens_of(input@),
{
    let mut toks: Vec<Vec<char>> = Vec::new();
    let mut cur: Vec<char> = Vec::new();
    let mut quote: Option<char> = None;
    let mut braces: usize = 0;
    let mut i: usize = 0;
    assert(vv(toks@) =~= Seq::<Seq<char>>::empty());
    while i < input.len()
        invariant
            i <= input@.len(),
            braces <= i,
            tok_go(input@, i as int, vv(toks@), cur@, quote, braces as nat) == tokens_of(input@),
        decreases input@.len() - i,
    {
        let c = input[i];
        match quote {
            Some(q) => {
                cur.push(c);
                if c == q {
                    quote = None;
                }
            },
            None => {
                if c == '"' || c == '\'' {
                    quote = Some(c);
                    cur.push(c);
                } else if is_whitespace(c) && braces == 0 && c != '{' && c != '}' {
                    if cur.len() > 0 {
                        proof {
                            lemma_vv_push(toks@, cur);
                        }
                        toks.push(cur);
                    }
                    cur = Vec::new();
                } else {
                    cur.push(c);
                    if c == '{' {
                        braces = braces + 1;
                    } else if c == '}' {
                        if braces > 0 {
                            braces = braces - 1;
                        }
                    }
                }
            },
        }
        i = i + 1;
    }
    if cur.len() > 0 {
        proof {
            lemma_vv_push(toks@, cur);
        }
        toks.push(cur);
    }
    toks
}

pub open spec fn strings_view(s: Seq<String>) -> Seq<Seq<char>> {
    s.map_values(|t: String| t@)
}

/// Splits `input` at whitespace that is outside quotes and braces.
pub fn tokenize_ws(input: &str) -> (r: Result<Vec<String>, LexError>)
    ensures
        r matches Ok(v) && strings_view(v@) == tokens_of(input@),
        r matches Ok(v) && forall|k: int| 0 <= k < v@.len() ==> (#[trigger] v@[k])@.len() > 0,
        r matches Ok(v) && join_all(strings_view(v@)) == kept_go(input@, 0, None, 0),
        r matches Ok(v) && strings_view(v@) == runs_go(input@, 0, Seq::empty(), Seq::empty()),
{
    proof {
        lemma_tokens_nonempty(input@);
        lemma_tokens_join(input@);
        lemma_tokens_are_runs(input@);
    }
    let cs = chars_of(input);
    let toks = tokens(&cs);
    let mut out: Vec<String> = Vec::new();
    let mut k: usize = 0;
    while k < toks.len()
        invariant
            k <= toks@.len(),
            strings_view(out@) == vv(toks@).take(k as int),
        decreases toks@.len() - k,
    {
        let t = string_of(&toks[k]);
        assert(t@ == vv(toks@)[k as int]);
        let ghost prev = out@;
        out.push(t);
        assert(strings_view(prev.push(t)) =~= strings_view(prev).push(t@));
        assert(vv(toks@).take(k + 1) =~= vv(toks@).take(k as int).push(vv(toks@)[k as int]));
        k = k + 1;
    }
    assert(vv(toks@).take(k as int) =~= vv(toks@));
    assert forall|j: int| 0 <= j < out@.len() implies (#[trigger] out@[j])@.len() > 0 by {
        assert(strings_view(out@)[j] == out@[j]@);
    }
    Ok(out)
}

// ---------------------------------------------------------------------------
// attributes and values
/// Index of the first `=` outside quotes.
pub open spec fn eq_scan(s: Seq<char>, i: int, quote: Option<char>) -> Option<int>
    decreases s.len() - i,
{
    if i >= s.len() || i < 0 {
        None
    } else {
        let c = s[i];
        match quote {
            Some(q) => eq_scan(
                s,
                i + 1,
                if c == q {
                    None
                } else {
                    quote
                },
            ),
            None => if c == '"' || c == '\'' {
                eq_scan(s, i + 1, Some(c))
            } else if c == '=' {
                Some(i)
            } else {
                eq_scan(s, i + 1, None)
            },
        }
    }
}

proof fn lemma_eq_scan_range(s: Seq<char>, i: int, quote: Option<char>)
    requires
        0 <= i,
    ensures
        eq_scan(s, i, quote) matches Some(k) ==> i <= k < s.len() && s[k] == '=',
    decreases s.len() - i,
{
    if i < s.len() {
        let c = s[i];
        match quote {
            Some(q) => lemma_eq_scan_range(
                s,
                i + 1,
                if c == q {
                    None
                } else {
                    quote
                },
            ),
            None => if c == '"' || c == '\'' {
                lemma_eq_scan_range(s, i + 1, Some(c));
            } else if c != '=' {
                lemma_eq_scan_range(s, i + 1, None);
            },
        }
    }
}

fn split_key_eq(tok: &[char]) -> (r: Option<usize>)
    ensures
        match r {
            Some(k) => eq_scan(tok@, 0, None) == Some(k as int) && k < tok@.len(),
            None => eq_scan(tok@, 0, None) is None,
        },
{
    let mut quote: Option<char> = None;
    let mut i: usize = 0;
    while i < tok.len()
        invariant
            i <= tok@.len(),
            eq_scan(tok@, i as int, quote) == eq_scan(tok@, 0, None),
        decreases tok@.len() - i,
    {
        let c = tok[i];
        match quote {
            Some(q) => {
                if c == q {
                    quote = None;
                }
            },
            None => {
                if c == '"' || c == '\'' {
                    quote = Some(c);
                } else if c == '=' {
                    return Some(i);
                }
            },
        }
        i = i + 1;
    }
    None
}

/// What a `{...}` reference or literal text contributes: chunks of literal
/// text and trimmed reference expressions.
pub open spec fn flush_lit(chunks: Seq<ChunkM>, lit: Seq<char>) -> Seq<ChunkM> {
    if lit.len() > 0 {
        chunks.push(ChunkM::Lit(lit))
    } else {
        chunks
    }
}

pub open spec fn chunk_go(
    s: Seq<char>,
    i: int,
    chunks: Seq<ChunkM>,
    lit: Seq<char>,
    in_ref: bool,
    expr: Seq<char>,
    depth: nat,
) -> Seq<ChunkM>
    decreases s.len() - i,
{
    if i >= s.len() || i < 0 {
        if in_ref {
            flush_lit(chunks, lit).push(ChunkM::Ref(trim(expr)))
        } else {
            flush_lit(chunks, lit)
        }
    } else {
        let c = s[i];
        if !in_ref {
            if c == '{' {
                chunk_go(s, i + 1, chunks, lit, true, Seq::empty(), 1)
            } else {
                chunk_go(s, i + 1, chunks, lit.push(c), false, expr, depth)
            }
        } else if c == '{' {
            chunk_go(s, i + 1, chunks, lit, true, expr.push(c), depth + 1)
        } else if c == '}' && depth <= 1 {
            chunk_go(
                s,
                i + 1,
                flush_lit(chunks, lit).push(ChunkM::Ref(trim(expr))),
                Seq::empty(),
                false,
                Seq::empty(),
                0,
            )
        } else if c == '}' {
            chunk_go(s, i + 1, chunks, lit, true, expr.push(c), (depth - 1) as nat)
        } else {
            chunk_go(s, i + 1, chunks, lit, true, expr.push(c), depth)
        }
    }
}

/// The chunks of interpolated text.
pub open spec fn chunks_of(s: Seq<char>) -> Seq<ChunkM> {
    chunk_go(s, 0, Seq::empty(), Seq::empty(), false, Seq::empty(), 0)
}

proof fn lemma_chunks_push(s: Seq<Chunk>, c: Chunk)
    ensures
        chunks_view(s.push(c)) == chunks_view(s).push(c@),
{
    assert(chunks_view(s.push(c)) =~= chunks_view(s).push(c@));
}

fn flush_lit_exec(chunks: &mut Vec<Chunk>, lit: &Vec<char>)
    ensures
        chunks_view(final(chunks)@) == flush_lit(chunks_view(old(chunks)@), lit@),
{
    if lit.len() > 0 {
        let c = Chunk::Lit(string_of(lit));
        proof {
            lemma_chunks_push(chunks@, c);
        }
        chunks.push(c);
    }
}

fn chunks_exec(s: &[char]) -> (r: Vec<Chunk>)
    ensures
        chunks_view(r@) == chunks_of(s@),
{
    let mut chunks: Vec<Chunk> = Vec::new();
    let mut lit: Vec<char> = Vec::new();
    let mut in_ref = false;
    let mut expr: Vec<char> = Vec::new();
    let mut depth: usize = 0;
    let mut i: usize = 0;
    assert(chunks_view(chunks@) =~= Seq::<ChunkM>::empty());
    while i < s.len()
        invariant
            i <= s@.len(),
            depth <= i,
            chunk_go(s@, i as int, chunks_view(chunks@), lit@, in_ref, expr@, depth as nat)
                == chunks_of(s@),
        decreases s@.len() - i,
    {
        let c = s[i];
        if !in_ref {
            if c == '{' {
                in_ref = true;
                expr = Vec::new();
                depth = 1;
            } else {
                lit.push(c);
            }
        } else if c == '{' {
            expr.push(c);
            depth = depth + 1;
        } else if c == '}' && depth <= 1 {
            flush_lit_exec(&mut chunks, &lit);
            let t = trimmed(&expr);
            let r = Chunk::Ref(string_of(&t));
            proof {
                lemma_chunks_push(chunks@, r);
            }
            chunks.push(r);
            lit = Vec::new();
            in_ref = false;
            expr = Vec::new();
            depth = 0;
        } else if c == '}' {
            expr.push(c);
            depth = depth - 1;
        } else {
            expr.push(c);
        }
        i = i + 1;
    }
    if in_ref {
        flush_lit_exec(&mut chunks, &lit);
        let t = trimmed(&expr);
        let r = Chunk::Ref(string_of(&t));
        proof {
            lemma_chunks_push(chunks@, r);
        }
        chunks.push(r);
    } else {
        flush_lit_exec(&mut chunks, &lit);
    }
    chunks
}

/// Splits interpolated text into literal chunks and `{reference}` chunks.
pub fn parse_chunks(s: &str) -> (r: Vec<Chunk>)
    ensures
        chunks_view(r@) == chunks_of(s@),
{
    let cs = chars_of(s);
    chunks_exec(&cs)
}

/// The value written after `=`.
pub open spec fn value_of(v0: Seq<char>) -> RawValueM {
    let v = trim(v0);
    if v.len() >= 2 && v[0] == '"' && v.last() == '"' {
        RawValueM::Str(chunks_of(v.subrange(1, v.len() - 1)))
    } else if v == "True"@ || v == "true"@ {
        RawValueM::Bool(true)
    } else if v == "False"@ || v == "false"@ {
        RawValueM::Bool(false)
    } else if v == "Null"@ || v == "null"@ {
        RawValueM::Null
    } else if v.len() >= 2 && v[0] == '{' && v.last() == '}' {
        RawValueM::Ref(trim(v.subrange(1, v.len() - 1)))
    } else {
        match parse_number(v) {
            Some(n) => RawValueM::Num(n),
            None => RawValueM::Str(chunks_of(v)),
        }
    }
}

fn is_literal(v: &[char], lit: &str) -> (b: bool)
    ensures
        b == (v@ == lit@),
{
    let l = chars_of(lit);
    same(v, &l)
}

fn parse_value(v0: &[char]) -> (r: RawValue)
    ensures
        r@ == value_of(v0@),
{
    let v = trimmed(v0);
    let n = v.len();
    if n >= 2 && v[0] == '"' && v[n - 1] == '"' {
        let inner = slice_of(&v, 1, n - 1);
        return RawValue::Str(chunks_exec(&inner));
    }
    if is_literal(&v, "True") || is_literal(&v, "true") {
        return RawValue::Bool(true);
    }
    if is_literal(&v, "False") || is_literal(&v, "false") {
        return RawValue::Bool(false);
    }
    if is_literal(&v, "Null") || is_literal(&v, "null") {
        return RawValue::Null;
    }
    if n >= 2 && v[0] == '{' && v[n - 1] == '}' {
        let inner = slice_of(&v, 1, n - 1);
        let t = trimmed(&inner);
        return RawValue::Ref(string_of(&t));
    }
    match parse_number_exec(&v) {
        Some(num) => RawValue::Num(num),
        None => RawValue::Str(chunks_exec(&v)),
    }
}

/// An attribute token: `key=value` or a bare `key`.
pub open spec fn attr_of(tok: Seq<char>) -> AttrM {
    match eq_scan(tok, 0, None) {
        Some(k) => AttrM { key: tok.take(k), value: Some(value_of(tok.skip(k + 1))) },
        None => AttrM { key: tok, value: None },
    }
}

pub open spec fn attrs_of(toks: Seq<Seq<char>>) -> Seq<AttrM> {
    toks.map_values(|t: Seq<char>| attr_of(t))
}

fn parse_attr(tok: &[char]) -> (a: Attr)
    ensures
        a@ == attr_of(tok@),
{
    let n = tok.len();
    match split_key_eq(tok) {
        Some(k) => {
            let key = slice_of(tok, 0, k);
            let val = slice_of(tok, k + 1, n);
            assert(key@ =~= tok@.take(k as int));
            assert(val@ =~= tok@.skip(k + 1));
            Attr { key: string_of(&key), value: Some(parse_value(&val)) }
        },
        None => Attr { key: string_of(tok), value: None },
    }
}

/// Attributes from `toks[from..]`.
fn parse_attrs(toks: &Vec<Vec<char>>, from: usize) -> (r: Vec<Attr>)
    requires
        from <= toks@.len(),
    ensures
        attrs_view(r@) == attrs_of(vv(toks@).skip(from as int)),
{
    let mut attrs: Vec<Attr> = Vec::new();
    let mut k = from;
    while k < toks.len()
        invariant
            from <= k <= toks@.len(),
            attrs_view(attrs@) == attrs_of(vv(toks@).subrange(from as int, k as int)),
        decreases toks@.len() - k,
    {
        let a = parse_attr(&toks[k]);
        assert(a@ == attr_of(vv(toks@)[k as int]));
        let ghost prev = attrs@;
        attrs.push(a);
        assert(attrs_view(prev.push(a)) =~= attrs_view(prev).push(a@));
        assert(vv(toks@).subrange(from as int, k + 1) =~= vv(toks@).subrange(from as int, k as int).push(vv(toks@)[k as int]));
        assert(attrs_of(vv(toks@).subrange(from as int, k + 1)) =~= attrs_of(vv(toks@).subrange(from as int, k as int)).push(attr_of(vv(toks@)[k as int])));
        k = k + 1;
    }
    assert(vv(toks@).subrange(from as int, k as int) =~= vv(toks@).skip(from as int));
    attrs
}

} // verus!

verus! {

// ---------------------------------------------------------------------------
// segments
/// `[String]::join(sep)`.
pub open spec fn join_of(s: Seq<Seq<char>>, sep: Seq<char>) -> Seq<char>
    decreases s.len(),
{
    if s.len() == 0 {
        Seq::empty()
    } else if s.len() == 1 {
        s[0]
    } else {
        join_of(s.drop_last(), sep) + sep + s.last()
    }
}

/// `toks[from..].join(" ")`.
fn join_from(toks: &Vec<Vec<char>>, from: usize) -> (r: Vec<char>)
    requires
        from <= toks@.len(),
    ensures
        r@ == join_of(vv(toks@).skip(from as int), " "@),
{
    let mut out: Vec<char> = Vec::new();
    let mut k = from;
    while k < toks.len()
        invariant
            from <= k <= toks@.len(),
            out@ == join_of(vv(toks@).subrange(from as int, k as int), " "@),
        decreases toks@.len() - k,
    {
        let ghost prev = vv(toks@).subrange(from as int, k as int);
        let ghost next = vv(toks@).subrange(from as int, k + 1);
        assert(next.drop_last() =~= prev);
        assert(next.last() == toks@[k as int]@);
        if k > from {
            push_str(&mut out, " ");
        } else {
            assert(next.len() == 1);
        }
        push_all(&mut out, &toks[k]);
        k = k + 1;
    }
    assert(vv(toks@).subrange(from as int, k as int) =~= vv(toks@).skip(from as int));
    out
}

pub open spec fn element_of(rest: Seq<char>, line: nat) -> Result<NodeM, LexErrorM> {
    let t = tokens_of(rest);
    if t.len() == 0 {
        Err(lex_err(line, "expected a tagname after `<`"@))
    } else {
        Ok(
            NodeM::El {
                line,
                tag: t[0],
                attrs: attrs_of(t.skip(1)),
                children: Seq::empty(),
            },
        )
    }
}

pub open spec fn invoke_of(rest: Seq<char>, line: nat) -> Result<NodeM, LexErrorM> {
    let t = tokens_of(rest);
    if t.len() == 0 {
        Err(lex_err(line, "expected a target after `<:`"@))
    } else if t[0] == "if"@ {
        Ok(
            NodeM::Cond {
                line,
                cond: trim(join_of(t.skip(1), " "@)),
                then_ch: Seq::empty(),
                else_ch: Seq::empty(),
            },
        )
    } else if t[0] == "else"@ {
        if t.len() != 1 {
            Err(lex_err(line, "unexpected tokens after `<:else`"@))
        } else {
            Ok(NodeM::ElseMarker { line, children: Seq::empty() })
        }
    } else if t[0] == "for"@ {
        if t.len() < 4 || t[2] != "in"@ {
            Err(lex_err(line, "expected `<:for var in expr`"@))
        } else {
            Ok(
                NodeM::Loop {
                    line,
                    var: t[1],
                    expr: trim(join_of(t.skip(3), " "@)),
                    children: Seq::empty(),
                },
            )
        }
    } else {
        match parse_target_of(t[0], line) {
            Ok(tg) => Ok(
                NodeM::Inv {
                    line,
                    target: tg,
                    props: attrs_of(t.skip(1)),
                    children: Seq::empty(),
                },
            ),
            Err(e) => Err(e),
        }
    }
}

pub open spec fn segment_of(seg: Seq<char>, line: nat) -> Result<NodeM, LexErrorM> {
    if seg.len() > 0 && seg[0] == '<' {
        let rest = seg.drop_first();
        if rest.len() > 0 && rest[0] == ':' {
            invoke_of(rest.drop_first(), line)
        } else {
            element_of(rest, line)
        }
    } else {
        Ok(NodeM::Text { line, chunks: chunks_of(seg) })
    }
}

pub open spec fn content_go(segs: Seq<Seq<char>>, k: int, nodes: Seq<NodeM>, line: nat) -> Result<
    Seq<NodeM>,
    LexErrorM,
>
    decreases segs.len() - k,
{
    if k >= segs.len() || k < 0 {
        if nodes.len() == 0 {
            Err(lex_err(line, "empty content line"@))
        } else {
            Ok(nodes)
        }
    } else {
        let t = trim(segs[k]);
        if t.len() == 0 {
            content_go(segs, k + 1, nodes, line)
        } else {
            match segment_of(t, line) {
                Ok(n) => content_go(segs, k + 1, nodes.push(n), line),
                Err(e) => Err(e),
            }
        }
    }
}

/// The nodes of one content line, chained with `>`.
pub open spec fn content_line_of(line: Seq<char>, line_no: nat) -> Result<Seq<NodeM>, LexErrorM> {
    content_go(split_chain_of(line), 0, Seq::empty(), line_no)
}

pub open spec fn node_res(r: Result<Node, LexError>) -> Result<NodeM, LexErrorM> {
    match r {
        Ok(n) => Ok(n@),
        Err(e) => Err(e@),
    }
}

fn error_at(line: usize, msg: &str) -> (e: LexError)
    ensures
        e@ == lex_err(line as nat, msg@),
{
    let m = chars_of(msg);
    make_error(line, &m)
}

fn parse_element(rest: &[char], line: usize) -> (r: Result<Node, LexError>)
    ensures
        node_res(r) == element_of(rest@, line as nat),
{
    let toks = tokens(rest);
    if toks.len() == 0 {
        return Err(error_at(line, "expected a tagname after `<`"));
    }
    let attrs = parse_attrs(&toks, 1);
    let n = Node::El(
        ElNode { line, tag: string_of(&toks[0]), attrs, children: Vec::new() },
    );
    assert(n@ == element_of(rest@, line as nat)->Ok_0);
    Ok(n)
}

fn parse_invoke(rest: &[char], line: usize) -> (r: Result<Node, LexError>)
    ensures
        node_res(r) == invoke_of(rest@, line as nat),
{
    let toks = tokens(rest);
    let ghost t = vv(toks@);
    if toks.len() == 0 {
        return Err(error_at(line, "expected a target after `<:`"));
    }
    assert(t[0] == toks@[0]@);
    if is_literal(&toks[0], "if") {
        let j = join_from(&toks, 1);
        let c = trimmed(&j);
        let n = Node::Cond(
            CondNode { line, cond: string_of(&c), then_ch: Vec::new(), else_ch: Vec::new() },
        );
        return Ok(n);
    }
    if is_literal(&toks[0], "else") {
        if toks.len() != 1 {
            return Err(error_at(line, "unexpected tokens after `<:else`"));
        }
        return Ok(Node::ElseMarker(ElseStub { line, children: Vec::new() }));
    }
    if is_literal(&toks[0], "for") {
        if toks.len() < 4 || !is_literal(&toks[2], "in") {
            proof {
                if toks@.len() >= 4 {
                    assert(t[2] == toks@[2]@);
                }
            }
            return Err(error_at(line, "expected `<:for var in expr`"));
        }
        assert(t[2] == toks@[2]@);
        assert(t[1] == toks@[1]@);
        let j = join_from(&toks, 3);
        let e = trimmed(&j);
        let n = Node::Loop(
            LoopNode {
                line,
                var: string_of(&toks[1]),
                expr: string_of(&e),
                children: Vec::new(),
            },
        );
        return Ok(n);
    }
    match parse_target(&toks[0], line) {
        Ok(tg) => {
            let props = parse_attrs(&toks, 1);
            Ok(Node::Inv(InvNode { line, target: tg, props, children: Vec::new() }))
        },
        Err(e) => Err(e),
    }
}

fn parse_segment(seg: &[char], line: usize) -> (r: Result<Node, LexError>)
    ensures
        node_res(r) == segment_of(seg@, line as nat),
{
    let n = seg.len();
    if n > 0 && seg[0] == '<' {
        let rest = slice_of(seg, 1, n);
        assert(rest@ =~= seg@.drop_first());
        if rest.len() > 0 && rest[0] == ':' {
            let r2 = slice_of(&rest, 1, rest.len());
            assert(r2@ =~= rest@.drop_first());
            parse_invoke(&r2, line)
        } else {
            parse_element(&rest, line)
        }
    } else {
        let chunks = chunks_exec(seg);
        Ok(Node::Text(TextNode { line, chunks }))
    }
}

fn parse_content_line(line: &[char], line_no: usize) -> (r: Result<Vec<Node>, LexError>)
    ensures
        match r {
            Ok(v) => content_line_of(line@, line_no as nat) == Ok::<Seq<NodeM>, LexErrorM>(
                nodes_view(v@),
            ),
            Err(e) => content_line_of(line@, line_no as nat) == Err::<Seq<NodeM>, LexErrorM>(e@),
        },
{
    let segs = split_chain(line);
    let mut nodes: Vec<Node> = Vec::new();
    let mut k: usize = 0;
    while k < segs.len()
        invariant
            k <= segs@.len(),
            content_go(vv(segs@), k as int, nodes_view(nodes@), line_no as nat)
                == content_line_of(line@, line_no as nat),
        decreases segs@.len() - k,
    {
        assert(vv(segs@)[k as int] == segs@[k as int]@);
        let t = trimmed(&segs[k]);
        if t.len() > 0 {
            match parse_segment(&t, line_no) {
                Ok(n) => {
                    proof {
                        crate::ast::lemma_nodes_view_push(nodes@, n);
                    }
                    nodes.push(n);
                },
                Err(e) => {
                    return Err(e);
                },
            }
        }
        k = k + 1;
    }
    if nodes.len() == 0 {
        return Err(error_at(line_no, "empty content line"));
    }
    Ok(nodes)
}

} // verus!

verus! {

// ---------------------------------------------------------------------------
// the line lexer
/// A token of a template: indentation changes, section headers, content
/// lines and raw asset bodies.
#[derive(Debug)]
pub enum Tok {
    Indent,
    Dedent,
    Section { name: String, alias: Option<Target>, line: usize },
    Chain { nodes: Vec<Node>, line: usize },
    Raw { text: String, line: usize },
}

pub enum TokM {
    Indent,
    Dedent,
    Section { name: Seq<char>, alias: Option<TargetM>, line: nat },
    Chain { nodes: Seq<NodeM>, line: nat },
    Raw { text: Seq<char>, line: nat },
}

impl View for Tok {
    type V = TokM;

    open spec fn view(&self) -> TokM {
        match self {
            Tok::Indent => TokM::Indent,
            Tok::Dedent => TokM::Dedent,
            Tok::Section { name, alias, line } => TokM::Section {
                name: name@,
                alias: match alias {
                    Some(t) => Some(t@),
                    None => None,
                },
                line: *line as nat,
            },
            Tok::Chain { nodes, line } => TokM::Chain {
                nodes: nodes_view(nodes@),
                line: *line as nat,
            },
            Tok::Raw { text, line } => TokM::Raw { text: text@, line: *line as nat },
        }
    }
}

pub open spec fn toks_view(s: Seq<Tok>) -> Seq<TokM> {
    s.map_values(|t: Tok| t@)
}

/// State of the lexer between lines.
pub struct LexSt {
    pub toks: Seq<TokM>,
    pub indents: Seq<nat>,
    pub base: nat,
    pub need_base: bool,
    pub raw_mode: bool,
    pub raw_buf: Seq<char>,
}

pub open spec fn lex_init() -> LexSt {
    LexSt {
        toks: Seq::empty(),
        indents: seq![0nat],
        base: 0,
        need_base: true,
        raw_mode: false,
        raw_buf: Seq::empty(),
    }
}

pub open spec fn dedents(n: nat) -> Seq<TokM> {
    Seq::new(n, |i: int| TokM::Dedent)
}

/// A section header closes raw mode and every open indentation level.
pub open spec fn section_step(st: LexSt, d: SectionDeclM, line_no: nat) -> LexSt {
    let t1 = if st.raw_mode {
        st.toks.push(TokM::Raw { text: st.raw_buf, line: line_no })
    } else {
        st.toks
    };
    let buf1 = if st.raw_mode {
        Seq::empty()
    } else {
        st.raw_buf
    };
    let n: nat = if st.indents.len() > 0 {
        (st.indents.len() - 1) as nat
    } else {
        0
    };
    let t2 = t1 + dedents(n);
    let asset = asset_name(d.name);
    LexSt {
        toks: t2.push(TokM::Section { name: d.name, alias: d.alias, line: line_no }),
        indents: seq![0nat],
        base: 0,
        need_base: true,
        raw_mode: asset,
        raw_buf: if asset {
            Seq::empty()
        } else {
            buf1
        },
    }
}

/// Closing indentation levels deeper than `rel`.
pub open spec fn pop_to(indents: Seq<nat>, toks: Seq<TokM>, rel: nat) -> (Seq<nat>, Seq<TokM>)
    decreases indents.len(),
{
    if indents.len() > 0 && indents.last() > rel {
        pop_to(indents.drop_last(), toks.push(TokM::Dedent), rel)
    } else {
        (indents, toks)
    }
}

pub open spec fn indent_msg(rel: nat) -> Seq<char> {
    "inconsistent indentation (found depth "@ + nat_text(rel) + ")"@
}

/// A line that is not a section header.
pub open spec fn body_step(st: LexSt, line: Seq<char>, line_no: nat) -> Result<LexSt, LexErrorM> {
    if st.raw_mode {
        Ok(LexSt { raw_buf: st.raw_buf + line.push('\n'), ..st })
    } else if blank_or_comment(line) {
        Ok(st)
    } else {
        let w = ws_width(line);
        let base = if st.need_base {
            w
        } else {
            st.base
        };
        let rel: nat = if w >= base {
            (w - base) as nat
        } else {
            0
        };
        let top = st.indents.last();
        if rel < top && !st.indents.contains(rel) {
            Err(lex_err(line_no, indent_msg(rel)))
        } else {
            let (ind2, toks2) = if rel > top {
                (st.indents.push(rel), st.toks.push(TokM::Indent))
            } else if rel < top {
                pop_to(st.indents, st.toks, rel)
            } else {
                (st.indents, st.toks)
            };
            match content_line_of(trim_start(line), line_no) {
                Err(e) => Err(e),
                Ok(nodes) => Ok(
                    LexSt {
                        toks: toks2.push(TokM::Chain { nodes, line: line_no }),
                        indents: ind2,
                        base,
                        need_base: false,
                        ..st
                    },
                ),
            }
        }
    }
}

/// One line of the source.
pub open spec fn line_step(st: LexSt, line: Seq<char>, line_no: nat) -> Result<LexSt, LexErrorM> {
    if line.len() > 0 && line[0] == '#' && ws_width(line) == 0 {
        match section_decl_of(line, line_no) {
            Err(e) => Err(e),
            Ok(Some(d)) => Ok(section_step(st, d, line_no)),
            Ok(None) => body_step(st, line, line_no),
        }
    } else {
        body_step(st, line, line_no)
    }
}

pub open spec fn lex_go(lines: Seq<Seq<char>>, k: int, st: LexSt) -> Result<Seq<TokM>, LexErrorM>
    decreases lines.len() - k,
{
    if k >= lines.len() || k < 0 {
        Ok(
            if st.raw_mode {
                st.toks.push(TokM::Raw { text: st.raw_buf, line: 0 })
            } else {
                st.toks
            },
        )
    } else {
        match line_step(st, strip_cr(lines[k]), (k + 1) as nat) {
            Err(e) => Err(e),
            Ok(st2) => lex_go(lines, k + 1, st2),
        }
    }
}

/// The tokens of a template source.
pub open spec fn lex_of(src: Seq<char>) -> Result<Seq<TokM>, LexErrorM> {
    lex_go(lines_of(src), 0, lex_init())
}

struct LexState {
    toks: Vec<Tok>,
    indents: Vec<usize>,
    base: usize,
    need_base: bool,
    raw_mode: bool,
    raw_buf: Vec<char>,
}

spec fn nats(s: Seq<usize>) -> Seq<nat> {
    s.map_values(|x: usize| x as nat)
}

impl View for LexState {
    type V = LexSt;

    closed spec fn view(&self) -> LexSt {
        LexSt {
            toks: toks_view(self.toks@),
            indents: nats(self.indents@),
            base: self.base as nat,
            need_base: self.need_base,
            raw_mode: self.raw_mode,
            raw_buf: self.raw_buf@,
        }
    }
}

proof fn lemma_toks_push(s: Seq<Tok>, t: Tok)
    ensures
        toks_view(s.push(t)) == toks_view(s).push(t@),
{
    assert(toks_view(s.push(t)) =~= toks_view(s).push(t@));
}

fn push_tok(toks: &mut Vec<Tok>, t: Tok)
    ensures
        toks_view(final(toks)@) == toks_view(old(toks)@).push(t@),
{
    proof {
        lemma_toks_push(toks@, t);
    }
    toks.push(t);
}

fn section_exec(st: &mut LexState, d: SectionDecl, line_no: usize)
    requires
        old(st).indents@.len() > 0,
    ensures
        final(st)@ == section_step(old(st)@, d@, line_no as nat),
        final(st).indents@.len() > 0,
{
    if st.raw_mode {
        let text = string_of(&st.raw_buf);
        push_tok(&mut st.toks, Tok::Raw { text, line: line_no });
        st.raw_buf = Vec::new();
        st.raw_mode = false;
    }
    let ghost t1 = toks_view(st.toks@);
    let ghost n = (old(st).indents@.len() - 1) as nat;
    while st.indents.len() > 1
        invariant
            st.indents@.len() >= 1,
            st.indents@.len() <= old(st).indents@.len(),
            toks_view(st.toks@) == t1 + dedents((old(st).indents@.len() - st.indents@.len()) as nat),
            !st.raw_mode,
            st.raw_buf@ == (if old(st).raw_mode {
                Seq::<char>::empty()
            } else {
                old(st).raw_buf@
            }),
        decreases st.indents@.len(),
    {
        st.indents.pop();
        push_tok(&mut st.toks, Tok::Dedent);
        assert(t1 + dedents((old(st).indents@.len() - st.indents@.len()) as nat) =~= (t1 + dedents(
            (old(st).indents@.len() - st.indents@.len() - 1) as nat,
        )).push(TokM::Dedent));
    }
    st.indents = vec![0];
    st.base = 0;
    st.need_base = true;
    let ghost dm = d@;
    let nm = chars_of(d.name.as_str());
    let asset = is_asset_name(&nm);
    assert(asset == asset_name(dm.name));
    push_tok(&mut st.toks, Tok::Section { name: d.name, alias: d.alias, line: line_no });
    if asset {
        st.raw_mode = true;
        st.raw_buf = Vec::new();
    }
    proof {
        let e = section_step(old(st)@, dm, line_no as nat);
        assert(nats(st.indents@) =~= seq![0nat]);
        assert(st@.indents == e.indents);
        assert(st@.toks == e.toks);
        assert(st@.raw_mode == e.raw_mode);
        assert(st@.raw_buf == e.raw_buf);
        assert(st@.base == e.base);
        assert(st@.need_base == e.need_base);
    }
}

fn pop_to_exec(st: &mut LexState, rel: usize)
    requires
        old(st).indents@.len() > 0,
        nats(old(st).indents@).contains(rel as nat),
    ensures
        (final(st)@.indents, final(st)@.toks) == pop_to(
            old(st)@.indents,
            old(st)@.toks,
            rel as nat,
        ),
        final(st).indents@.len() > 0,
        final(st)@.base == old(st)@.base,
        final(st)@.need_base == old(st)@.need_base,
        final(st)@.raw_mode == old(st)@.raw_mode,
        final(st)@.raw_buf == old(st)@.raw_buf,
{
    while st.indents[st.indents.len() - 1] > rel
        invariant
            st.indents@.len() > 0,
            nats(st.indents@).contains(rel as nat),
            pop_to(st@.indents, st@.toks, rel as nat) == pop_to(
                old(st)@.indents,
                old(st)@.toks,
                rel as nat,
            ),
            st@.base == old(st)@.base,
            st@.need_base == old(st)@.need_base,
            st@.raw_mode == old(st)@.raw_mode,
            st@.raw_buf == old(st)@.raw_buf,
        decreases st.indents@.len(),
    {
        let ghost before = nats(st.indents@);
        let top = st.indents.pop();
        push_tok(&mut st.toks, Tok::Dedent);
        proof {
            assert(nats(st.indents@) =~= before.drop_last());
            let j = choose|j: int| 0 <= j < before.len() && before[j] == rel as nat;
            assert(j != before.len() - 1);
            assert(nats(st.indents@)[j] == rel as nat);
        }
    }
    proof {
        let s = nats(st.indents@);
        assert(s.last() == st.indents@[st.indents@.len() - 1] as nat);
    }
}

fn contains_usize(v: &Vec<usize>, x: usize) -> (b: bool)
    ensures
        b == nats(v@).contains(x as nat),
{
    let mut i: usize = 0;
    while i < v.len()
        invariant
            i <= v@.len(),
            forall|j: int| 0 <= j < i ==> v@[j] != x,
        decreases v@.len() - i,
    {
        if v[i] == x {
            assert(nats(v@)[i as int] == x as nat);
            return true;
        }
        i = i + 1;
    }
    proof {
        if nats(v@).contains(x as nat) {
            let j = choose|j: int| 0 <= j < nats(v@).len() && nats(v@)[j] == x as nat;
            assert(v@[j] == x);
        }
    }
    false
}

fn body_exec(st: &mut LexState, line: &[char], line_no: usize) -> (r: Result<(), LexError>)
    requires
        old(st).indents@.len() > 0,
        line@.len() * 4 <= usize::MAX,
    ensures
        match r {
            Ok(()) => body_step(old(st)@, line@, line_no as nat) == Ok::<LexSt, LexErrorM>(
                final(st)@,
            ),
            Err(e) => body_step(old(st)@, line@, line_no as nat) == Err::<LexSt, LexErrorM>(e@),
        },
        final(st).indents@.len() > 0,
{
    if st.raw_mode {
        push_all(&mut st.raw_buf, line);
        st.raw_buf.push('\n');
        assert(st@.raw_buf =~= old(st)@.raw_buf + line@.push('\n'));
        assert(st@ =~= LexSt { raw_buf: old(st)@.raw_buf + line@.push('\n'), ..old(st)@ });
        return Ok(());
    }
    if is_blank_or_comment(line) {
        return Ok(());
    }
    let w = leading_ws(line);
    if st.need_base {
        st.base = w;
    }
    let rel: usize = if w >= st.base {
        w - st.base
    } else {
        0
    };
    let top = st.indents[st.indents.len() - 1];
    assert(old(st)@.indents.last() == top as nat);
    if rel > top {
        st.indents.push(rel);
        push_tok(&mut st.toks, Tok::Indent);
        assert(nats(st.indents@) =~= nats(old(st).indents@).push(rel as nat));
    } else if rel < top {
        if !contains_usize(&st.indents, rel) {
            let mut msg: Vec<char> = Vec::new();
            push_str(&mut msg, "inconsistent indentation (found depth ");
            let d = usize_text(rel);
            push_all(&mut msg, &d);
            push_str(&mut msg, ")");
            return Err(make_error(line_no, &msg));
        }
        pop_to_exec(st, rel);
    }
    let body = trimmed_start(line);
    match parse_content_line(&body, line_no) {
        Err(e) => Err(e),
        Ok(nodes) => {
            push_tok(&mut st.toks, Tok::Chain { nodes, line: line_no });
            st.need_base = false;
            Ok(())
        },
    }
}

fn line_exec(st: &mut LexState, line: &[char], line_no: usize) -> (r: Result<(), LexError>)
    requires
        old(st).indents@.len() > 0,
        line@.len() * 4 <= usize::MAX,
    ensures
        match r {
            Ok(()) => line_step(old(st)@, line@, line_no as nat) == Ok::<LexSt, LexErrorM>(
                final(st)@,
            ),
            Err(e) => line_step(old(st)@, line@, line_no as nat) == Err::<LexSt, LexErrorM>(e@),
        },
        final(st).indents@.len() > 0,
{
    if line.len() > 0 && line[0] == '#' && leading_ws(line) == 0 {
        match parse_section_decl(line, line_no) {
            Err(e) => {
                return Err(e);
            },
            Ok(Some(d)) => {
                section_exec(st, d, line_no);
                return Ok(());
            },
            Ok(None) => {},
        }
    }
    body_exec(st, line, line_no)
}

/// Lexes a template source into tokens.
pub fn lex(src: &str) -> (r: Result<Vec<Tok>, LexError>)
    requires
        src@.len() * 4 <= usize::MAX,
    ensures
        match r {
            Ok(v) => lex_of(src@) == Ok::<Seq<TokM>, LexErrorM>(toks_view(v@)),
            Err(e) => lex_of(src@) == Err::<Seq<TokM>, LexErrorM>(e@),
        },
        r matches Ok(v) ==> stream_ok(toks_view(v@)),
{
    proof {
        if lex_of(src@) is Ok {
            lemma_lex_stream(src@);
        }
    }
    let cs = chars_of(src);
    let lines = lines_exec(&cs);
    let mut st = LexState {
        toks: Vec::new(),
        indents: vec![0],
        base: 0,
        need_base: true,
        raw_mode: false,
        raw_buf: Vec::new(),
    };
    assert(st@ =~= lex_init()) by {
        assert(nats(st.indents@) =~= seq![0nat]);
        assert(toks_view(st.toks@) =~= Seq::<TokM>::empty());
    }
    let mut k: usize = 0;
    while k < lines.len()
        invariant
            k <= lines@.len(),
            st.indents@.len() > 0,
            cs@ == src@,
            forall|j: int| 0 <= j < lines@.len() ==> #[trigger] lines@[j]@.len() <= cs@.len(),
            src@.len() * 4 <= usize::MAX,
            lex_go(vv_chars(lines@), k as int, st@) == lex_of(src@),
        decreases lines@.len() - k,
    {
        let line = strip_cr_exec(&lines[k]);
        assert(vv_chars(lines@)[k as int] == lines@[k as int]@);
        match line_exec(&mut st, &line, k + 1) {
            Err(e) => {
                return Err(e);
            },
            Ok(()) => {},
        }
        k = k + 1;
    }
    if st.raw_mode {
        let text = string_of(&st.raw_buf);
        push_tok(&mut st.toks, Tok::Raw { text, line: 0 });
    }
    Ok(st.toks)
}


proof fn lemma_tok_go_nonempty(
    s: Seq<char>,
    i: int,
    toks: Seq<Seq<char>>,
    cur: Seq<char>,
    quote: Option<char>,
    braces: nat,
)
    requires
        forall|k: int| 0 <= k < toks.len() ==> #[trigger] toks[k].len() > 0,
    ensures
        forall|k: int|
            0 <= k < tok_go(s, i, toks, cur, quote, braces).len() ==> #[trigger] tok_go(
                s,
                i,
                toks,
                cur,
                quote,
                braces,
            )[k].len() > 0,
    decreases s.len() - i,
{
    if i >= s.len() || i < 0 {
        if cur.len() > 0 {
            assert forall|k: int| 0 <= k < toks.push(cur).len() implies #[trigger] toks.push(
                cur,
            )[k].len() > 0 by {
                if k < toks.len() {
                    assert(toks.push(cur)[k] == toks[k]);
                }
            }
        }
    } else {
        let c = s[i];
        match quote {
            Some(q) => {
                let q2 = if c == q {
                    None
                } else {
                    quote
                };
                lemma_tok_go_nonempty(s, i + 1, toks, cur.push(c), q2, braces);
                assert(tok_go(s, i, toks, cur, quote, braces) == tok_go(
                    s,
                    i + 1,
                    toks,
                    cur.push(c),
                    q2,
                    braces,
                ));
            },
            None => if c == '"' || c == '\'' {
                lemma_tok_go_nonempty(s, i + 1, toks, cur.push(c), Some(c), braces);
                assert(tok_go(s, i, toks, cur, quote, braces) == tok_go(
                    s,
                    i + 1,
                    toks,
                    cur.push(c),
                    Some(c),
                    braces,
                ));
            } else if is_ws(c) && braces == 0 && c != '{' && c != '}' {
                let t2 = if cur.len() > 0 {
                    toks.push(cur)
                } else {
                    toks
                };
                assert forall|k: int| 0 <= k < t2.len() implies #[trigger] t2[k].len() > 0 by {
                    if k < toks.len() {
                        assert(toks.push(cur)[k] == toks[k]);
                    }
                }
                lemma_tok_go_nonempty(s, i + 1, t2, Seq::empty(), None, braces);
                assert(tok_go(s, i, toks, cur, quote, braces) == tok_go(
                    s,
                    i + 1,
                    t2,
                    Seq::empty(),
                    None,
                    braces,
                ));
            } else {
                lemma_tok_go_nonempty(s, i + 1, toks, cur.push(c), None, next_braces(c, braces));
                assert(tok_go(s, i, toks, cur, quote, braces) == tok_go(
                    s,
                    i + 1,
                    toks,
                    cur.push(c),
                    None,
                    next_braces(c, braces),
                ));
            },
        }
    }
}

/// Splitting at whitespace never gives an empty token.
pub proof fn lemma_tokens_nonempty(s: Seq<char>)
    ensures
        forall|k: int| 0 <= k < tokens_of(s).len() ==> #[trigger] tokens_of(s)[k].len() > 0,
{
    lemma_tok_go_nonempty(s, 0, Seq::empty(), Seq::empty(), None, 0);
}

} // verus!

verus! {

// ---------------------------------------------------------------------------
// the shape of a token stream
pub open spec fn tok_delta(t: TokM) -> int {
    match t {
        TokM::Indent => 1,
        TokM::Dedent => -1,
        _ => 0,
    }
}

/// How many indentation levels are open after the tokens.
pub open spec fn depth_of(s: Seq<TokM>) -> int
    decreases s.len(),
{
    if s.len() == 0 {
        0
    } else {
        depth_of(s.drop_last()) + tok_delta(s.last())
    }
}

pub open spec fn chain_line(t: TokM) -> nat {
    match t {
        TokM::Chain { line, .. } => line,
        _ => 0,
    }
}

/// No prefix closes more levels than it opens, a section header stands where
/// no level is open, every indent is followed by the line it opens, and the
/// lines of content come in increasing order.
pub open spec fn stream_core(s: Seq<TokM>) -> bool {
    &&& forall|j: int| 0 <= j <= s.len() ==> depth_of(#[trigger] s.take(j)) >= 0
    &&& forall|i: int|
        0 <= i < s.len() && (#[trigger] s[i]) is Section ==> depth_of(s.take(i)) == 0
    &&& forall|i: int|
        0 <= i && i + 1 < s.len() && (#[trigger] s[i]) is Indent ==> s[i + 1] is Chain
    &&& forall|i: int, j: int|
        0 <= i < j < s.len() && (#[trigger] s[i]) is Chain && (#[trigger] s[j]) is Chain
            ==> chain_line(s[i]) < chain_line(s[j])
}

/// A well-formed token stream: its core shape, and it does not end on an
/// indent.
pub open spec fn stream_ok(s: Seq<TokM>) -> bool {
    &&& stream_core(s)
    &&& s.len() > 0 ==> !(s.last() is Indent)
}

proof fn lemma_push_tok(s: Seq<TokM>, t: TokM)
    requires
        stream_core(s),
        s.len() > 0 && s.last() is Indent ==> t is Chain,
        depth_of(s) + tok_delta(t) >= 0,
        t is Section ==> depth_of(s) == 0,
        t is Chain ==> forall|i: int|
            0 <= i < s.len() && (#[trigger] s[i]) is Chain ==> chain_line(s[i]) < chain_line(t),
    ensures
        stream_core(s.push(t)),
        depth_of(s.push(t)) == depth_of(s) + tok_delta(t),
{
    let s2 = s.push(t);
    assert(s2.drop_last() =~= s);
    assert(s.take(s.len() as int) =~= s);
    assert forall|j: int| 0 <= j <= s2.len() implies depth_of(#[trigger] s2.take(j)) >= 0 by {
        if j <= s.len() {
            assert(s2.take(j) =~= s.take(j));
        } else {
            assert(s2.take(j) =~= s2);
        }
    }
    assert forall|i: int| 0 <= i < s2.len() && (#[trigger] s2[i]) is Section implies depth_of(
        s2.take(i),
    ) == 0 by {
        assert(s2.take(i) =~= s.take(i));
        if i < s.len() {
            assert(s2[i] == s[i]);
        }
    }
    assert forall|i: int| 0 <= i && i + 1 < s2.len() && (#[trigger] s2[i]) is Indent implies s2[i
        + 1] is Chain by {
        assert(s2[i] == s[i]);
        if i + 1 < s.len() {
            assert(s2[i + 1] == s[i + 1]);
        }
    }
    assert forall|i: int, j: int|
        0 <= i < j < s2.len() && (#[trigger] s2[i]) is Chain && (#[trigger] s2[j]) is Chain implies chain_line(
        s2[i],
    ) < chain_line(s2[j]) by {
        assert(s2[i] == s[i]);
        if j < s.len() {
            assert(s2[j] == s[j]);
        }
    }
}

proof fn lemma_push_dedents(s: Seq<TokM>, n: nat)
    requires
        stream_core(s),
        depth_of(s) >= n,
        s.len() > 0 ==> !(s.last() is Indent),
    ensures
        stream_core(s + dedents(n)),
        depth_of(s + dedents(n)) == depth_of(s) - n,
        (s + dedents(n)).len() > 0 ==> !((s + dedents(n)).last() is Indent),
        (s + dedents(n)).subrange(0, s.len() as int) == s,
        forall|i: int| s.len() <= i < (s + dedents(n)).len() ==> (s + dedents(n))[i] is Dedent,
    decreases n,
{
    if n == 0 {
        assert(s + dedents(0) =~= s);
    } else {
        let m = (n - 1) as nat;
        lemma_push_dedents(s, m);
        let p = s + dedents(m);
        assert(s + dedents(n) =~= p.push(TokM::Dedent));
        lemma_push_tok(p, TokM::Dedent);
        assert((s + dedents(n)).subrange(0, s.len() as int) =~= s);
    }
}


pub open spec fn lex_inv(st: LexSt, k: nat) -> bool {
    &&& stream_core(st.toks)
    &&& st.toks.len() > 0 ==> !(st.toks.last() is Indent)
    &&& st.indents.len() >= 1
    &&& st.indents[0] == 0
    &&& depth_of(st.toks) == st.indents.len() - 1
    &&& forall|i: int|
        0 <= i < st.toks.len() && (#[trigger] st.toks[i]) is Chain ==> chain_line(st.toks[i]) <= k
}

proof fn lemma_pop_to_shape(indents: Seq<nat>, toks: Seq<TokM>, rel: nat)
    requires
        indents.len() >= 1,
        indents[0] == 0,
        stream_core(toks),
        depth_of(toks) == indents.len() - 1,
        toks.len() > 0 ==> !(toks.last() is Indent),
    ensures
        ({
            let (i2, t2) = pop_to(indents, toks, rel);
            &&& i2.len() >= 1
            &&& i2[0] == 0
            &&& stream_core(t2)
            &&& depth_of(t2) == i2.len() - 1
            &&& t2.len() > 0 ==> !(t2.last() is Indent)
            &&& t2.len() >= toks.len()
            &&& forall|i: int| 0 <= i < toks.len() ==> t2[i] == toks[i]
            &&& forall|i: int| toks.len() <= i < t2.len() ==> t2[i] is Dedent
        }),
    decreases indents.len(),
{
    if indents.len() > 0 && indents.last() > rel {
        assert(indents.len() > 1);
        let i1 = indents.drop_last();
        let t1 = toks.push(TokM::Dedent);
        lemma_push_tok(toks, TokM::Dedent);
        assert(i1[0] == 0);
        lemma_pop_to_shape(i1, t1, rel);
        let (i2, t2) = pop_to(i1, t1, rel);
        assert forall|i: int| 0 <= i < toks.len() implies t2[i] == toks[i] by {
            assert(t1[i] == toks[i]);
        }
        assert forall|i: int| toks.len() <= i < t2.len() implies t2[i] is Dedent by {
            if i == toks.len() {
                assert(t2[i] == t1[i]);
            }
        }
    }
}

proof fn lemma_push_chain(st: LexSt, toks: Seq<TokM>, t: TokM, k: nat)
    requires
        stream_core(toks),
        toks.len() >= st.toks.len(),
        forall|i: int| 0 <= i < st.toks.len() ==> toks[i] == st.toks[i],
        forall|i: int| st.toks.len() <= i < toks.len() ==> !(toks[i] is Chain),
        forall|i: int|
            0 <= i < st.toks.len() && (#[trigger] st.toks[i]) is Chain ==> chain_line(st.toks[i])
                <= k,
        depth_of(toks) >= 0,
        t is Chain,
        chain_line(t) == k + 1,
    ensures
        stream_core(toks.push(t)),
        depth_of(toks.push(t)) == depth_of(toks),
        forall|i: int|
            0 <= i < toks.push(t).len() && (#[trigger] toks.push(t)[i]) is Chain ==> chain_line(
                toks.push(t)[i],
            ) <= k + 1,
{
    assert forall|i: int| 0 <= i < toks.len() && (#[trigger] toks[i]) is Chain implies chain_line(
        toks[i],
    ) < chain_line(t) by {
        if i < st.toks.len() {
            assert(toks[i] == st.toks[i]);
        }
    }
    lemma_push_tok(toks, t);
    assert forall|i: int| 0 <= i < toks.push(t).len() && (#[trigger] toks.push(t)[i]) is Chain implies chain_line(
        toks.push(t)[i],
    ) <= k + 1 by {
        if i < toks.len() {
            assert(toks.push(t)[i] == toks[i]);
        }
    }
}

proof fn lemma_body_inv(st: LexSt, line: Seq<char>, k: nat)
    requires
        lex_inv(st, k),
        body_step(st, line, k + 1) is Ok,
    ensures
        lex_inv(body_step(st, line, k + 1)->Ok_0, k + 1),
{
    if st.raw_mode || blank_or_comment(line) {
    } else {
        let w = ws_width(line);
        let base = if st.need_base {
            w
        } else {
            st.base
        };
        let rel: nat = if w >= base {
            (w - base) as nat
        } else {
            0
        };
        let top = st.indents.last();
        let nodes = content_line_of(trim_start(line), k + 1)->Ok_0;
        let t = TokM::Chain { nodes, line: k + 1 };
        if rel > top {
            let i2 = st.indents.push(rel);
            let t2 = st.toks.push(TokM::Indent);
            lemma_push_tok(st.toks, TokM::Indent);
            assert forall|i: int| 0 <= i < st.toks.len() implies t2[i] == st.toks[i] by {}
            lemma_push_chain(st, t2, t, k);
            let t3 = t2.push(t);
            assert(t3.last() == t);
            assert(i2[0] == 0);
        } else if rel < top {
            lemma_pop_to_shape(st.indents, st.toks, rel);
            let (i2, t2) = pop_to(st.indents, st.toks, rel);
            lemma_push_chain(st, t2, t, k);
            assert(t2.push(t).last() == t);
        } else {
            assert forall|i: int| 0 <= i < st.toks.len() implies st.toks[i] == st.toks[i] by {}
            lemma_push_chain(st, st.toks, t, k);
            assert(st.toks.push(t).last() == t);
        }
    }
}

proof fn lemma_section_inv(st: LexSt, d: SectionDeclM, k: nat)
    requires
        lex_inv(st, k),
    ensures
        lex_inv(section_step(st, d, k + 1), k + 1),
{
    let t1 = if st.raw_mode {
        st.toks.push(TokM::Raw { text: st.raw_buf, line: k + 1 })
    } else {
        st.toks
    };
    if st.raw_mode {
        lemma_push_tok(st.toks, TokM::Raw { text: st.raw_buf, line: k + 1 });
        assert(t1.last() is Raw);
    }
    let n: nat = (st.indents.len() - 1) as nat;
    lemma_push_dedents(t1, n);
    let t2 = t1 + dedents(n);
    let sec = TokM::Section { name: d.name, alias: d.alias, line: k + 1 };
    lemma_push_tok(t2, sec);
    let t3 = t2.push(sec);
    assert forall|i: int| 0 <= i < t3.len() && (#[trigger] t3[i]) is Chain implies chain_line(t3[i])
        <= k + 1 by {
        if i < st.toks.len() {
            assert(t3[i] == t2[i]);
            assert(t2.subrange(0, t1.len() as int)[i] == t1[i]);
            assert(t1[i] == st.toks[i]);
        } else if i < t1.len() {
            assert(t3[i] == t2[i]);
            assert(t2.subrange(0, t1.len() as int)[i] == t1[i]);
        } else if i < t2.len() {
            assert(t3[i] == t2[i]);
        }
    }
    let r = section_step(st, d, k + 1);
    assert(r.toks == t3);
    assert(r.indents =~= seq![0nat]);
}

proof fn lemma_lex_go_stream(lines: Seq<Seq<char>>, k: int, st: LexSt)
    requires
        0 <= k,
        lex_inv(st, k as nat),
        lex_go(lines, k, st) is Ok,
    ensures
        stream_ok(lex_go(lines, k, st)->Ok_0),
    decreases lines.len() - k,
{
    if k >= lines.len() {
        if st.raw_mode {
            lemma_push_tok(st.toks, TokM::Raw { text: st.raw_buf, line: 0 });
        }
    } else {
        let line = strip_cr(lines[k]);
        let ln = (k + 1) as nat;
        if line.len() > 0 && line[0] == '#' && ws_width(line) == 0 {
            match section_decl_of(line, ln) {
                Err(_) => {},
                Ok(Some(d)) => {
                    lemma_section_inv(st, d, k as nat);
                    lemma_lex_go_stream(lines, k + 1, section_step(st, d, ln));
                },
                Ok(None) => {
                    lemma_body_inv(st, line, k as nat);
                    lemma_lex_go_stream(lines, k + 1, body_step(st, line, ln)->Ok_0);
                },
            }
        } else {
            lemma_body_inv(st, line, k as nat);
            lemma_lex_go_stream(lines, k + 1, body_step(st, line, ln)->Ok_0);
        }
    }
}

/// The tokens of a template are well formed: no prefix closes more
/// indentation levels than it opened, every section header stands where no
/// level is open (it closes them all), every indent is followed by the line
/// of content it opens, and lines of content come in increasing order.
pub proof fn lemma_lex_stream(src: Seq<char>)
    requires
        lex_of(src) is Ok,
    ensures
        stream_ok(lex_of(src)->Ok_0),
{
    let st = lex_init();
    assert(st.toks.take(0) =~= Seq::<TokM>::empty());
    assert(stream_core(st.toks));
    lemma_lex_go_stream(lines_of(src), 0, st);
}


/// The pieces one after another.
pub open spec fn join_all(s: Seq<Seq<char>>) -> Seq<char>
    decreases s.len(),
{
    if s.len() == 0 {
        Seq::empty()
    } else {
        join_all(s.drop_last()) + s.last()
    }
}

/// The characters from the `i`-th on that are not separators: whitespace
/// outside quotes and at brace depth zero is dropped, the rest is kept.
pub open spec fn kept_go(s: Seq<char>, i: int, quote: Option<char>, braces: nat) -> Seq<char>
    decreases s.len() - i,
{
    if i >= s.len() || i < 0 {
        Seq::empty()
    } else {
        let c = s[i];
        match quote {
            Some(q) => seq![c] + kept_go(
                s,
                i + 1,
                if c == q {
                    None
                } else {
                    quote
                },
                braces,
            ),
            None => if c == '"' || c == '\'' {
                seq![c] + kept_go(s, i + 1, Some(c), braces)
            } else if is_ws(c) && braces == 0 && c != '{' && c != '}' {
                kept_go(s, i + 1, None, braces)
            } else {
                seq![c] + kept_go(s, i + 1, None, next_braces(c, braces))
            },
        }
    }
}

proof fn lemma_join_all_push(s: Seq<Seq<char>>, x: Seq<char>)
    ensures
        join_all(s.push(x)) == join_all(s) + x,
{
    assert(s.push(x).drop_last() =~= s);
}

proof fn lemma_tok_go_join(
    s: Seq<char>,
    i: int,
    toks: Seq<Seq<char>>,
    cur: Seq<char>,
    quote: Option<char>,
    braces: nat,
)
    requires
        0 <= i <= s.len(),
    ensures
        join_all(tok_go(s, i, toks, cur, quote, braces)) == join_all(toks) + cur + kept_go(
            s,
            i,
            quote,
            braces,
        ),
    decreases s.len() - i,
{
    if i >= s.len() {
        if cur.len() > 0 {
            lemma_join_all_push(toks, cur);
        }
        assert(join_all(toks) + cur + Seq::<char>::empty() =~= join_all(toks) + cur);
        assert(cur.len() == 0 ==> join_all(toks) + cur =~= join_all(toks));
    } else {
        let c = s[i];
        match quote {
            Some(q) => {
                let q2 = if c == q {
                    None
                } else {
                    quote
                };
                lemma_tok_go_join(s, i + 1, toks, cur.push(c), q2, braces);
                assert(join_all(toks) + cur.push(c) + kept_go(s, i + 1, q2, braces) =~= join_all(
                    toks,
                ) + cur + (seq![c] + kept_go(s, i + 1, q2, braces)));
            },
            None => if c == '"' || c == '\'' {
                lemma_tok_go_join(s, i + 1, toks, cur.push(c), Some(c), braces);
                assert(join_all(toks) + cur.push(c) + kept_go(s, i + 1, Some(c), braces)
                    =~= join_all(toks) + cur + (seq![c] + kept_go(s, i + 1, Some(c), braces)));
            } else if is_ws(c) && braces == 0 && c != '{' && c != '}' {
                let t2 = if cur.len() > 0 {
                    toks.push(cur)
                } else {
                    toks
                };
                lemma_tok_go_join(s, i + 1, t2, Seq::empty(), None, braces);
                if cur.len() > 0 {
                    lemma_join_all_push(toks, cur);
                }
                assert(join_all(t2) + Seq::<char>::empty() + kept_go(s, i + 1, None, braces)
                    =~= join_all(toks) + cur + kept_go(s, i + 1, None, braces));
            } else {
                let b2 = next_braces(c, braces);
                lemma_tok_go_join(s, i + 1, toks, cur.push(c), None, b2);
                assert(join_all(toks) + cur.push(c) + kept_go(s, i + 1, None, b2) =~= join_all(
                    toks,
                ) + cur + (seq![c] + kept_go(s, i + 1, None, b2)));
            },
        }
    }
}

/// Put back together, the tokens of a line are the line without its
/// separators: whitespace outside quotes and braces.
pub proof fn lemma_tokens_join(s: Seq<char>)
    ensures
        join_all(tokens_of(s)) == kept_go(s, 0, None, 0),
{
    lemma_tok_go_join(s, 0, Seq::empty(), Seq::empty(), None, 0);
    assert(join_all(Seq::<Seq<char>>::empty()) + Seq::<char>::empty() + kept_go(s, 0, None, 0)
        =~= kept_go(s, 0, None, 0));
}


/// The quote and brace depth after reading one more character.
pub open spec fn scan_step(state: (Option<char>, nat), c: char) -> (Option<char>, nat) {
    match state.0 {
        Some(q) => (if c == q { None } else { Some(q) }, state.1),
        None => if c == '"' || c == '\'' {
            (Some(c), state.1)
        } else {
            (None, next_braces(c, state.1))
        },
    }
}

/// The open quote and brace depth in front of the `i`-th character.
pub open spec fn scan_at(s: Seq<char>, i: int) -> (Option<char>, nat)
    decreases i,
{
    if i <= 0 {
        (None, 0)
    } else {
        scan_step(scan_at(s, i - 1), s[i - 1])
    }
}

/// The `i`-th character separates tokens: whitespace outside any quote and
/// at brace depth zero.
pub open spec fn separates(s: Seq<char>, i: int) -> bool {
    &&& scan_at(s, i).0 is None
    &&& scan_at(s, i).1 == 0
    &&& is_ws(s[i])
    &&& s[i] != '{'
    &&& s[i] != '}'
}

/// The maximal runs of characters between separators, from the `i`-th on;
/// `cur` is the run read so far.
pub open spec fn runs_go(s: Seq<char>, i: int, runs: Seq<Seq<char>>, cur: Seq<char>) -> Seq<Seq<char>>
    decreases s.len() - i,
{
    if i < 0 || i >= s.len() {
        if cur.len() > 0 {
            runs.push(cur)
        } else {
            runs
        }
    } else if separates(s, i) {
        runs_go(s, i + 1, if cur.len() > 0 { runs.push(cur) } else { runs }, Seq::empty())
    } else {
        runs_go(s, i + 1, runs, cur.push(s[i]))
    }
}

proof fn lemma_tok_go_runs(s: Seq<char>, i: int, toks: Seq<Seq<char>>, cur: Seq<char>)
    requires
        0 <= i <= s.len(),
    ensures
        tok_go(s, i, toks, cur, scan_at(s, i).0, scan_at(s, i).1) == runs_go(s, i, toks, cur),
    decreases s.len() - i,
{
    if i < s.len() {
        let c = s[i];
        let st = scan_at(s, i);
        assert(scan_at(s, i + 1) == scan_step(st, c));
        if separates(s, i) {
            lemma_tok_go_runs(s, i + 1, if cur.len() > 0 { toks.push(cur) } else { toks }, Seq::empty());
            assert(next_braces(c, 0) == 0);
        } else {
            lemma_tok_go_runs(s, i + 1, toks, cur.push(c));
        }
    }
}

/// The tokens of a line are exactly its maximal runs between separators, in
/// order.
pub proof fn lemma_tokens_are_runs(s: Seq<char>)
    ensures
        tokens_of(s) == runs_go(s, 0, Seq::empty(), Seq::empty()),
{
    lemma_tok_go_runs(s, 0, Seq::empty(), Seq::empty());
}

} // verus!

verus! {

/// Outside a raw asset section, a blank line, or a line whose first
/// non-blank character is `%` (a comment), changes nothing: it adds no token.
pub proof fn lemma_comment_line(st: LexSt, line: Seq<char>, line_no: nat)
    requires
        !st.raw_mode,
        trim_start(line).len() == 0 || trim_start(line)[0] == '%',
    ensures
        line_step(st, line, line_no) == Ok::<LexSt, LexErrorM>(st),
        body_step(st, line, line_no) == Ok::<LexSt, LexErrorM>(st),
{
    if line.len() > 0 && line[0] == '#' {
        assert(!is_ws('#'));
        assert(trim_start(line) == line);
    }
}

} // verus!
