//! A reader for the subset of KDL that data files use.
//!
//! Nodes have a name, arguments, `key=value` properties and `{ ... }`
//! children; a node ends at the end of its line. A node becomes a record:
//! its properties, its arguments under `_args`, and its children grouped by
//! name (a lone child is kept as is, several become a list).
use vstd::prelude::*;
use crate::data::{copy_value, value_view, entries_view, lemma_entries_view, lemma_values_view, values_view, Value, ValueM};
use crate::kv::{kv_find, kv_get, kv_insert, kv_put, kv_view};
use crate::number::{parse_number, parse_number_exec, Number, NumberM};
use crate::text::{chars_of, opt_chars, is_alnum, is_ascii_alnum, is_digit, is_whitespace, is_ws, nat_text, push_all, push_str, same, slice_of, string_of, usize_text};

verus! {

/// A KDL token.
pub enum KTok {
    Ident(String),
    Str(String),
    Num(Number),
    LBrace,
    RBrace,
    Eq,
}

pub enum KTokM {
    Ident(Seq<char>),
    Str(Seq<char>),
    Num(NumberM),
    LBrace,
    RBrace,
    Eq,
}

impl View for KTok {
    type V = KTokM;

    open spec fn view(&self) -> KTokM {
        match self {
            KTok::Ident(s) => KTokM::Ident(s@),
            KTok::Str(s) => KTokM::Str(s@),
            KTok::Num(n) => KTokM::Num(n@),
            KTok::LBrace => KTokM::LBrace,
            KTok::RBrace => KTokM::RBrace,
            KTok::Eq => KTokM::Eq,
        }
    }
}

pub open spec fn ktoks_view(s: Seq<(KTok, usize)>) -> Seq<(KTokM, nat)> {
    s.map_values(|t: (KTok, usize)| (t.0@, t.1 as nat))
}

// ---------------------------------------------------------------------------
// lexing
/// End of a `//` comment: the next newline, or the end.
pub open spec fn line_end(s: Seq<char>, k: int) -> int
    decreases s.len() - k,
{
    if k >= s.len() || k < 0 || s[k] == '\n' {
        k
    } else {
        line_end(s, k + 1)
    }
}

/// End of a nesting `/* */` comment, and the line count after it.
pub open spec fn block_end(s: Seq<char>, k: int, depth: nat, line: nat) -> (int, nat)
    decreases s.len() - k,
{
    if k >= s.len() || k < 0 {
        (k, line)
    } else if s[k] == '/' && k + 1 < s.len() && s[k + 1] == '*' {
        block_end(s, k + 2, depth + 1, line)
    } else if s[k] == '*' && k + 1 < s.len() && s[k + 1] == '/' {
        if depth <= 1 {
            (k + 2, line)
        } else {
            block_end(s, k + 2, (depth - 1) as nat, line)
        }
    } else {
        block_end(
            s,
            k + 1,
            depth,
            if s[k] == '\n' {
                line + 1
            } else {
                line
            },
        )
    }
}

pub open spec fn unescape(c: char) -> char {
    if c == 'n' {
        '\n'
    } else if c == 't' {
        '\t'
    } else if c == 'r' {
        '\r'
    } else {
        c
    }
}

/// End of a string literal (past its closing quote) and its text.
pub open spec fn string_end(s: Seq<char>, k: int, acc: Seq<char>) -> (int, Seq<char>)
    decreases s.len() - k,
{
    if k >= s.len() || k < 0 {
        (k, acc)
    } else if s[k] == '"' {
        (k + 1, acc)
    } else if s[k] == '\\' && k + 1 < s.len() {
        string_end(s, k + 2, acc.push(unescape(s[k + 1])))
    } else {
        string_end(s, k + 1, acc.push(s[k]))
    }
}

pub open spec fn is_num_char(c: char) -> bool {
    is_digit(c) || c == '.' || c == '-' || c == '+' || c == 'e' || c == 'E'
}

pub open spec fn is_ident_char(c: char) -> bool {
    is_alnum(c) || c == '_' || c == '-' || c == '.' || c == '#'
}

pub open spec fn num_end(s: Seq<char>, k: int) -> int
    decreases s.len() - k,
{
    if k >= s.len() || k < 0 || !is_num_char(s[k]) {
        k
    } else {
        num_end(s, k + 1)
    }
}

pub open spec fn ident_end(s: Seq<char>, k: int) -> int
    decreases s.len() - k,
{
    if k >= s.len() || k < 0 || !is_ident_char(s[k]) {
        k
    } else {
        ident_end(s, k + 1)
    }
}

pub proof fn lemma_line_end(s: Seq<char>, k: int)
    requires
        0 <= k <= s.len(),
    ensures
        k <= line_end(s, k) <= s.len(),
    decreases s.len() - k,
{
    if k < s.len() && s[k] != '\n' {
        lemma_line_end(s, k + 1);
    }
}

pub proof fn lemma_block_end(s: Seq<char>, k: int, depth: nat, line: nat)
    requires
        0 <= k <= s.len(),
    ensures
        k <= block_end(s, k, depth, line).0 <= s.len(),
        block_end(s, k, depth, line).1 <= line + (block_end(s, k, depth, line).0 - k),
    decreases s.len() - k,
{
    if k < s.len() {
        if s[k] == '/' && k + 1 < s.len() && s[k + 1] == '*' {
            lemma_block_end(s, k + 2, depth + 1, line);
        } else if s[k] == '*' && k + 1 < s.len() && s[k + 1] == '/' {
            if depth > 1 {
                lemma_block_end(s, k + 2, (depth - 1) as nat, line);
            }
        } else {
            lemma_block_end(
                s,
                k + 1,
                depth,
                if s[k] == '\n' {
                    line + 1
                } else {
                    line
                },
            );
        }
    }
}

pub proof fn lemma_string_end(s: Seq<char>, k: int, acc: Seq<char>)
    requires
        0 <= k <= s.len(),
    ensures
        k <= string_end(s, k, acc).0 <= s.len(),
    decreases s.len() - k,
{
    if k < s.len() && s[k] != '"' {
        if s[k] == '\\' && k + 1 < s.len() {
            lemma_string_end(s, k + 2, acc.push(unescape(s[k + 1])));
        } else {
            lemma_string_end(s, k + 1, acc.push(s[k]));
        }
    }
}

pub proof fn lemma_num_end(s: Seq<char>, k: int)
    requires
        0 <= k <= s.len(),
    ensures
        k <= num_end(s, k) <= s.len(),
    decreases s.len() - k,
{
    if k < s.len() && is_num_char(s[k]) {
        lemma_num_end(s, k + 1);
    }
}

pub proof fn lemma_ident_end(s: Seq<char>, k: int)
    requires
        0 <= k <= s.len(),
    ensures
        k <= ident_end(s, k) <= s.len(),
    decreases s.len() - k,
{
    if k < s.len() && is_ident_char(s[k]) {
        lemma_ident_end(s, k + 1);
    }
}

/// The tokens of a KDL source, each with its 1-based line.
pub open spec fn klex_go(s: Seq<char>, i: int, toks: Seq<(KTokM, nat)>, line: nat) -> Result<
    Seq<(KTokM, nat)>,
    Seq<char>,
>
    decreases s.len() - i,
{
    if i >= s.len() || i < 0 {
        Ok(toks)
    } else {
        let c = s[i];
        if is_ws(c) {
            klex_go(
                s,
                i + 1,
                toks,
                if c == '\n' {
                    line + 1
                } else {
                    line
                },
            )
        } else if c == '/' && i + 1 < s.len() && s[i + 1] == '/' {
            proof {
                lemma_line_end(s, i + 2);
            }
            klex_go(s, line_end(s, i + 2), toks, line)
        } else if c == '/' && i + 1 < s.len() && s[i + 1] == '*' {
            proof {
                lemma_block_end(s, i + 2, 1, line);
            }
            let (j, l2) = block_end(s, i + 2, 1, line);
            klex_go(s, j, toks, l2)
        } else if c == '"' {
            proof {
                lemma_string_end(s, i + 1, Seq::empty());
            }
            let (j, text) = string_end(s, i + 1, Seq::empty());
            klex_go(s, j, toks.push((KTokM::Str(text), line)), line)
        } else if c == '{' {
            klex_go(s, i + 1, toks.push((KTokM::LBrace, line)), line)
        } else if c == '}' {
            klex_go(s, i + 1, toks.push((KTokM::RBrace, line)), line)
        } else if c == '=' {
            klex_go(s, i + 1, toks.push((KTokM::Eq, line)), line)
        } else if c == '-' || c == '+' || is_digit(c) {
            proof {
                lemma_num_end(s, i + 1);
            }
            let j = num_end(s, i + 1);
            let num = s.subrange(i, j);
            match parse_number(num) {
                Some(n) => klex_go(s, j, toks.push((KTokM::Num(n), line)), line),
                None => Err("invalid number literal `"@ + num + "`"@),
            }
        } else if is_ident_char(c) {
            proof {
                lemma_ident_end(s, i + 1);
            }
            let j = ident_end(s, i + 1);
            klex_go(s, j, toks.push((KTokM::Ident(s.subrange(i, j)), line)), line)
        } else {
            Err("unexpected character `"@ + seq![c] + "` in KDL"@)
        }
    }
}

pub open spec fn klex_of(s: Seq<char>) -> Result<Seq<(KTokM, nat)>, Seq<char>> {
    klex_go(s, 0, Seq::empty(), 1)
}

fn line_end_exec(s: &[char], k: usize) -> (j: usize)
    requires
        k <= s@.len(),
    ensures
        j == line_end(s@, k as int),
{
    let mut j = k;
    while j < s.len() && s[j] != '\n'
        invariant
            k <= j <= s@.len(),
            line_end(s@, j as int) == line_end(s@, k as int),
        decreases s@.len() - j,
    {
        j = j + 1;
    }
    j
}

fn block_end_exec(s: &[char], k: usize, line: usize) -> (r: (usize, usize))
    requires
        k <= s@.len(),
        line + s@.len() < usize::MAX,
    ensures
        (r.0 as int, r.1 as nat) == block_end(s@, k as int, 1, line as nat),
{
    let mut j = k;
    let mut depth: usize = 1;
    let mut l = line;
    let ghost target = block_end(s@, k as int, 1, line as nat);
    while j < s.len()
        invariant
            k <= j <= s@.len(),
            l <= line + (j - k),
            line + s@.len() < usize::MAX,
            depth <= j + 1,
            depth >= 1,
            block_end(s@, j as int, depth as nat, l as nat) == target,
            target == block_end(s@, k as int, 1, line as nat),
        decreases s@.len() - j,
    {
        if s[j] == '/' && j + 1 < s.len() && s[j + 1] == '*' {
            depth = depth + 1;
            j = j + 2;
        } else if s[j] == '*' && j + 1 < s.len() && s[j + 1] == '/' {
            if depth <= 1 {
                return (j + 2, l);
            }
            depth = depth - 1;
            j = j + 2;
        } else {
            if s[j] == '\n' {
                l = l + 1;
            }
            j = j + 1;
        }
    }
    (j, l)
}

fn string_end_exec(s: &[char], k: usize) -> (r: (usize, Vec<char>))
    requires
        k <= s@.len(),
    ensures
        (r.0 as int, r.1@) == string_end(s@, k as int, Seq::empty()),
{
    let mut j = k;
    let mut acc: Vec<char> = Vec::new();
    while j < s.len()
        invariant
            k <= j <= s@.len(),
            string_end(s@, j as int, acc@) == string_end(s@, k as int, Seq::empty()),
        decreases s@.len() - j,
    {
        let c = s[j];
        if c == '"' {
            return (j + 1, acc);
        }
        if c == '\\' && j + 1 < s.len() {
            let e = s[j + 1];
            let u = if e == 'n' {
                '\n'
            } else if e == 't' {
                '\t'
            } else if e == 'r' {
                '\r'
            } else {
                e
            };
            acc.push(u);
            j = j + 2;
        } else {
            acc.push(c);
            j = j + 1;
        }
    }
    (j, acc)
}

fn is_num_char_exec(c: char) -> (b: bool)
    ensures
        b == is_num_char(c),
{
    ('0' <= c && c <= '9') || c == '.' || c == '-' || c == '+' || c == 'e' || c == 'E'
}

fn is_ident_char_exec(c: char) -> (b: bool)
    ensures
        b == is_ident_char(c),
{
    is_ascii_alnum(c) || c == '_' || c == '-' || c == '.' || c == '#'
}

fn num_end_exec(s: &[char], k: usize) -> (j: usize)
    requires
        k <= s@.len(),
    ensures
        j == num_end(s@, k as int),
{
    let mut j = k;
    while j < s.len() && is_num_char_exec(s[j])
        invariant
            k <= j <= s@.len(),
            num_end(s@, j as int) == num_end(s@, k as int),
        decreases s@.len() - j,
    {
        j = j + 1;
    }
    j
}

fn ident_end_exec(s: &[char], k: usize) -> (j: usize)
    requires
        k <= s@.len(),
    ensures
        j == ident_end(s@, k as int),
{
    let mut j = k;
    while j < s.len() && is_ident_char_exec(s[j])
        invariant
            k <= j <= s@.len(),
            ident_end(s@, j as int) == ident_end(s@, k as int),
        decreases s@.len() - j,
    {
        j = j + 1;
    }
    j
}

proof fn lemma_ktoks_push(s: Seq<(KTok, usize)>, t: (KTok, usize))
    ensures
        ktoks_view(s.push(t)) == ktoks_view(s).push((t.0@, t.1 as nat)),
{
    assert(ktoks_view(s.push(t)) =~= ktoks_view(s).push((t.0@, t.1 as nat)));
}

fn push_ktok(toks: &mut Vec<(KTok, usize)>, t: KTok, line: usize)
    ensures
        ktoks_view(final(toks)@) == ktoks_view(old(toks)@).push((t@, line as nat)),
{
    proof {
        lemma_ktoks_push(toks@, (t, line));
    }
    toks.push((t, line));
}

/// Lexes a KDL source.
pub fn klex(s: &[char]) -> (r: Result<Vec<(KTok, usize)>, String>)
    requires
        2 * s@.len() + 2 < usize::MAX,
    ensures
        match r {
            Ok(v) => klex_of(s@) == Ok::<Seq<(KTokM, nat)>, Seq<char>>(ktoks_view(v@)),
            Err(e) => klex_of(s@) == Err::<Seq<(KTokM, nat)>, Seq<char>>(e@),
        },
{
    let mut toks: Vec<(KTok, usize)> = Vec::new();
    let mut line: usize = 1;
    let mut i: usize = 0;
    assert(ktoks_view(toks@) =~= Seq::<(KTokM, nat)>::empty());
    while i < s.len()
        invariant
            i <= s@.len(),
            2 * s@.len() + 2 < usize::MAX,
            line <= i + 1,
            klex_go(s@, i as int, ktoks_view(toks@), line as nat) == klex_of(s@),
        decreases s@.len() - i,
    {
        let c = s[i];
        if is_whitespace(c) {
            if c == '\n' {
                line = line + 1;
            }
            i = i + 1;
        } else if c == '/' && i + 1 < s.len() && s[i + 1] == '/' {
            proof {
                lemma_line_end(s@, i + 2);
            }
            i = line_end_exec(s, i + 2);
        } else if c == '/' && i + 1 < s.len() && s[i + 1] == '*' {
            proof {
                lemma_block_end(s@, i + 2, 1, line as nat);
            }
            let (j, l2) = block_end_exec(s, i + 2, line);
            i = j;
            line = l2;
        } else if c == '"' {
            proof {
                lemma_string_end(s@, i + 1, Seq::empty());
            }
            let (j, text) = string_end_exec(s, i + 1);
            push_ktok(&mut toks, KTok::Str(string_of(&text)), line);
            i = j;
        } else if c == '{' {
            push_ktok(&mut toks, KTok::LBrace, line);
            i = i + 1;
        } else if c == '}' {
            push_ktok(&mut toks, KTok::RBrace, line);
            i = i + 1;
        } else if c == '=' {
            push_ktok(&mut toks, KTok::Eq, line);
            i = i + 1;
        } else if c == '-' || c == '+' || is_ascii_alnum(c) && '0' <= c && c <= '9' {
            proof {
                lemma_num_end(s@, i + 1);
            }
            let j = num_end_exec(s, i + 1);
            let num = slice_of(s, i, j);
            match parse_number_exec(&num) {
                Some(n) => {
                    push_ktok(&mut toks, KTok::Num(n), line);
                    i = j;
                },
                None => {
                    let mut m = chars_of("invalid number literal `");
                    push_all(&mut m, &num);
                    push_str(&mut m, "`");
                    return Err(string_of(&m));
                },
            }
        } else if is_ident_char_exec(c) {
            proof {
                lemma_ident_end(s@, i + 1);
            }
            let j = ident_end_exec(s, i + 1);
            let id = slice_of(s, i, j);
            push_ktok(&mut toks, KTok::Ident(string_of(&id)), line);
            i = j;
        } else {
            let mut m = chars_of("unexpected character `");
            m.push(c);
            push_str(&mut m, "` in KDL");
            assert(m@ =~= "unexpected character `"@ + seq![c] + "` in KDL"@);
            return Err(string_of(&m));
        }
    }
    Ok(toks)
}

} // verus!

verus! {

// ---------------------------------------------------------------------------
// nodes
/// A KDL node.
pub struct KNode {
    pub name: Option<String>,
    pub args: Vec<Value>,
    pub props: Vec<(String, Value)>,
    pub children: Vec<KNode>,
}

pub struct KNodeM {
    pub name: Option<Seq<char>>,
    pub args: Seq<ValueM>,
    pub props: Seq<(Seq<char>, ValueM)>,
    pub children: Seq<KNodeM>,
}

pub open spec fn knode_view(n: KNode) -> KNodeM
    decreases n,
{
    KNodeM {
        name: match n.name {
            Some(s) => Some(s@),
            None => None,
        },
        args: values_view(n.args@),
        props: entries_view(n.props@),
        children: knodes_view(n.children@),
    }
}

pub open spec fn knodes_view(s: Seq<KNode>) -> Seq<KNodeM>
    decreases s,
{
    if s.len() == 0 {
        Seq::empty()
    } else {
        knodes_view(s.drop_last()).push(knode_view(s.last()))
    }
}

impl View for KNode {
    type V = KNodeM;

    open spec fn view(&self) -> KNodeM {
        knode_view(*self)
    }
}

proof fn lemma_knodes_view(s: Seq<KNode>)
    ensures
        knodes_view(s).len() == s.len(),
        forall|i: int|
            #![trigger knodes_view(s)[i]]
            #![trigger s[i]]
            0 <= i < s.len() ==> knodes_view(s)[i] == knode_view(s[i]),
    decreases s.len(),
{
    if s.len() > 0 {
        lemma_knodes_view(s.drop_last());
        assert forall|i: int| 0 <= i < s.len() implies knodes_view(s)[i] == knode_view(s[i]) by {
            if i < s.len() - 1 {
                assert(s.drop_last()[i] == s[i]);
            }
        }
    }
}

/// A literal token as a value.
pub open spec fn literal_of(t: KTokM) -> Result<ValueM, Seq<char>> {
    match t {
        KTokM::Str(s) => Ok(ValueM::Str(s)),
        KTokM::Num(n) => Ok(ValueM::Num(n)),
        KTokM::Ident(s) => Ok(
            if s == "#true"@ || s == "true"@ {
                ValueM::Bool(true)
            } else if s == "#false"@ || s == "false"@ {
                ValueM::Bool(false)
            } else if s == "#null"@ || s == "null"@ {
                ValueM::Null
            } else {
                ValueM::Str(s)
            },
        ),
        _ => Err("expected a literal value"@),
    }
}

pub open spec fn stall_msg() -> Seq<char> {
    "unexpected end of KDL input after `=`"@
}

pub open spec fn leaf(
    name: Option<Seq<char>>,
    args: Seq<ValueM>,
    props: Seq<(Seq<char>, ValueM)>,
) -> KNodeM {
    KNodeM { name, args, props, children: Seq::empty() }
}

/// Nodes from position `p` up to a closing brace or the end.
pub open spec fn list_go(toks: Seq<(KTokM, nat)>, p: int, nodes: Seq<KNodeM>) -> Result<
    (Seq<KNodeM>, int),
    Seq<char>,
>
    decreases toks.len() - p, 2int,
{
    if p >= toks.len() || p < 0 {
        Ok((nodes, p))
    } else if toks[p].0 is RBrace {
        Ok((nodes, p))
    } else {
        match single_of(toks, p) {
            Err(e) => Err(e),
            Ok((node, next)) => if p < next <= toks.len() {
                list_go(toks, next, nodes.push(node))
            } else {
                Err(stall_msg())
            },
        }
    }
}

/// The node that starts at `pos`: an optional name, then its entries.
pub open spec fn single_of(toks: Seq<(KTokM, nat)>, pos: int) -> Result<(KNodeM, int), Seq<char>>
    decreases toks.len() - pos, 1int,
{
    if pos >= toks.len() || pos < 0 {
        Ok((leaf(None, Seq::empty(), Seq::empty()), pos))
    } else {
        let has_name = toks[pos].0 is Ident && !(pos + 1 < toks.len() && toks[pos + 1].0 is Eq);
        if has_name {
            node_go(toks, pos + 1, Some(toks[pos].0->Ident_0), Seq::empty(), Seq::empty(), None)
        } else {
            node_go(toks, pos, None, Seq::empty(), Seq::empty(), None)
        }
    }
}

/// The entries of a node: arguments and properties on its line, then children.
pub open spec fn node_go(
    toks: Seq<(KTokM, nat)>,
    p: int,
    name: Option<Seq<char>>,
    args: Seq<ValueM>,
    props: Seq<(Seq<char>, ValueM)>,
    last: Option<nat>,
) -> Result<(KNodeM, int), Seq<char>>
    decreases toks.len() - p, 0int,
{
    if p >= toks.len() || p < 0 {
        Ok((leaf(name, args, props), p))
    } else {
        let tok = toks[p].0;
        let cl = toks[p].1;
        if last matches Some(ll) && cl != ll {
            Ok((leaf(name, args, props), p))
        } else if tok is LBrace {
            match list_go(toks, p + 1, Seq::empty()) {
                Err(e) => Err(e),
                Ok((children, np)) => if np >= toks.len() || np < 0 || !(toks[np].0 is RBrace) {
                    Err("unclosed `{{` in KDL node"@)
                } else {
                    Ok((KNodeM { name, args, props, children }, np + 1))
                },
            }
        } else if tok is Ident && p + 1 < toks.len() && toks[p + 1].0 is Eq {
            if p + 2 < toks.len() {
                match literal_of(toks[p + 2].0) {
                    Ok(v) => node_go(
                        toks,
                        p + 3,
                        name,
                        args,
                        props.push((tok->Ident_0, v)),
                        Some(cl),
                    ),
                    Err(e) => Err(e),
                }
            } else {
                Ok((leaf(name, args, props), p))
            }
        } else {
            match literal_of(tok) {
                Ok(v) => node_go(toks, p + 1, name, args.push(v), props, Some(cl)),
                Err(e) => Err(e),
            }
        }
    }
}

fn literal(t: &KTok) -> (r: Result<Value, String>)
    ensures
        match r {
            Ok(v) => literal_of(t@) == Ok::<ValueM, Seq<char>>(v@),
            Err(e) => literal_of(t@) == Err::<ValueM, Seq<char>>(e@),
        },
{
    match t {
        KTok::Str(s) => Ok(Value::Str(s.clone())),
        KTok::Num(n) => Ok(Value::Num(n.clone())),
        KTok::Ident(s) => {
            let c = chars_of(s.as_str());
            if same(&c, &chars_of("#true")) || same(&c, &chars_of("true")) {
                Ok(Value::Bool(true))
            } else if same(&c, &chars_of("#false")) || same(&c, &chars_of("false")) {
                Ok(Value::Bool(false))
            } else if same(&c, &chars_of("#null")) || same(&c, &chars_of("null")) {
                Ok(Value::Null)
            } else {
                Ok(Value::Str(s.clone()))
            }
        },
        _ => Err(string_of(&chars_of("expected a literal value"))),
    }
}

proof fn lemma_knodes_push(s: Seq<KNode>, x: KNode)
    ensures
        knodes_view(s.push(x)) == knodes_view(s).push(knode_view(x)),
{
    assert(s.push(x).drop_last() =~= s);
}

proof fn lemma_values_push(s: Seq<Value>, x: Value)
    ensures
        values_view(s.push(x)) == values_view(s).push(x@),
{
    assert(s.push(x).drop_last() =~= s);
}

proof fn lemma_entries_push(s: Seq<(String, Value)>, x: (String, Value))
    ensures
        entries_view(s.push(x)) == entries_view(s).push((x.0@, x.1@)),
{
    assert(s.push(x).drop_last() =~= s);
}

fn is_rbrace(toks: &Vec<(KTok, usize)>, p: usize) -> (b: bool)
    requires
        p < toks@.len(),
    ensures
        b == (ktoks_view(toks@)[p as int].0 is RBrace),
{
    match &toks[p].0 {
        KTok::RBrace => true,
        _ => false,
    }
}

fn is_eq(toks: &Vec<(KTok, usize)>, p: usize) -> (b: bool)
    requires
        p < toks@.len(),
    ensures
        b == (ktoks_view(toks@)[p as int].0 is Eq),
{
    match &toks[p].0 {
        KTok::Eq => true,
        _ => false,
    }
}

#[verifier::loop_isolation(false)]
fn parse_node_list(toks: &Vec<(KTok, usize)>, pos: usize) -> (r: Result<(Vec<KNode>, usize), String>)
    requires
        pos <= toks@.len(),
    ensures
        match r {
            Ok((v, q)) => list_go(ktoks_view(toks@), pos as int, Seq::empty()) == Ok::<
                (Seq<KNodeM>, int),
                Seq<char>,
            >((knodes_view(v@), q as int)),
            Err(e) => list_go(ktoks_view(toks@), pos as int, Seq::empty()) == Err::<
                (Seq<KNodeM>, int),
                Seq<char>,
            >(e@),
        },
    decreases toks@.len() - pos, 2int,
{
    let ghost tv = ktoks_view(toks@);
    let mut nodes: Vec<KNode> = Vec::new();
    let mut p = pos;
    while p < toks.len()
        invariant
            pos <= p <= toks@.len(),
            tv == ktoks_view(toks@),
            list_go(tv, p as int, knodes_view(nodes@)) == list_go(tv, pos as int, Seq::empty()),
        decreases toks@.len() - p,
    {
        if is_rbrace(toks, p) {
            return Ok((nodes, p));
        }
        match parse_single_node(toks, p) {
            Err(e) => {
                return Err(e);
            },
            Ok((node, next)) => {
                if !(p < next && next <= toks.len()) {
                    return Err(string_of(&chars_of("unexpected end of KDL input after `=`")));
                }
                proof {
                    lemma_knodes_push(nodes@, node);
                }
                nodes.push(node);
                p = next;
            },
        }
    }
    Ok((nodes, p))
}

#[verifier::loop_isolation(false)]
fn parse_single_node(toks: &Vec<(KTok, usize)>, pos: usize) -> (r: Result<(KNode, usize), String>)
    requires
        pos < toks@.len(),
    ensures
        match r {
            Ok((n, q)) => single_of(ktoks_view(toks@), pos as int) == Ok::<
                (KNodeM, int),
                Seq<char>,
            >((n@, q as int)),
            Err(e) => single_of(ktoks_view(toks@), pos as int) == Err::<(KNodeM, int), Seq<char>>(
                e@,
            ),
        },
    decreases toks@.len() - pos, 1int,
{
    let ghost tv = ktoks_view(toks@);
    let mut p = pos;
    let mut name: Option<String> = None;
    let n_toks = toks.len();
    let next_is_eq = pos < n_toks - 1 && is_eq(toks, pos + 1);
    match &toks[pos].0 {
        KTok::Ident(s) => {
            if !next_is_eq {
                name = Some(s.clone());
                p = pos + 1;
            }
        },
        _ => {},
    }
    let mut args: Vec<Value> = Vec::new();
    let mut props: Vec<(String, Value)> = Vec::new();
    let mut last: Option<usize> = None;
    let ghost nm = opt_chars(name);
    assert(single_of(tv, pos as int) == node_go(tv, p as int, nm, Seq::empty(), Seq::empty(), None));
    assert(values_view(args@) =~= Seq::<ValueM>::empty());
    assert(entries_view(props@) =~= Seq::<(Seq<char>, ValueM)>::empty());
    while p < toks.len()
        invariant
            pos <= p <= toks@.len(),
            tv == ktoks_view(toks@),
            nm == opt_chars(name),
            node_go(
                tv,
                p as int,
                nm,
                values_view(args@),
                entries_view(props@),
                match last {
                    Some(l) => Some(l as nat),
                    None => None,
                },
            ) == single_of(tv, pos as int),
        decreases toks@.len() - p,
    {
        let cl = toks[p].1;
        match last {
            Some(ll) => {
                if cl != ll {
                    break;
                }
            },
            None => {},
        }
        match &toks[p].0 {
            KTok::LBrace => {
                let (children, np) = match parse_node_list(toks, p + 1) {
                    Ok(x) => x,
                    Err(e) => {
                        return Err(e);
                    },
                };
                if np >= toks.len() || !is_rbrace(toks, np) {
                    return Err(string_of(&chars_of("unclosed `{{` in KDL node")));
                }
                let n = KNode { name, args, props, children };
                return Ok((n, np + 1));
            },
            KTok::Ident(k) => {
                if p + 1 < toks.len() && is_eq(toks, p + 1) {
                    if p + 2 < toks.len() {
                        let v = match literal(&toks[p + 2].0) {
                            Ok(v) => v,
                            Err(e) => {
                                return Err(e);
                            },
                        };
                        let e = (k.clone(), v);
                        proof {
                            lemma_entries_push(props@, e);
                        }
                        props.push(e);
                        p = p + 3;
                        last = Some(cl);
                        continue;
                    }
                    break;
                }
                let v = match literal(&toks[p].0) {
                    Ok(v) => v,
                    Err(e) => {
                        return Err(e);
                    },
                };
                proof {
                    lemma_values_push(args@, v);
                }
                args.push(v);
                p = p + 1;
                last = Some(cl);
            },
            _ => {
                let v = match literal(&toks[p].0) {
                    Ok(v) => v,
                    Err(e) => {
                        return Err(e);
                    },
                };
                proof {
                    lemma_values_push(args@, v);
                }
                args.push(v);
                p = p + 1;
                last = Some(cl);
            },
        }
    }
    let n = KNode { name, args, props, children: Vec::new() };
    Ok((n, p))
}

} // verus!

verus! {

// ---------------------------------------------------------------------------
// nodes as values
pub open spec fn props_go(props: Seq<(Seq<char>, ValueM)>, k: int, rec: Seq<(Seq<char>, ValueM)>) -> Seq<
    (Seq<char>, ValueM),
>
    decreases props.len() - k,
{
    if k >= props.len() || k < 0 {
        rec
    } else {
        props_go(props, k + 1, kv_insert(rec, props[k].0, props[k].1))
    }
}

pub open spec fn label_of(n: KNodeM) -> Seq<char> {
    match n.name {
        Some(s) => s,
        None => "_args"@,
    }
}

/// Children grouped by name, in name order.
pub open spec fn group_go(cs: Seq<KNodeM>, k: int, groups: Seq<(Seq<char>, Seq<ValueM>)>) -> Seq<
    (Seq<char>, Seq<ValueM>),
>
    decreases cs, cs.len() - k,
{
    if k >= cs.len() || k < 0 {
        groups
    } else {
        let label = label_of(cs[k]);
        let existing = match kv_get(groups, label) {
            Some(l) => l,
            None => Seq::empty(),
        };
        group_go(cs, k + 1, kv_insert(groups, label, existing.push(node_value_of(cs[k]))))
    }
}

pub open spec fn flatten_go(
    groups: Seq<(Seq<char>, Seq<ValueM>)>,
    k: int,
    rec: Seq<(Seq<char>, ValueM)>,
) -> Seq<(Seq<char>, ValueM)>
    decreases groups.len() - k,
{
    if k >= groups.len() || k < 0 {
        rec
    } else {
        let lst = groups[k].1;
        flatten_go(
            groups,
            k + 1,
            kv_insert(
                rec,
                groups[k].0,
                if lst.len() == 1 {
                    lst[0]
                } else {
                    ValueM::Lst(lst)
                },
            ),
        )
    }
}

/// A node as a record: properties, `_args`, and children by name.
pub open spec fn node_value_of(n: KNodeM) -> ValueM
    decreases n, 0int,
{
    let rec1 = kv_insert(props_go(n.props, 0, Seq::empty()), "_args"@, ValueM::Lst(n.args));
    if n.children.len() == 0 {
        ValueM::Rec(rec1)
    } else {
        ValueM::Rec(flatten_go(group_go(n.children, 0, Seq::empty()), 0, rec1))
    }
}

/// A list of values with the values' model as its view.
struct Values {
    items: Vec<Value>,
}

impl View for Values {
    type V = Seq<ValueM>;

    closed spec fn view(&self) -> Seq<ValueM> {
        values_view(self.items@)
    }
}

fn copy_values(v: &Vec<Value>) -> (r: Vec<Value>)
    ensures
        values_view(r@) == values_view(v@),
{
    let mut out: Vec<Value> = Vec::new();
    let mut i: usize = 0;
    proof {
        lemma_values_view(v@);
    }
    assert(values_view(out@) =~= values_view(v@).take(0));
    while i < v.len()
        invariant
            i <= v@.len(),
            values_view(v@).len() == v@.len(),
            forall|j: int| 0 <= j < v@.len() ==> values_view(v@)[j] == value_view(#[trigger] v@[j]),
            values_view(out@) == values_view(v@).take(i as int),
        decreases v@.len() - i,
    {
        let c = copy_value(&v[i]);
        proof {
            lemma_values_push(out@, c);
        }
        out.push(c);
        assert(values_view(v@).take(i + 1) =~= values_view(v@).take(i as int).push(
            values_view(v@)[i as int],
        ));
        i = i + 1;
    }
    assert(values_view(v@).take(i as int) =~= values_view(v@));
    out
}

fn put_value(rec: &mut Vec<(String, Value)>, k: String, v: Value)
    ensures
        entries_view(final(rec)@) == kv_insert(entries_view(old(rec)@), k@, v@),
{
    proof {
        lemma_entries_view(rec@);
    }
    kv_put(rec, k, v);
    proof {
        lemma_entries_view(rec@);
    }
}

fn args_name() -> (s: String)
    ensures
        s@ == "_args"@,
{
    string_of(&chars_of("_args"))
}

#[verifier::loop_isolation(false)]
fn node_to_value(n: &KNode) -> (v: Value)
    ensures
        v@ == node_value_of(n@),
    decreases n,
{
    let mut rec: Vec<(String, Value)> = Vec::new();
    proof {
        lemma_entries_view(n.props@);
    }
    let ghost pv = entries_view(n.props@);
    assert(entries_view(rec@) =~= Seq::<(Seq<char>, ValueM)>::empty());
    let mut k: usize = 0;
    while k < n.props.len()
        invariant
            k <= n.props@.len(),
            pv == entries_view(n.props@),
            pv.len() == n.props@.len(),
            forall|j: int| 0 <= j < n.props@.len() ==> pv[j] == ((#[trigger] n.props@[j]).0@, value_view(n.props@[j].1)),
            props_go(pv, k as int, entries_view(rec@)) == props_go(pv, 0, Seq::empty()),
        decreases n.props@.len() - k,
    {
        let c = copy_value(&n.props[k].1);
        put_value(&mut rec, n.props[k].0.clone(), c);
        k = k + 1;
    }
    let args = copy_values(&n.args);
    put_value(&mut rec, args_name(), Value::Lst(args));
    proof {
        lemma_knodes_view(n.children@);
    }
    if n.children.len() == 0 {
        return Value::Rec(rec);
    }
    // group the children by name
    let ghost cv = knodes_view(n.children@);
    let mut groups: Vec<(String, Values)> = Vec::new();
    assert(kv_view(groups@) =~= Seq::<(Seq<char>, Seq<ValueM>)>::empty());
    let mut i: usize = 0;
    while i < n.children.len()
        invariant
            i <= n.children@.len(),
            cv == knodes_view(n.children@),
            cv.len() == n.children@.len(),
            forall|j: int| 0 <= j < n.children@.len() ==> cv[j] == knode_view(#[trigger] n.children@[j]),
            group_go(cv, i as int, kv_view(groups@)) == group_go(cv, 0, Seq::empty()),
        decreases n.children@.len() - i,
    {
        let child = &n.children[i];
        let label: String = match &child.name {
            Some(s) => s.clone(),
            None => args_name(),
        };
        assert(label@ == label_of(cv[i as int]));
        let lc = chars_of(label.as_str());
        let mut items: Vec<Value> = match kv_find(&groups, &lc) {
            Some(g) => copy_values(&groups[g].1.items),
            None => Vec::new(),
        };
        let cval = node_to_value(child);
        proof {
            lemma_values_push(items@, cval);
        }
        items.push(cval);
        kv_put(&mut groups, label, Values { items });
        i = i + 1;
    }
    // flatten the groups into the record
    let ghost gv = kv_view(groups@);
    let mut g: usize = 0;
    while g < groups.len()
        invariant
            g <= groups@.len(),
            gv == kv_view(groups@),
            flatten_go(gv, g as int, entries_view(rec@)) == flatten_go(
                gv,
                0,
                kv_insert(props_go(entries_view(n.props@), 0, Seq::empty()), "_args"@, ValueM::Lst(values_view(n.args@))),
            ),
        decreases groups@.len() - g,
    {
        let items = copy_values(&groups[g].1.items);
        proof {
            lemma_values_view(items@);
        }
        let key = groups[g].0.clone();
        if items.len() == 1 {
            let mut items = items;
            let only = items.pop().unwrap();
            put_value(&mut rec, key, only);
        } else {
            put_value(&mut rec, key, Value::Lst(items));
        }
        g = g + 1;
    }
    Value::Rec(rec)
}

// ---------------------------------------------------------------------------
// files
pub open spec fn top_go(nodes: Seq<KNodeM>, k: int, rec: Seq<(Seq<char>, ValueM)>, contents: Seq<ValueM>) -> ValueM
    decreases nodes.len() - k,
{
    if k >= nodes.len() || k < 0 {
        ValueM::Rec(kv_insert(rec, "_args"@, ValueM::Lst(contents)))
    } else {
        let key = match nodes[k].name {
            Some(s) => s,
            None => "_"@,
        };
        let c = node_value_of(nodes[k]);
        top_go(nodes, k + 1, kv_insert(rec, key, c), contents.push(c))
    }
}

/// The value of a KDL file: nothing is an empty list; a lone `name value`
/// node is a one-field record; one other node is that node's record; several
/// nodes are a record keyed by node name (the last one wins) whose `_args`
/// lists all of them in order.
pub open spec fn kdl_of(src: Seq<char>) -> Result<ValueM, Seq<char>> {
    match klex_of(src) {
        Err(e) => Err(e),
        Ok(toks) => match list_go(toks, 0, Seq::empty()) {
            Err(e) => Err(e),
            Ok((nodes, pos)) => if pos != toks.len() {
                Err("unexpected trailing KDL tokens at position "@ + nat_text(pos as nat))
            } else if nodes.len() == 0 {
                Ok(ValueM::Lst(Seq::empty()))
            } else if nodes.len() == 1 {
                let node = nodes[0];
                if node.name is Some && node.name->0.len() > 0 && node.name->0 != "_"@
                    && node.props.len() == 0 && node.children.len() == 0 && node.args.len() == 1 {
                    Ok(ValueM::Rec(seq![(node.name->0, node.args[0])]))
                } else {
                    Ok(node_value_of(node))
                }
            } else {
                Ok(top_go(nodes, 0, Seq::empty(), Seq::empty()))
            },
        },
    }
}

/// Reads a KDL data file.
pub fn parse_kdl(src: &str) -> (r: Result<Value, String>)
    requires
        2 * src@.len() + 2 < usize::MAX,
    ensures
        match r {
            Ok(v) => kdl_of(src@) == Ok::<ValueM, Seq<char>>(v@),
            Err(e) => kdl_of(src@) == Err::<ValueM, Seq<char>>(e@),
        },
{
    let cs = chars_of(src);
    let toks = match klex(&cs) {
        Ok(t) => t,
        Err(e) => {
            return Err(e);
        },
    };
    let ghost tv = ktoks_view(toks@);
    let (nodes, pos) = match parse_node_list(&toks, 0) {
        Ok(x) => x,
        Err(e) => {
            return Err(e);
        },
    };
    if pos != toks.len() {
        let mut m = chars_of("unexpected trailing KDL tokens at position ");
        let d = usize_text(pos);
        push_all(&mut m, &d);
        return Err(string_of(&m));
    }
    proof {
        lemma_knodes_view(nodes@);
    }
    if nodes.len() == 0 {
        let v = Value::Lst(Vec::new());
        assert(v@ == ValueM::Lst(Seq::empty()));
        return Ok(v);
    }
    if nodes.len() == 1 {
        let node = &nodes[0];
        proof {
            lemma_values_view(node.args@);
            lemma_entries_view(node.props@);
            lemma_knodes_view(node.children@);
        }
        let plain = match &node.name {
            Some(nm) => {
                let c = chars_of(nm.as_str());
                c.len() > 0 && !same(&c, &chars_of("_")) && node.props.len() == 0
                    && node.children.len() == 0 && node.args.len() == 1
            },
            None => false,
        };
        if plain {
            let nm = match &node.name {
                Some(nm) => nm.clone(),
                None => String::new(),
            };
            let a = copy_value(&node.args[0]);
            let mut rec: Vec<(String, Value)> = Vec::new();
            let ghost e = (nm, a);
            rec.push((nm, a));
            proof {
                lemma_entries_view(rec@);
            }
            assert(entries_view(rec@) =~= seq![(e.0@, e.1@)]);
            return Ok(Value::Rec(rec));
        }
        return Ok(node_to_value(node));
    }
    let ghost nv = knodes_view(nodes@);
    let mut rec: Vec<(String, Value)> = Vec::new();
    let mut contents: Vec<Value> = Vec::new();
    assert(entries_view(rec@) =~= Seq::<(Seq<char>, ValueM)>::empty());
    assert(values_view(contents@) =~= Seq::<ValueM>::empty());
    let mut k: usize = 0;
    while k < nodes.len()
        invariant
            k <= nodes@.len(),
            nv == knodes_view(nodes@),
            nv.len() == nodes@.len(),
            forall|j: int| 0 <= j < nodes@.len() ==> nv[j] == knode_view(#[trigger] nodes@[j]),
            top_go(nv, k as int, entries_view(rec@), values_view(contents@)) == top_go(
                nv,
                0,
                Seq::empty(),
                Seq::empty(),
            ),
        decreases nodes@.len() - k,
    {
        let key: String = match &nodes[k].name {
            Some(s) => s.clone(),
            None => string_of(&chars_of("_")),
        };
        let c = node_to_value(&nodes[k]);
        let c2 = copy_value(&c);
        put_value(&mut rec, key, c);
        proof {
            lemma_values_push(contents@, c2);
        }
        contents.push(c2);
        k = k + 1;
    }
    put_value(&mut rec, args_name(), Value::Lst(contents));
    Ok(Value::Rec(rec))
}

} // verus!

verus! {

/// The KDL keywords `#true`/`true`, `#false`/`false` and `#null`/`null` read
/// as the boolean values and null; any other bare word reads as a string.
pub proof fn lemma_keyword_literals(s: Seq<char>)
    ensures
        (s == "#true"@ || s == "true"@) ==> literal_of(KTokM::Ident(s)) == Ok::<ValueM, Seq<char>>(
            ValueM::Bool(true),
        ),
        (s == "#false"@ || s == "false"@) ==> literal_of(KTokM::Ident(s)) == Ok::<
            ValueM,
            Seq<char>,
        >(ValueM::Bool(false)),
        (s == "#null"@ || s == "null"@) ==> literal_of(KTokM::Ident(s)) == Ok::<ValueM, Seq<char>>(
            ValueM::Null,
        ),
        !(s == "#true"@ || s == "true"@ || s == "#false"@ || s == "false"@ || s == "#null"@ || s
            == "null"@) ==> literal_of(KTokM::Ident(s)) == Ok::<ValueM, Seq<char>>(ValueM::Str(s)),
{
    reveal_strlit("#true");
    reveal_strlit("true");
    reveal_strlit("#false");
    reveal_strlit("false");
    reveal_strlit("#null");
    reveal_strlit("null");
    assert("false"@[0] != "#true"@[0]);
    assert("#null"@[1] != "#true"@[1]);
    assert("#null"@[0] != "false"@[0]);
    assert("null"@[0] != "true"@[0]);
    assert("false"@ != "#true"@);
    assert("#null"@ != "#true"@);
    assert("#null"@ != "false"@);
    assert("null"@ != "true"@);
}

} // verus!
