//! Checks on a parsed project before rendering: the names that component
//! bodies refer to, and props or variables that collide with sections.
use vstd::prelude::*;
use crate::ast::{Attr, AttrM, Chunk, ChunkM, File, FileM, Node, NodeM, RawValue, RawValueM, Section, SectionM};
use crate::kv::{kv_get, kv_view};
use crate::lexer::{file_ref, first_of, is_file_ref};
use crate::render::{nsize, nslist, strs};
use crate::serve::words_of;
use crate::text::{chars_of, push_str, string_of, trim};

verus! {

// ---------------------------------------------------------------------------
// names in expressions
/// The text without `[...]` parts (an unmatched `]` is dropped too).
pub open spec fn strip_go(s: Seq<char>, i: int, depth: nat, out: Seq<char>) -> Seq<char>
    decreases s.len() - i,
{
    if i < 0 || i >= s.len() {
        out
    } else if s[i] == '[' {
        strip_go(s, i + 1, depth + 1, out)
    } else if s[i] == ']' {
        strip_go(s, i + 1, if depth > 0 { (depth - 1) as nat } else { 0 }, out)
    } else if depth == 0 {
        strip_go(s, i + 1, depth, out.push(s[i]))
    } else {
        strip_go(s, i + 1, depth, out)
    }
}

pub open spec fn strip_brackets_of(s: Seq<char>) -> Seq<char> {
    strip_go(s, 0, 0, Seq::empty())
}

/// Removes `[...]` index segments from an expression, so that `item[2].name`
/// has the same root (`item`) as `item.name`.
pub fn strip_brackets(s: &[char]) -> (r: Vec<char>)
    ensures
        r@ == strip_brackets_of(s@),
{
    let mut out: Vec<char> = Vec::new();
    let mut depth: usize = 0;
    let mut i: usize = 0;
    while i < s.len()
        invariant
            i <= s@.len(),
            depth <= i,
            strip_go(s@, i as int, depth as nat, out@) == strip_brackets_of(s@),
        decreases s@.len() - i,
    {
        let c = s[i];
        if c == '[' {
            depth = depth + 1;
        } else if c == ']' {
            depth = if depth > 0 { depth - 1 } else { 0 };
        } else if depth == 0 {
            out.push(c);
        }
        i = i + 1;
    }
    out
}

/// The first word before the first `.` of an expression whose brackets are
/// gone.
pub open spec fn root_word(e: Seq<char>) -> Option<Seq<char>> {
    let w = words_of(e.take(first_of(e, '.') as int));
    if w.len() > 0 {
        Some(w[0])
    } else {
        None
    }
}

fn root_word_exec(e: &[char]) -> (r: Option<Vec<char>>)
    ensures
        match r {
            Some(v) => root_word(e@) == Some(v@),
            None => root_word(e@) is None,
        },
{
    let d = crate::lexer::find_char(e, '.');
    let part = crate::text::slice_of(e, 0, d);
    assert(part@ =~= e@.take(first_of(e@, '.') as int));
    let w = crate::serve::words_exec(&part);
    if w.len() > 0 {
        assert(crate::text::vv_chars(w@)[0] == w@[0]@);
        Some(crate::text::slice_of(&w[0], 0, w[0].len()))
    } else {
        None
    }
}

pub open spec fn unbrace(t: Seq<char>) -> Seq<char> {
    let a = if t.len() > 0 && t[0] == '{' {
        t.drop_first()
    } else {
        t
    };
    if a.len() > 0 && a.last() == '}' {
        a.drop_last()
    } else {
        a
    }
}

/// The root name an expression refers to, unless it names a file.
pub open spec fn ident_root_of(expr: Seq<char>) -> Option<Seq<char>> {
    let e = unbrace(trim(expr));
    if file_ref(e) {
        None
    } else {
        root_word(strip_brackets_of(e))
    }
}

/// `set.insert(x)` on a list that keeps each name once, in first-seen order.
pub open spec fn set_add(acc: Seq<Seq<char>>, x: Seq<char>) -> Seq<Seq<char>> {
    if acc.contains(x) {
        acc
    } else {
        acc.push(x)
    }
}

pub open spec fn add_root(expr: Seq<char>, acc: Seq<Seq<char>>) -> Seq<Seq<char>> {
    match ident_root_of(expr) {
        Some(r) => set_add(acc, r),
        None => acc,
    }
}

fn set_add_exec(out: &mut Vec<String>, x: Vec<char>)
    ensures
        strs(final(out)@) == set_add(strs(old(out)@), x@),
{
    let mut i: usize = 0;
    while i < out.len()
        invariant
            i <= out@.len(),
            forall|j: int| 0 <= j < i ==> #[trigger] strs(out@)[j] != x@,
        decreases out@.len() - i,
    {
        assert(strs(out@)[i as int] == out@[i as int]@);
        let oc = chars_of(out[i].as_str());
        if crate::text::same(&oc, &x) {
            assert(strs(out@).contains(x@));
            return;
        }
        i = i + 1;
    }
    assert(!strs(out@).contains(x@)) by {
        if strs(out@).contains(x@) {
            let j = choose|j: int| 0 <= j < strs(out@).len() && strs(out@)[j] == x@;
            assert(strs(out@)[j] != x@);
        }
    }
    let ghost before = out@;
    let s = string_of(&x);
    out.push(s);
    assert(strs(out@) =~= strs(before).push(x@));
}

/// Adds the root name of a reference expression to `out`.
pub fn ident_root(expr: &str, out: &mut Vec<String>)
    ensures
        strs(final(out)@) == add_root(expr@, strs(old(out)@)),
{
    let ec = chars_of(expr);
    let t = crate::text::trimmed(&ec);
    let n = t.len();
    let lo: usize = if n > 0 && t[0] == '{' { 1 } else { 0 };
    let hi: usize = if n > lo && t[n - 1] == '}' { n - 1 } else { n };
    let e = crate::text::slice_of(&t, lo, hi);
    proof {
        let a = if t@.len() > 0 && t@[0] == '{' {
            t@.drop_first()
        } else {
            t@
        };
        assert(a =~= t@.subrange(lo as int, n as int));
        if a.len() > 0 {
            assert(a.last() == t@[n - 1]);
        }
        assert(e@ =~= unbrace(t@));
    }
    if is_file_ref(&e) {
        return;
    }
    let sb = strip_brackets(&e);
    match root_word_exec(&sb) {
        Some(w) => set_add_exec(out, w),
        None => {},
    }
}

/// The parts of a text between `{` and `}`, without empty ones.
pub open spec fn pieces_go(s: Seq<char>, i: int, parts: Seq<Seq<char>>, cur: Seq<char>) -> Seq<
    Seq<char>,
>
    decreases s.len() - i,
{
    if i < 0 || i >= s.len() {
        if cur.len() > 0 {
            parts.push(cur)
        } else {
            parts
        }
    } else if s[i] == '{' || s[i] == '}' {
        pieces_go(s, i + 1, if cur.len() > 0 { parts.push(cur) } else { parts }, Seq::empty())
    } else {
        pieces_go(s, i + 1, parts, cur.push(s[i]))
    }
}

/// The root names a piece of text refers to, from the `k`-th piece on.
pub open spec fn texts_go(pieces: Seq<Seq<char>>, k: int, acc: Seq<Seq<char>>) -> Seq<Seq<char>>
    decreases pieces.len() - k,
{
    if k < 0 || k >= pieces.len() {
        acc
    } else {
        let e = trim(pieces[k]);
        if file_ref(e) {
            texts_go(pieces, k + 1, acc)
        } else {
            match root_word(strip_brackets_of(e)) {
                Some(w) => texts_go(pieces, k + 1, acc.push(w)),
                None => texts_go(pieces, k + 1, acc),
            }
        }
    }
}

/// Every root name in an interpolated text, in order.
pub open spec fn ident_texts_of(expr: Seq<char>) -> Seq<Seq<char>> {
    texts_go(pieces_go(expr, 0, Seq::empty(), Seq::empty()), 0, Seq::empty())
}

fn ident_texts(expr: &str) -> (r: Vec<Vec<char>>)
    ensures
        crate::text::vv_chars(r@) == ident_texts_of(expr@),
{
    let s = chars_of(expr);
    let mut parts: Vec<Vec<char>> = Vec::new();
    let mut cur: Vec<char> = Vec::new();
    let mut i: usize = 0;
    assert(crate::text::vv_chars(parts@) =~= Seq::<Seq<char>>::empty());
    while i < s.len()
        invariant
            i <= s@.len(),
            s@ == expr@,
            pieces_go(s@, i as int, crate::text::vv_chars(parts@), cur@) == pieces_go(
                expr@,
                0,
                Seq::empty(),
                Seq::empty(),
            ),
        decreases s@.len() - i,
    {
        if s[i] == '{' || s[i] == '}' {
            if cur.len() > 0 {
                assert(crate::text::vv_chars(parts@.push(cur)) =~= crate::text::vv_chars(
                    parts@,
                ).push(cur@));
                parts.push(cur);
            }
            cur = Vec::new();
        } else {
            cur.push(s[i]);
        }
        i = i + 1;
    }
    if cur.len() > 0 {
        assert(crate::text::vv_chars(parts@.push(cur)) =~= crate::text::vv_chars(parts@).push(
            cur@,
        ));
        parts.push(cur);
    }
    let ghost ps = crate::text::vv_chars(parts@);
    let mut out: Vec<Vec<char>> = Vec::new();
    assert(crate::text::vv_chars(out@) =~= Seq::<Seq<char>>::empty());
    let mut k: usize = 0;
    while k < parts.len()
        invariant
            k <= parts@.len(),
            ps == crate::text::vv_chars(parts@),
            ps == pieces_go(expr@, 0, Seq::empty(), Seq::empty()),
            texts_go(ps, k as int, crate::text::vv_chars(out@)) == ident_texts_of(expr@),
        decreases parts@.len() - k,
    {
        assert(ps[k as int] == parts@[k as int]@);
        let e = crate::text::trimmed(&parts[k]);
        if !is_file_ref(&e) {
            let sb = strip_brackets(&e);
            match root_word_exec(&sb) {
                Some(w) => {
                    assert(crate::text::vv_chars(out@.push(w)) =~= crate::text::vv_chars(
                        out@,
                    ).push(w@));
                    out.push(w);
                },
                None => {},
            }
        }
        k = k + 1;
    }
    out
}

fn texts_contain(ts: &Vec<Vec<char>>, wanted: &[char]) -> (r: bool)
    ensures
        r == crate::text::vv_chars(ts@).contains(wanted@),
{
    let mut i: usize = 0;
    while i < ts.len()
        invariant
            i <= ts@.len(),
            forall|j: int| 0 <= j < i ==> #[trigger] crate::text::vv_chars(ts@)[j] != wanted@,
        decreases ts@.len() - i,
    {
        assert(crate::text::vv_chars(ts@)[i as int] == ts@[i as int]@);
        if crate::text::same(&ts[i], wanted) {
            return true;
        }
        i = i + 1;
    }
    assert(!crate::text::vv_chars(ts@).contains(wanted@)) by {
        if crate::text::vv_chars(ts@).contains(wanted@) {
            let j = choose|j: int|
                0 <= j < crate::text::vv_chars(ts@).len() && crate::text::vv_chars(ts@)[j]
                    == wanted@;
            assert(crate::text::vv_chars(ts@)[j] != wanted@);
        }
    }
    false
}

fn texts_have(expr: &str, wanted: &[char]) -> (r: bool)
    ensures
        r == ident_texts_of(expr@).contains(wanted@),
{
    let ts = ident_texts(expr);
    texts_contain(&ts, wanted)
}

} // verus!

verus! {

// ---------------------------------------------------------------------------
// names that component bodies use
pub open spec fn chunk_roots(chunks: Seq<ChunkM>, acc: Seq<Seq<char>>) -> Seq<Seq<char>>
    decreases chunks.len(),
{
    if chunks.len() == 0 {
        acc
    } else {
        let before = chunk_roots(chunks.drop_last(), acc);
        match chunks.last() {
            ChunkM::Ref(e) => add_root(e, before),
            ChunkM::Lit(_) => before,
        }
    }
}

pub open spec fn attr_roots(a: AttrM, acc: Seq<Seq<char>>) -> Seq<Seq<char>> {
    match a.value {
        Some(RawValueM::Str(chunks)) => chunk_roots(chunks, acc),
        Some(RawValueM::Ref(e)) => add_root(e, acc),
        _ => acc,
    }
}

pub open spec fn attrs_roots(attrs: Seq<AttrM>, acc: Seq<Seq<char>>) -> Seq<Seq<char>>
    decreases attrs.len(),
{
    if attrs.len() == 0 {
        acc
    } else {
        attr_roots(attrs.last(), attrs_roots(attrs.drop_last(), acc))
    }
}

/// The root names a node refers to, added to `acc` in order.
pub open spec fn refs_node(n: NodeM, acc: Seq<Seq<char>>) -> Seq<Seq<char>>
    decreases n,
{
    match n {
        NodeM::El { attrs, children, .. } => refs_nodes(children, attrs_roots(attrs, acc)),
        NodeM::Inv { props, children, .. } => refs_nodes(children, attrs_roots(props, acc)),
        NodeM::Cond { cond, then_ch, else_ch, .. } => refs_nodes(
            else_ch,
            refs_nodes(then_ch, add_root(cond, acc)),
        ),
        NodeM::Loop { expr, children, .. } => refs_nodes(children, add_root(expr, acc)),
        NodeM::Text { chunks, .. } => chunk_roots(chunks, acc),
        NodeM::ElseMarker { .. } => acc,
    }
}

pub open spec fn refs_nodes(s: Seq<NodeM>, acc: Seq<Seq<char>>) -> Seq<Seq<char>>
    decreases s,
{
    if s.len() == 0 {
        acc
    } else {
        refs_node(s.last(), refs_nodes(s.drop_last(), acc))
    }
}

fn chunk_roots_exec(chunks: &Vec<Chunk>, out: &mut Vec<String>)
    ensures
        strs(final(out)@) == chunk_roots(crate::ast::chunks_view(chunks@), strs(old(out)@)),
{
    let ghost cv = crate::ast::chunks_view(chunks@);
    let ghost acc0 = strs(out@);
    let mut i: usize = 0;
    assert(cv.take(0) =~= Seq::<ChunkM>::empty());
    while i < chunks.len()
        invariant
            i <= chunks@.len(),
            cv == crate::ast::chunks_view(chunks@),
            strs(out@) == chunk_roots(cv.take(i as int), acc0),
        decreases chunks@.len() - i,
    {
        assert(cv.take(i + 1).drop_last() =~= cv.take(i as int));
        assert(cv.take(i + 1).last() == chunks@[i as int]@);
        match &chunks[i] {
            Chunk::Ref(e) => ident_root(e.as_str(), out),
            Chunk::Lit(_) => {},
        }
        i = i + 1;
    }
    assert(cv.take(chunks@.len() as int) =~= cv);
}

/// Adds the root names an attribute's value refers to.
pub fn attr_refs(attr: &Attr, out: &mut Vec<String>)
    ensures
        strs(final(out)@) == attr_roots(attr@, strs(old(out)@)),
{
    match &attr.value {
        None => {},
        Some(RawValue::Str(chunks)) => chunk_roots_exec(chunks, out),
        Some(RawValue::Ref(e)) => ident_root(e.as_str(), out),
        Some(_) => {},
    }
}

fn attrs_refs(attrs: &Vec<Attr>, out: &mut Vec<String>)
    ensures
        strs(final(out)@) == attrs_roots(crate::ast::attrs_view(attrs@), strs(old(out)@)),
{
    let ghost av = crate::ast::attrs_view(attrs@);
    let ghost acc0 = strs(out@);
    let mut i: usize = 0;
    assert(av.take(0) =~= Seq::<AttrM>::empty());
    while i < attrs.len()
        invariant
            i <= attrs@.len(),
            av == crate::ast::attrs_view(attrs@),
            strs(out@) == attrs_roots(av.take(i as int), acc0),
        decreases attrs@.len() - i,
    {
        assert(av.take(i + 1).drop_last() =~= av.take(i as int));
        assert(av.take(i + 1).last() == attrs@[i as int]@);
        attr_refs(&attrs[i], out);
        i = i + 1;
    }
    assert(av.take(attrs@.len() as int) =~= av);
}

/// Adds the root names that the nodes refer to, each once.
pub fn collect_refs(nodes: &Vec<Node>, out: &mut Vec<String>)
    ensures
        strs(final(out)@) == refs_nodes(crate::ast::nodes_view(nodes@), strs(old(out)@)),
    decreases nslist(crate::ast::nodes_view(nodes@)), 1int,
{
    let ghost nv = crate::ast::nodes_view(nodes@);
    let ghost acc0 = strs(out@);
    proof {
        crate::ast::lemma_nodes_view_len(nodes@);
    }
    let mut i: usize = 0;
    assert(nv.take(0) =~= Seq::<NodeM>::empty());
    while i < nodes.len()
        invariant
            i <= nodes@.len(),
            nv == crate::ast::nodes_view(nodes@),
            nv.len() == nodes@.len(),
            forall|k: int| 0 <= k < nodes@.len() ==> nv[k] == #[trigger] nodes@[k]@,
            strs(out@) == refs_nodes(nv.take(i as int), acc0),
        decreases nodes@.len() - i,
    {
        proof {
            crate::render::lemma_nsize_le(nv, i as int);
        }
        assert(nv.take(i + 1).drop_last() =~= nv.take(i as int));
        assert(nv.take(i + 1).last() == nv[i as int]);
        collect_node_refs(&nodes[i], out);
        i = i + 1;
    }
    assert(nv.take(nodes@.len() as int) =~= nv);
}

fn collect_node_refs(node: &Node, out: &mut Vec<String>)
    ensures
        strs(final(out)@) == refs_node(node@, strs(old(out)@)),
    decreases nsize(node@), 0int,
{
    match node {
        Node::El(n) => {
            attrs_refs(&n.attrs, out);
            collect_refs(&n.children, out);
        },
        Node::Inv(n) => {
            attrs_refs(&n.props, out);
            collect_refs(&n.children, out);
        },
        Node::Cond(n) => {
            ident_root(n.cond.as_str(), out);
            collect_refs(&n.then_ch, out);
            collect_refs(&n.else_ch, out);
        },
        Node::Loop(n) => {
            ident_root(n.expr.as_str(), out);
            collect_refs(&n.children, out);
        },
        Node::Text(n) => chunk_roots_exec(&n.chunks, out),
        Node::ElseMarker(_) => {},
    }
}

} // verus!

verus! {

// ---------------------------------------------------------------------------
// where a name is used
pub open spec fn chunk_has(chunks: Seq<ChunkM>, wanted: Seq<char>) -> bool {
    exists|i: int|
        0 <= i < chunks.len() && match #[trigger] chunks[i] {
            ChunkM::Ref(e) => ident_texts_of(e).contains(wanted),
            ChunkM::Lit(_) => false,
        }
}

/// Whether an attribute's value refers to `wanted`.
pub open spec fn attr_has(a: AttrM, wanted: Seq<char>) -> bool {
    match a.value {
        Some(RawValueM::Str(chunks)) => chunk_has(chunks, wanted),
        Some(RawValueM::Ref(e)) => ident_texts_of(e).contains(wanted),
        _ => false,
    }
}

pub open spec fn attrs_have(attrs: Seq<AttrM>, wanted: Seq<char>) -> bool {
    exists|i: int| 0 <= i < attrs.len() && attr_has(#[trigger] attrs[i], wanted)
}

/// The line of the first node that refers to `wanted`.
pub open spec fn line_node(n: NodeM, wanted: Seq<char>) -> Option<nat>
    decreases n,
{
    match n {
        NodeM::El { line, attrs, children, .. } => if attrs_have(attrs, wanted) {
            Some(line)
        } else {
            line_nodes(children, wanted)
        },
        NodeM::Inv { line, props, children, .. } => if attrs_have(props, wanted) {
            Some(line)
        } else {
            line_nodes(children, wanted)
        },
        NodeM::Cond { line, cond, then_ch, else_ch } => if ident_texts_of(cond).contains(wanted) {
            Some(line)
        } else {
            match line_nodes(then_ch, wanted) {
                Some(l) => Some(l),
                None => line_nodes(else_ch, wanted),
            }
        },
        NodeM::Loop { line, expr, children, .. } => if ident_texts_of(expr).contains(wanted) {
            Some(line)
        } else {
            line_nodes(children, wanted)
        },
        NodeM::Text { line, chunks } => if chunk_has(chunks, wanted) {
            Some(line)
        } else {
            None
        },
        NodeM::ElseMarker { .. } => None,
    }
}

pub open spec fn line_nodes(s: Seq<NodeM>, wanted: Seq<char>) -> Option<nat>
    decreases s,
{
    if s.len() == 0 {
        None
    } else {
        match line_nodes(s.drop_last(), wanted) {
            Some(l) => Some(l),
            None => line_node(s.last(), wanted),
        }
    }
}

fn chunk_has_exec(chunks: &Vec<Chunk>, wanted: &[char]) -> (r: bool)
    ensures
        r == chunk_has(crate::ast::chunks_view(chunks@), wanted@),
{
    let ghost cv = crate::ast::chunks_view(chunks@);
    let mut i: usize = 0;
    while i < chunks.len()
        invariant
            i <= chunks@.len(),
            cv == crate::ast::chunks_view(chunks@),
            forall|j: int|
                0 <= j < i ==> !match #[trigger] cv[j] {
                    ChunkM::Ref(e) => ident_texts_of(e).contains(wanted@),
                    ChunkM::Lit(_) => false,
                },
        decreases chunks@.len() - i,
    {
        assert(cv[i as int] == chunks@[i as int]@);
        match &chunks[i] {
            Chunk::Ref(e) => {
                if texts_have(e.as_str(), wanted) {
                    return true;
                }
            },
            Chunk::Lit(_) => {},
        }
        i = i + 1;
    }
    false
}

/// Whether an attribute's value refers to `wanted`.
pub fn attr_has_ref(attr: &Attr, wanted: &[char]) -> (r: bool)
    ensures
        r == attr_has(attr@, wanted@),
{
    match &attr.value {
        Some(RawValue::Str(chunks)) => chunk_has_exec(chunks, wanted),
        Some(RawValue::Ref(e)) => texts_have(e.as_str(), wanted),
        _ => false,
    }
}

fn attrs_have_exec(attrs: &Vec<Attr>, wanted: &[char]) -> (r: bool)
    ensures
        r == attrs_have(crate::ast::attrs_view(attrs@), wanted@),
{
    let ghost av = crate::ast::attrs_view(attrs@);
    let mut i: usize = 0;
    while i < attrs.len()
        invariant
            i <= attrs@.len(),
            av == crate::ast::attrs_view(attrs@),
            forall|j: int| 0 <= j < i ==> !attr_has(#[trigger] av[j], wanted@),
        decreases attrs@.len() - i,
    {
        assert(av[i as int] == attrs@[i as int]@);
        if attr_has_ref(&attrs[i], wanted) {
            return true;
        }
        i = i + 1;
    }
    false
}

/// The line of the first node that refers to `wanted`.
pub fn ref_line(nodes: &Vec<Node>, wanted: &[char]) -> (r: Option<usize>)
    ensures
        match r {
            Some(l) => line_nodes(crate::ast::nodes_view(nodes@), wanted@) == Some(l as nat),
            None => line_nodes(crate::ast::nodes_view(nodes@), wanted@) is None,
        },
    decreases nslist(crate::ast::nodes_view(nodes@)), 1int,
{
    let ghost nv = crate::ast::nodes_view(nodes@);
    proof {
        crate::ast::lemma_nodes_view_len(nodes@);
    }
    let mut i: usize = 0;
    assert(nv.take(0) =~= Seq::<NodeM>::empty());
    while i < nodes.len()
        invariant
            i <= nodes@.len(),
            nv == crate::ast::nodes_view(nodes@),
            nv.len() == nodes@.len(),
            forall|k: int| 0 <= k < nodes@.len() ==> nv[k] == #[trigger] nodes@[k]@,
            line_nodes(nv.take(i as int), wanted@) is None,
        decreases nodes@.len() - i,
    {
        proof {
            crate::render::lemma_nsize_le(nv, i as int);
        }
        assert(nv.take(i + 1).drop_last() =~= nv.take(i as int));
        assert(nv.take(i + 1).last() == nv[i as int]);
        match node_line(&nodes[i], wanted) {
            Some(l) => {
                proof {
                    lemma_line_prefix(nv, i + 1, wanted@);
                }
                return Some(l);
            },
            None => {},
        }
        i = i + 1;
    }
    assert(nv.take(nodes@.len() as int) =~= nv);
    None
}

/// Once found in a prefix, the line stays the answer for the whole list.
proof fn lemma_line_prefix(s: Seq<NodeM>, k: int, wanted: Seq<char>)
    requires
        0 <= k <= s.len(),
        line_nodes(s.take(k), wanted) is Some,
    ensures
        line_nodes(s, wanted) == line_nodes(s.take(k), wanted),
    decreases s.len() - k,
{
    if k < s.len() {
        assert(s.take(k + 1).drop_last() =~= s.take(k));
        lemma_line_prefix(s, k + 1, wanted);
    } else {
        assert(s.take(k) =~= s);
    }
}

fn node_line(node: &Node, wanted: &[char]) -> (r: Option<usize>)
    ensures
        match r {
            Some(l) => line_node(node@, wanted@) == Some(l as nat),
            None => line_node(node@, wanted@) is None,
        },
    decreases nsize(node@), 0int,
{
    match node {
        Node::El(n) => {
            if attrs_have_exec(&n.attrs, wanted) {
                return Some(n.line);
            }
            ref_line(&n.children, wanted)
        },
        Node::Inv(n) => {
            if attrs_have_exec(&n.props, wanted) {
                return Some(n.line);
            }
            ref_line(&n.children, wanted)
        },
        Node::Cond(n) => {
            if texts_have(n.cond.as_str(), wanted) {
                return Some(n.line);
            }
            match ref_line(&n.then_ch, wanted) {
                Some(l) => Some(l),
                None => ref_line(&n.else_ch, wanted),
            }
        },
        Node::Loop(n) => {
            if texts_have(n.expr.as_str(), wanted) {
                return Some(n.line);
            }
            ref_line(&n.children, wanted)
        },
        Node::Text(n) => {
            if chunk_has_exec(&n.chunks, wanted) {
                Some(n.line)
            } else {
                None
            }
        },
        Node::ElseMarker(_) => None,
    }
}

} // verus!

verus! {

// ---------------------------------------------------------------------------
// collisions
/// The collisions among the names `refs` (from the `k`-th on) used in the
/// body of component `name`: names that are also sections of the file.
pub open spec fn coll_refs(
    name: Seq<char>,
    body: Seq<NodeM>,
    refs: Seq<Seq<char>>,
    k: int,
    secs: Seq<(Seq<char>, SectionM)>,
    acc: Seq<(Seq<char>, Seq<char>, nat)>,
) -> Seq<(Seq<char>, Seq<char>, nat)>
    decreases refs.len() - k,
{
    if k < 0 || k >= refs.len() {
        acc
    } else {
        let r = refs[k];
        let acc2 = if kv_get(secs, r) is Some {
            acc.push(
                (
                    name,
                    r,
                    match line_nodes(body, r) {
                        Some(l) => l,
                        None => 0,
                    },
                ),
            )
        } else {
            acc
        };
        coll_refs(name, body, refs, k + 1, secs, acc2)
    }
}

/// The collisions of the components from the `i`-th section on.
pub open spec fn coll_go(secs: Seq<(Seq<char>, SectionM)>, i: int, acc: Seq<(Seq<char>, Seq<char>, nat)>) -> Seq<
    (Seq<char>, Seq<char>, nat),
>
    decreases secs.len() - i,
{
    if i < 0 || i >= secs.len() {
        acc
    } else {
        match secs[i].1 {
            SectionM::Component(body) => coll_go(
                secs,
                i + 1,
                coll_refs(secs[i].0, body, refs_nodes(body, Seq::empty()), 0, secs, acc),
            ),
            _ => coll_go(secs, i + 1, acc),
        }
    }
}

/// Every (component, name, line) where a component body uses a name that
/// is also a section of the same file; the line is 0 when no node shows it.
pub open spec fn collisions_of(f: FileM) -> Seq<(Seq<char>, Seq<char>, nat)> {
    coll_go(f.sections, 0, Seq::empty())
}

pub open spec fn triples(s: Seq<(String, String, usize)>) -> Seq<(Seq<char>, Seq<char>, nat)> {
    s.map_values(|t: (String, String, usize)| (t.0@, t.1@, t.2 as nat))
}

/// Every (component, name, line) where a component body uses a name that
/// is also a section of the same file.
pub fn find_collisions(key: &str, file: &File) -> (r: Vec<(String, String, usize)>)
    ensures
        triples(r@) == collisions_of(file@),
{
    let ghost secs = file@.sections;
    let mut out: Vec<(String, String, usize)> = Vec::new();
    assert(triples(out@) =~= Seq::<(Seq<char>, Seq<char>, nat)>::empty());
    let mut i: usize = 0;
    while i < file.sections.len()
        invariant
            i <= file.sections@.len(),
            secs == file@.sections,
            coll_go(secs, i as int, triples(out@)) == collisions_of(file@),
        decreases file.sections@.len() - i,
    {
        assert(secs[i as int] == (file.sections@[i as int].0@, file.sections@[i as int].1@));
        match &file.sections[i].1 {
            Section::Component(body) => {
                let ghost bv = crate::ast::nodes_view(body@);
                let ghost acc0 = triples(out@);
                let mut refs: Vec<String> = Vec::new();
                assert(strs(refs@) =~= Seq::<Seq<char>>::empty());
                collect_refs(body, &mut refs);
                let ghost rv = strs(refs@);
                let name = &file.sections[i].0;
                let mut k: usize = 0;
                while k < refs.len()
                    invariant
                        k <= refs@.len(),
                        rv == strs(refs@),
                        secs == file@.sections,
                        bv == crate::ast::nodes_view(body@),
                        coll_refs(name@, bv, rv, 0, secs, acc0) == coll_refs(
                            name@,
                            bv,
                            rv,
                            k as int,
                            secs,
                            triples(out@),
                        ),
                    decreases refs@.len() - k,
                {
                    assert(rv[k as int] == refs@[k as int]@);
                    let rc = chars_of(refs[k].as_str());
                    if crate::kv::kv_find(&file.sections, &rc).is_some() {
                        let line = match ref_line(body, &rc) {
                            Some(l) => l,
                            None => 0,
                        };
                        let ghost before = out@;
                        let t = (name.clone(), refs[k].clone(), line);
                        let ghost tv = (t.0@, t.1@, t.2 as nat);
                        out.push(t);
                        assert(triples(out@) =~= triples(before).push(tv));
                    }
                    k = k + 1;
                }
            },
            _ => {},
        }
        i = i + 1;
    }
    out
}

} // verus!

verus! {

pub open spec fn collision_msg(key: Seq<char>, name: Seq<char>, r: Seq<char>) -> Seq<char> {
    key + ": prop/variable `{"@ + r + "}` used inside component `#"@ + name
        + "` collides with a section of the same name defined in this file"@
}

/// The first collision of a file, as an error.
pub open spec fn validate_of(key: Seq<char>, f: FileM) -> Result<(), Seq<char>> {
    let cs = collisions_of(f);
    if cs.len() == 0 {
        Ok(())
    } else {
        Err(collision_msg(key, cs[0].0, cs[0].1))
    }
}

/// Refuses a file whose component bodies use a name that is also one of its
/// sections.
pub fn validate_collisions(key: &str, file: &File) -> (r: Result<(), String>)
    ensures
        match r {
            Ok(()) => validate_of(key@, file@) is Ok,
            Err(e) => validate_of(key@, file@) == Err::<(), Seq<char>>(e@),
        },
{
    let cs = find_collisions(key, file);
    if cs.len() == 0 {
        return Ok(());
    }
    assert(triples(cs@)[0] == (cs@[0].0@, cs@[0].1@, cs@[0].2 as nat));
    let mut m = chars_of(key);
    push_str(&mut m, ": prop/variable `{");
    push_str(&mut m, cs[0].1.as_str());
    push_str(&mut m, "}` used inside component `#");
    push_str(&mut m, cs[0].0.as_str());
    push_str(&mut m, "` collides with a section of the same name defined in this file");
    Err(string_of(&m))
}

// ---------------------------------------------------------------------------
// a whole project
/// The template files read so far, by key, and the keys of those that have
/// a main template (the pages), in the order they were read.
pub struct ProjectFiles {
    pub files: Vec<(String, File)>,
    pub pages: Vec<String>,
}

impl View for ProjectFiles {
    type V = (Seq<(Seq<char>, FileM)>, Seq<Seq<char>>);

    open spec fn view(&self) -> (Seq<(Seq<char>, FileM)>, Seq<Seq<char>>) {
        (kv_view(self.files@), strs(self.pages@))
    }
}

/// The first file, from the `k`-th on, that a collision refuses.
pub open spec fn check_go(files: Seq<(Seq<char>, FileM)>, k: int) -> Result<(), Seq<char>>
    decreases files.len() - k,
{
    if k < 0 || k >= files.len() {
        Ok(())
    } else {
        match validate_of(files[k].0, files[k].1) {
            Err(e) => Err(e),
            Ok(()) => check_go(files, k + 1),
        }
    }
}

/// Why the files read cannot be built, if they cannot.
pub open spec fn finish_of(files: Seq<(Seq<char>, FileM)>) -> Result<(), Seq<char>> {
    if files.len() == 0 {
        Err("no `.df` files found"@)
    } else {
        check_go(files, 0)
    }
}

impl ProjectFiles {
    pub fn new() -> (r: ProjectFiles)
        ensures
            r@.0 == Seq::<(Seq<char>, FileM)>::empty(),
            r@.1 == Seq::<Seq<char>>::empty(),
    {
        let r = ProjectFiles { files: Vec::new(), pages: Vec::new() };
        assert(kv_view(r.files@) =~= Seq::<(Seq<char>, FileM)>::empty());
        assert(strs(r.pages@) =~= Seq::<Seq<char>>::empty());
        r
    }

    /// Parses a template file and adds it by its key; one with a main
    /// template is also a page.
    pub fn add_source(&mut self, rel: &str, src: &str) -> (r: Result<(), String>)
        requires
            src@.len() * 4 <= usize::MAX,
        ensures
            match crate::parser::parse_of(rel@, src@) {
                Err(e) => r matches Err(x) && x@ == "parse error: "@ + e && final(self)@ == old(
                    self,
                )@,
                Ok(f) => r is Ok && final(self)@ == (
                    crate::kv::kv_insert(old(self)@.0, rel@, f),
                    if f.main.len() > 0 {
                        old(self)@.1.push(rel@)
                    } else {
                        old(self)@.1
                    },
                ),
            },
    {
        match crate::parser::parse(rel, src) {
            Err(e) => {
                let mut m = chars_of("parse error: ");
                push_str(&mut m, e.as_str());
                Err(string_of(&m))
            },
            Ok(f) => {
                proof {
                    crate::ast::lemma_nodes_view_len(f.main@);
                }
                if f.main.len() > 0 {
                    let ghost before = self.pages@;
                    self.pages.push(rel.to_owned());
                    assert(strs(self.pages@) =~= strs(before).push(rel@));
                }
                crate::kv::kv_put(&mut self.files, rel.to_owned(), f);
                Ok(())
            },
        }
    }

    /// Checks every file and gives the compiler, with nothing read from
    /// disk yet, and the pages to build.
    pub fn finish(self) -> (r: Result<(crate::render::Compiler, Vec<String>), String>)
        ensures
            match finish_of(self@.0) {
                Err(e) => r matches Err(x) && x@ == e,
                Ok(()) => r matches Ok((c, pages)) && c@.files == self@.0 && c@.loaded.len() == 0
                    && strs(pages@) == self@.1,
            },
    {
        if self.files.len() == 0 {
            let m = chars_of("no `.df` files found");
            return Err(string_of(&m));
        }
        let ghost fv = kv_view(self.files@);
        let mut k: usize = 0;
        while k < self.files.len()
            invariant
                k <= self.files@.len(),
                fv == kv_view(self.files@),
                fv.len() > 0,
                check_go(fv, 0) == check_go(fv, k as int),
            decreases self.files@.len() - k,
        {
            assert(fv[k as int] == (self.files@[k as int].0@, self.files@[k as int].1@));
            match validate_collisions(self.files[k].0.as_str(), &self.files[k].1) {
                Err(e) => {
                    return Err(e);
                },
                Ok(()) => {},
            }
            k = k + 1;
        }
        let ProjectFiles { files, pages } = self;
        let c = crate::render::Compiler { files, loaded: Vec::new() };
        assert(c@.loaded =~= Seq::<(Seq<char>, Result<Seq<char>, Seq<char>>)>::empty());
        Ok((c, pages))
    }
}

/// What the build reports when a page fails.
pub fn page_failure(key: &str, msg: &str) -> (r: String)
    ensures
        r@ == key@ + ": "@ + msg@,
{
    let mut m = chars_of(key);
    push_str(&mut m, ": ");
    push_str(&mut m, msg);
    string_of(&m)
}

pub open spec fn plural(n: int) -> Seq<char> {
    if n > 1 {
        "s"@
    } else {
        ""@
    }
}

pub open spec fn summary_of(built: nat, files: nat, output: Seq<char>, tty: bool) -> Seq<char> {
    crate::term::paint_of("Complete"@, "\x1b[32m"@, tty) + ": built "@ + crate::text::nat_text(built)
        + " page"@ + plural(built as int) + " from "@ + crate::text::nat_text(files) + " file"@
        + plural(files as int) + " into `"@ + output + "`"@
}

/// The last line of a successful build.
pub fn build_summary(built: usize, files: usize, output: &str, tty: bool) -> (r: String)
    ensures
        r@ == summary_of(built as nat, files as nat, output@, tty),
{
    let g = crate::term::green("Complete", tty);
    let mut m = chars_of(g.as_str());
    push_str(&mut m, ": built ");
    let b = crate::text::usize_text(built);
    crate::text::push_all(&mut m, &b);
    push_str(&mut m, " page");
    if built > 1 {
        push_str(&mut m, "s");
    }
    push_str(&mut m, " from ");
    let f = crate::text::usize_text(files);
    crate::text::push_all(&mut m, &f);
    push_str(&mut m, " file");
    if files > 1 {
        push_str(&mut m, "s");
    }
    push_str(&mut m, " into `");
    push_str(&mut m, output);
    push_str(&mut m, "`");
    proof {
        reveal_strlit("");
    }
    assert(m@ =~= summary_of(built as nat, files as nat, output@, tty));
    string_of(&m)
}

} // verus!

verus! {

// ---------------------------------------------------------------------------
// laws
/// A reported collision names a component of the file, a name its body uses,
/// and that name is a section of the same file.
pub open spec fn real_collision(secs: Seq<(Seq<char>, SectionM)>, t: (Seq<char>, Seq<char>, nat)) -> bool {
    &&& kv_get(secs, t.1) is Some
    &&& exists|i: int|
        0 <= i < secs.len() && (#[trigger] secs[i]).0 == t.0 && match secs[i].1 {
            SectionM::Component(body) => refs_nodes(body, Seq::empty()).contains(t.1),
            _ => false,
        }
}

proof fn lemma_coll_refs_sound(
    name: Seq<char>,
    body: Seq<NodeM>,
    refs: Seq<Seq<char>>,
    k: int,
    secs: Seq<(Seq<char>, SectionM)>,
    acc: Seq<(Seq<char>, Seq<char>, nat)>,
    i: int,
)
    requires
        0 <= i < secs.len(),
        secs[i].0 == name,
        secs[i].1 == SectionM::Component(body),
        refs == refs_nodes(body, Seq::empty()),
        0 <= k,
    ensures
        forall|t: (Seq<char>, Seq<char>, nat)|
            #[trigger] coll_refs(name, body, refs, k, secs, acc).contains(t) ==> acc.contains(t)
                || real_collision(secs, t),
    decreases refs.len() - k,
{
    if k < refs.len() {
        let r = refs[k];
        let acc2 = if kv_get(secs, r) is Some {
            acc.push(
                (
                    name,
                    r,
                    match line_nodes(body, r) {
                        Some(l) => l,
                        None => 0,
                    },
                ),
            )
        } else {
            acc
        };
        lemma_coll_refs_sound(name, body, refs, k + 1, secs, acc2, i);
        assert forall|t: (Seq<char>, Seq<char>, nat)|
            #[trigger] coll_refs(name, body, refs, k, secs, acc).contains(t) implies acc.contains(t)
            || real_collision(secs, t) by {
            assert(coll_refs(name, body, refs, k, secs, acc) == coll_refs(
                name,
                body,
                refs,
                k + 1,
                secs,
                acc2,
            ));
            if acc2.contains(t) && !acc.contains(t) {
                let j = choose|j: int| 0 <= j < acc2.len() && acc2[j] == t;
                if j < acc.len() {
                    assert(acc[j] == acc2[j]);
                } else {
                    assert(t.0 == name && t.1 == r);
                    assert(refs.contains(r));
                    assert(secs[i].0 == t.0);
                }
            }
        }
    }
}

proof fn lemma_coll_go_sound(
    secs: Seq<(Seq<char>, SectionM)>,
    i: int,
    acc: Seq<(Seq<char>, Seq<char>, nat)>,
)
    requires
        0 <= i,
    ensures
        forall|t: (Seq<char>, Seq<char>, nat)|
            #[trigger] coll_go(secs, i, acc).contains(t) ==> acc.contains(t) || real_collision(
                secs,
                t,
            ),
    decreases secs.len() - i,
{
    if i < secs.len() {
        match secs[i].1 {
            SectionM::Component(body) => {
                let refs = refs_nodes(body, Seq::empty());
                let acc2 = coll_refs(secs[i].0, body, refs, 0, secs, acc);
                lemma_coll_refs_sound(secs[i].0, body, refs, 0, secs, acc, i);
                lemma_coll_go_sound(secs, i + 1, acc2);
                assert(coll_go(secs, i, acc) == coll_go(secs, i + 1, acc2));
            },
            _ => {
                lemma_coll_go_sound(secs, i + 1, acc);
                assert(coll_go(secs, i, acc) == coll_go(secs, i + 1, acc));
            },
        }
    }
}

/// Every collision that is reported is real: a component of the file uses a
/// name that is also one of the file's sections.
pub proof fn lemma_collisions_sound(f: FileM)
    ensures
        forall|t: (Seq<char>, Seq<char>, nat)|
            #[trigger] collisions_of(f).contains(t) ==> real_collision(f.sections, t),
{
    lemma_coll_go_sound(f.sections, 0, Seq::empty());
}

proof fn lemma_coll_refs_keeps(
    name: Seq<char>,
    body: Seq<NodeM>,
    refs: Seq<Seq<char>>,
    k: int,
    secs: Seq<(Seq<char>, SectionM)>,
    acc: Seq<(Seq<char>, Seq<char>, nat)>,
)
    requires
        0 <= k,
    ensures
        acc.len() <= coll_refs(name, body, refs, k, secs, acc).len(),
        forall|j: int| 0 <= j < acc.len() ==> #[trigger] coll_refs(name, body, refs, k, secs, acc)[j] == acc[j],
        forall|m: int|
            k <= m < refs.len() && kv_get(secs, refs[m]) is Some ==> exists|j: int|
                0 <= j < coll_refs(name, body, refs, k, secs, acc).len() && (#[trigger] coll_refs(
                    name,
                    body,
                    refs,
                    k,
                    secs,
                    acc,
                )[j]).0 == name && coll_refs(name, body, refs, k, secs, acc)[j].1 == refs[m],
    decreases refs.len() - k,
{
    if 0 <= k < refs.len() {
        let r = refs[k];
        let acc2 = if kv_get(secs, r) is Some {
            acc.push(
                (
                    name,
                    r,
                    match line_nodes(body, r) {
                        Some(l) => l,
                        None => 0,
                    },
                ),
            )
        } else {
            acc
        };
        lemma_coll_refs_keeps(name, body, refs, k + 1, secs, acc2);
        let res = coll_refs(name, body, refs, k, secs, acc);
        assert(res == coll_refs(name, body, refs, k + 1, secs, acc2));
        assert forall|j: int| 0 <= j < acc.len() implies #[trigger] res[j] == acc[j] by {
            assert(res[j] == acc2[j]);
        }
        assert forall|m: int| k <= m < refs.len() && kv_get(secs, refs[m]) is Some implies exists|
            j: int,
        | 0 <= j < res.len() && (#[trigger] res[j]).0 == name && res[j].1 == refs[m] by {
            if m == k {
                assert(res[acc.len() as int] == acc2[acc.len() as int]);
            } else {
                let j = choose|j: int|
                    0 <= j < coll_refs(name, body, refs, k + 1, secs, acc2).len() && (#[trigger] coll_refs(
                        name,
                        body,
                        refs,
                        k + 1,
                        secs,
                        acc2,
                    )[j]).0 == name && coll_refs(name, body, refs, k + 1, secs, acc2)[j].1 == refs[m];
                assert(res[j].0 == name);
            }
        }
    }
}

/// A component section whose body uses the name `r`.
pub open spec fn body_uses(s: SectionM, r: Seq<char>) -> bool {
    match s {
        SectionM::Component(body) => refs_nodes(body, Seq::empty()).contains(r),
        _ => false,
    }
}

proof fn lemma_coll_go_complete(
    secs: Seq<(Seq<char>, SectionM)>,
    i: int,
    acc: Seq<(Seq<char>, Seq<char>, nat)>,
)
    requires
        0 <= i,
    ensures
        acc.len() <= coll_go(secs, i, acc).len(),
        forall|j: int| 0 <= j < acc.len() ==> #[trigger] coll_go(secs, i, acc)[j] == acc[j],
        forall|n: int, r: Seq<char>|
            i <= n < secs.len() && #[trigger] body_uses(secs[n].1, r) && kv_get(secs, r) is Some
                ==> exists|j: int|
                0 <= j < coll_go(secs, i, acc).len() && (#[trigger] coll_go(secs, i, acc)[j]).0
                    == secs[n].0 && coll_go(secs, i, acc)[j].1 == r,
    decreases secs.len() - i,
{
    if i < secs.len() {
        let res = coll_go(secs, i, acc);
        match secs[i].1 {
            SectionM::Component(body) => {
                let refs = refs_nodes(body, Seq::empty());
                let acc2 = coll_refs(secs[i].0, body, refs, 0, secs, acc);
                lemma_coll_refs_keeps(secs[i].0, body, refs, 0, secs, acc);
                lemma_coll_go_complete(secs, i + 1, acc2);
                assert(res == coll_go(secs, i + 1, acc2));
                assert forall|j: int| 0 <= j < acc.len() implies #[trigger] res[j] == acc[j] by {
                    assert(res[j] == acc2[j]);
                    assert(acc2[j] == acc[j]);
                }
                assert forall|n: int, r: Seq<char>|
                    i <= n < secs.len() && #[trigger] body_uses(secs[n].1, r) && kv_get(secs, r) is Some
                        implies exists|j: int|
                    0 <= j < res.len() && (#[trigger] res[j]).0 == secs[n].0 && res[j].1 == r by {
                    if n == i {
                        let m = choose|m: int| 0 <= m < refs.len() && refs[m] == r;
                        let j = choose|j: int|
                            0 <= j < acc2.len() && (#[trigger] acc2[j]).0 == secs[i].0 && acc2[j].1
                                == refs[m];
                        assert(res[j] == acc2[j]);
                    }
                }
            },
            _ => {
                lemma_coll_go_complete(secs, i + 1, acc);
                assert(res == coll_go(secs, i + 1, acc));
            },
        }
    }
}

/// Every name that a component's body uses and that is also a section of
/// the same file is reported, with the component's name.
pub proof fn lemma_collisions_complete(f: FileM, n: int, r: Seq<char>)
    requires
        0 <= n < f.sections.len(),
        body_uses(f.sections[n].1, r),
        kv_get(f.sections, r) is Some,
    ensures
        exists|j: int|
            0 <= j < collisions_of(f).len() && (#[trigger] collisions_of(f)[j]).0
                == f.sections[n].0 && collisions_of(f)[j].1 == r,
{
    let e: Seq<(Seq<char>, Seq<char>, nat)> = Seq::empty();
    lemma_coll_go_complete(f.sections, 0, e);
    assert(body_uses(f.sections[n].1, r));
    let c = coll_go(f.sections, 0, e);
    let j = choose|j: int| 0 <= j < c.len() && (#[trigger] c[j]).0 == f.sections[n].0 && c[j].1 == r;
    assert(collisions_of(f)[j] == c[j]);
}

} // verus!

verus! {

// ---------------------------------------------------------------------------
// which files make a project
/// Directories that are never searched for templates: hidden ones, `target`
/// and `node_modules`.
pub open spec fn skipped_dir_of(name: Seq<char>) -> bool {
    crate::text::starts_with(name, "."@) || name == "target"@ || name == "node_modules"@
}

pub fn skipped_dir(name: &str) -> (r: bool)
    ensures
        r == skipped_dir_of(name@),
{
    let n = chars_of(name);
    let dot = chars_of(".");
    crate::text::has_prefix(&n, &dot) || crate::text::str_is(name, "target") || crate::text::str_is(
        name,
        "node_modules",
    )
}

/// A template file: its name ends in `.df`.
pub fn is_template(name: &str) -> (r: bool)
    ensures
        r == crate::text::ends_with(name@, ".df"@),
{
    let n = chars_of(name);
    let df = chars_of(".df");
    crate::text::has_suffix(&n, &df)
}

/// A file's key: its path relative to the project, with `/` between parts.
pub open spec fn key_of_path_of(rel: Seq<char>) -> Seq<char> {
    rel.map_values(|c: char| if c == '\\' { '/' } else { c })
}

pub fn key_of_path(rel: &str) -> (r: String)
    ensures
        r@ == key_of_path_of(rel@),
{
    let n = chars_of(rel);
    let mut out: Vec<char> = Vec::new();
    let mut i: usize = 0;
    while i < n.len()
        invariant
            i <= n@.len(),
            n@ == rel@,
            out@ == key_of_path_of(rel@).take(i as int),
        decreases n@.len() - i,
    {
        out.push(if n[i] == '\\' { '/' } else { n[i] });
        i = i + 1;
        assert(out@ =~= key_of_path_of(rel@).take(i as int));
    }
    assert(out@ =~= key_of_path_of(rel@));
    string_of(&out)
}

/// The kind of a component of a path.
#[derive(Clone, Copy, Debug, PartialEq, Eq, Structural)]
pub enum PartKind {
    /// A prefix or the root: it stays, and `..` never removes it.
    Root,
    /// `.`
    Cur,
    /// `..`
    Parent,
    /// A named directory or file.
    Name,
}

/// The positions of the components that remain when `.` is dropped and each
/// `..` removes the named component before it (none past the root), from the
/// `k`-th component on, after `acc`.
pub open spec fn kept_parts_go(kinds: Seq<PartKind>, k: int, acc: Seq<int>) -> Seq<int>
    decreases kinds.len() - k,
{
    if k < 0 || k >= kinds.len() {
        acc
    } else {
        match kinds[k] {
            PartKind::Cur => kept_parts_go(kinds, k + 1, acc),
            PartKind::Parent => kept_parts_go(
                kinds,
                k + 1,
                if acc.len() > 0 && kinds[acc.last()] == PartKind::Name {
                    acc.drop_last()
                } else {
                    acc
                },
            ),
            _ => kept_parts_go(kinds, k + 1, acc.push(k)),
        }
    }
}

pub open spec fn idx_view(v: Seq<usize>) -> Seq<int> {
    v.map_values(|x: usize| x as int)
}

/// The components of a path that its normal form keeps, by position.
pub fn kept_parts(kinds: &Vec<PartKind>) -> (r: Vec<usize>)
    ensures
        idx_view(r@) == kept_parts_go(kinds@, 0, Seq::empty()),
{
    let mut acc: Vec<usize> = Vec::new();
    let mut k: usize = 0;
    assert(idx_view(acc@) =~= Seq::<int>::empty());
    while k < kinds.len()
        invariant
            k <= kinds@.len(),
            forall|j: int| 0 <= j < acc@.len() ==> #[trigger] acc@[j] < k,
            kept_parts_go(kinds@, k as int, idx_view(acc@)) == kept_parts_go(
                kinds@,
                0,
                Seq::empty(),
            ),
        decreases kinds@.len() - k,
    {
        let ghost a0 = acc@;
        match kinds[k] {
            PartKind::Cur => {},
            PartKind::Parent => {
                if acc.len() > 0 {
                    let last = acc[acc.len() - 1];
                    assert(idx_view(acc@).last() == last as int);
                    if kinds[last] == PartKind::Name {
                        acc.pop();
                        assert(idx_view(acc@) =~= idx_view(a0).drop_last());
                    }
                }
            },
            _ => {
                acc.push(k);
                assert(idx_view(acc@) =~= idx_view(a0).push(k as int));
            },
        }
        k = k + 1;
    }
    acc
}

/// How the output directory stands to the input directory, each given as
/// the components of its absolute path.
#[derive(Clone, Copy, Debug, PartialEq, Eq, Structural)]
pub enum OutputClash {
    /// They are the same directory.
    Same,
    /// The input lies inside the output, so cleaning the output erases it.
    Contains,
}

pub open spec fn output_clash_of(input: Seq<Seq<char>>, output: Seq<Seq<char>>) -> Option<OutputClash> {
    if output == input {
        Some(OutputClash::Same)
    } else if output.len() <= input.len() && input.subrange(0, output.len() as int) == output {
        Some(OutputClash::Contains)
    } else {
        None
    }
}

/// Whether the output directory may be cleaned and written: `None` when it
/// neither is the input directory nor holds it.
pub fn output_clash(input: &Vec<String>, output: &Vec<String>) -> (r: Option<OutputClash>)
    ensures
        r == output_clash_of(strs(input@), strs(output@)),
{
    let ghost i_s = strs(input@);
    let ghost o_s = strs(output@);
    if output.len() > input.len() {
        proof {
            assert(o_s != i_s) by {
                assert(o_s.len() != i_s.len());
            }
        }
        return None;
    }
    let mut k: usize = 0;
    while k < output.len()
        invariant
            k <= output@.len() <= input@.len(),
            i_s == strs(input@),
            o_s == strs(output@),
            forall|j: int| 0 <= j < k ==> #[trigger] i_s[j] == o_s[j],
        decreases output@.len() - k,
    {
        let a = chars_of(input[k].as_str());
        let b = chars_of(output[k].as_str());
        if !crate::text::same(&a, &b) {
            proof {
                assert(i_s[k as int] != o_s[k as int]);
                assert(o_s != i_s);
                assert(i_s.subrange(0, o_s.len() as int)[k as int] != o_s[k as int]);
            }
            return None;
        }
        k = k + 1;
    }
    proof {
        assert(i_s.subrange(0, o_s.len() as int) =~= o_s);
    }
    if output.len() == input.len() {
        proof {
            assert(o_s =~= i_s);
        }
        Some(OutputClash::Same)
    } else {
        proof {
            assert(o_s != i_s) by {
                assert(o_s.len() != i_s.len());
            }
        }
        Some(OutputClash::Contains)
    }
}

} // verus!
