//! From tokens to a syntax tree.
//!
//! Each content line is a chain of nodes; the chain at one indentation level
//! becomes, when the level is closed, a single node whose innermost part holds
//! the lines nested below it. `<:else` chains attach to the `<:if` just before
//! them. Section headers close the current body and open the next.
use vstd::prelude::*;
use crate::ast::{debug_node, debug_nodes, lemma_nodes_view_add, lemma_nodes_view_push, node_debug, nodes_debug, node_view, nodes_view, File, FileM, Node, NodeM, Section, SectionM, Target, TargetM};
use crate::kv::{find_key, kv_find, kv_insert, kv_put, kv_view};
use crate::lexer::{asset_name, is_asset_name, lex, lex_of, toks_view, Tok, TokM};
use crate::text::{chars_of, ends_with, has_suffix, nat_text, push_all, push_str, string_of, trim, trimmed, usize_text};

verus! {

// ---------------------------------------------------------------------------
// nodes and their children
/// The children that new lines attach to: the body of a node, or the `then`
/// branch of an `<:if`; text has none.
pub open spec fn children_of(n: NodeM) -> Option<Seq<NodeM>> {
    match n {
        NodeM::El { children, .. } => Some(children),
        NodeM::Inv { children, .. } => Some(children),
        NodeM::Cond { then_ch, .. } => Some(then_ch),
        NodeM::Loop { children, .. } => Some(children),
        NodeM::ElseMarker { children, .. } => Some(children),
        NodeM::Text { .. } => None,
    }
}

pub open spec fn with_children(n: NodeM, ch: Seq<NodeM>) -> NodeM {
    match n {
        NodeM::El { line, tag, attrs, .. } => NodeM::El { line, tag, attrs, children: ch },
        NodeM::Inv { line, target, props, .. } => NodeM::Inv { line, target, props, children: ch },
        NodeM::Cond { line, cond, else_ch, .. } => NodeM::Cond { line, cond, then_ch: ch, else_ch },
        NodeM::Loop { line, var, expr, .. } => NodeM::Loop { line, var, expr, children: ch },
        NodeM::ElseMarker { line, .. } => NodeM::ElseMarker { line, children: ch },
        NodeM::Text { .. } => n,
    }
}

pub open spec fn attach_child_of(parent: NodeM, child: NodeM) -> Result<NodeM, Seq<char>> {
    match children_of(parent) {
        None => Err(
            "text node cannot contain child elements (parent="@ + node_debug(parent) + " child="@
                + node_debug(child) + ")"@,
        ),
        Some(ch) => Ok(with_children(parent, ch.push(child))),
    }
}

pub open spec fn attach_children_of(parent: NodeM, children: Seq<NodeM>) -> Result<
    NodeM,
    Seq<char>,
> {
    if children.len() == 0 {
        Ok(parent)
    } else {
        match children_of(parent) {
            None => Err(
                "text node cannot contain child elements (parent="@ + node_debug(parent)
                    + " children="@ + nodes_debug(children) + ")"@,
            ),
            Some(ch) => Ok(with_children(parent, ch + children)),
        }
    }
}

/// Nests `acc` into `parts[k-1]`, that into `parts[k-2]`, and so on.
pub open spec fn nest_go(parts: Seq<NodeM>, k: int, acc: NodeM) -> Result<NodeM, Seq<char>>
    decreases k,
{
    if k <= 0 {
        Ok(acc)
    } else {
        match attach_child_of(parts[k - 1], acc) {
            Ok(a) => nest_go(parts, k - 1, a),
            Err(e) => Err(e),
        }
    }
}

/// The node that a chain `parts[0] > ... > parts[n-1]` with the lines `sink`
/// nested below it becomes.
pub open spec fn nest_chain(parts: Seq<NodeM>, sink: Seq<NodeM>) -> Result<NodeM, Seq<char>> {
    match attach_children_of(parts.last(), sink) {
        Ok(acc) => nest_go(parts, parts.len() - 1, acc),
        Err(e) => Err(e),
    }
}

fn text_error(parent: &Node, what: &str, other: &String) -> (r: String)
    ensures
        r@ == "text node cannot contain child elements (parent="@ + node_debug(parent@) + what@
            + other@ + ")"@,
{
    let mut msg: Vec<char> = Vec::new();
    push_str(&mut msg, "text node cannot contain child elements (parent=");
    let d = debug_node(parent);
    push_str(&mut msg, d.as_str());
    push_str(&mut msg, what);
    push_str(&mut msg, other.as_str());
    push_str(&mut msg, ")");
    string_of(&msg)
}

proof fn lemma_add_children(ch: Seq<Node>, more: Seq<Node>)
    ensures
        nodes_view(ch + more) == nodes_view(ch) + nodes_view(more),
{
    lemma_nodes_view_add(ch, more);
}

fn attach_child(parent: Node, child: Node) -> (r: Result<Node, String>)
    ensures
        match r {
            Ok(n) => attach_child_of(parent@, child@) == Ok::<NodeM, Seq<char>>(n@),
            Err(e) => attach_child_of(parent@, child@) == Err::<NodeM, Seq<char>>(e@),
        },
{
    if let Node::Text(_) = &parent {
        let c = debug_node(&child);
        return Err(text_error(&parent, " child=", &c));
    }
    let ghost pv = parent@;
    let ghost cv = child@;
    match parent {
        Node::El(mut e) => {
            proof {
                lemma_nodes_view_push(e.children@, child);
            }
            e.children.push(child);
            Ok(Node::El(e))
        },
        Node::Inv(mut e) => {
            proof {
                lemma_nodes_view_push(e.children@, child);
            }
            e.children.push(child);
            Ok(Node::Inv(e))
        },
        Node::Cond(mut e) => {
            proof {
                lemma_nodes_view_push(e.then_ch@, child);
            }
            e.then_ch.push(child);
            Ok(Node::Cond(e))
        },
        Node::Loop(mut e) => {
            proof {
                lemma_nodes_view_push(e.children@, child);
            }
            e.children.push(child);
            Ok(Node::Loop(e))
        },
        Node::ElseMarker(mut e) => {
            proof {
                lemma_nodes_view_push(e.children@, child);
            }
            e.children.push(child);
            Ok(Node::ElseMarker(e))
        },
        Node::Text(_) => Err(String::new()),
    }
}

fn attach_children(parent: Node, children: Vec<Node>) -> (r: Result<Node, String>)
    ensures
        match r {
            Ok(n) => attach_children_of(parent@, nodes_view(children@)) == Ok::<
                NodeM,
                Seq<char>,
            >(n@),
            Err(e) => attach_children_of(parent@, nodes_view(children@)) == Err::<
                NodeM,
                Seq<char>,
            >(e@),
        },
{
    proof {
        crate::ast::lemma_nodes_view_len(children@);
    }
    if children.len() == 0 {
        return Ok(parent);
    }
    if let Node::Text(_) = &parent {
        let c = debug_nodes(&children);
        return Err(text_error(&parent, " children=", &c));
    }
    let mut children = children;
    match parent {
        Node::El(mut e) => {
            proof {
                lemma_add_children(e.children@, children@);
            }
            e.children.append(&mut children);
            Ok(Node::El(e))
        },
        Node::Inv(mut e) => {
            proof {
                lemma_add_children(e.children@, children@);
            }
            e.children.append(&mut children);
            Ok(Node::Inv(e))
        },
        Node::Cond(mut e) => {
            proof {
                lemma_add_children(e.then_ch@, children@);
            }
            e.then_ch.append(&mut children);
            Ok(Node::Cond(e))
        },
        Node::Loop(mut e) => {
            proof {
                lemma_add_children(e.children@, children@);
            }
            e.children.append(&mut children);
            Ok(Node::Loop(e))
        },
        Node::ElseMarker(mut e) => {
            proof {
                lemma_add_children(e.children@, children@);
            }
            e.children.append(&mut children);
            Ok(Node::ElseMarker(e))
        },
        Node::Text(_) => Err(String::new()),
    }
}

/// Nests a chain and its sink into one node.
fn nest(parts: Vec<Node>, sink: Vec<Node>) -> (r: Result<Node, String>)
    requires
        parts@.len() > 0,
    ensures
        match r {
            Ok(n) => nest_chain(nodes_view(parts@), nodes_view(sink@)) == Ok::<NodeM, Seq<char>>(
                n@,
            ),
            Err(e) => nest_chain(nodes_view(parts@), nodes_view(sink@)) == Err::<
                NodeM,
                Seq<char>,
            >(e@),
        },
{
    proof {
        crate::ast::lemma_nodes_view_len(parts@);
    }
    let ghost pv = nodes_view(parts@);
    let mut rest = parts;
    let last = rest.pop().unwrap();
    assert(last@ == pv.last());
    let mut acc = match attach_children(last, sink) {
        Ok(a) => a,
        Err(e) => {
            return Err(e);
        },
    };
    while rest.len() > 0
        invariant
            pv == nodes_view(parts@),
            pv.len() > 0,
            rest@.len() < pv.len(),
            forall|i: int| 0 <= i < rest@.len() ==> pv[i] == node_view(#[trigger] rest@[i]),
            nest_go(pv, rest@.len() as int, acc@) == nest_chain(pv, nodes_view(sink@)),
        decreases rest@.len(),
    {
        let ghost k = rest@.len() as int;
        let ghost a0 = acc@;
        let p = rest.pop().unwrap();
        assert(p@ == pv[rest@.len() as int]);
        acc = match attach_child(p, acc) {
            Ok(a) => a,
            Err(e) => {
                assert(nest_go(pv, k, a0) == Err::<NodeM, Seq<char>>(e@));
                return Err(e);
            },
        };
    }
    Ok(acc)
}

// ---------------------------------------------------------------------------
// parser state
pub enum ElseRefM {
    Container(nat),
    Level { depth: nat, idx: nat },
}

pub struct FrameM {
    pub parts: Seq<NodeM>,
    pub sink: Seq<NodeM>,
    pub else_ref: Option<ElseRefM>,
}

pub open spec fn empty_frame() -> FrameM {
    FrameM { parts: Seq::empty(), sink: Seq::empty(), else_ref: None }
}

#[derive(Clone, Copy, PartialEq, Eq, Structural)]
pub enum Phase {
    Main,
    Comp,
    Outside,
}

pub struct ParserM {
    pub container: Seq<NodeM>,
    pub levels: Seq<FrameM>,
    pub depth: nat,
    pub main: Seq<NodeM>,
    pub sections: Seq<(Seq<char>, SectionM)>,
    pub phase: Phase,
    pub current_comp: Option<Seq<char>>,
    pub pending_asset: Option<Seq<char>>,
    pub main_done: bool,
}

pub open spec fn parser_init() -> ParserM {
    ParserM {
        container: Seq::empty(),
        levels: seq![empty_frame()],
        depth: 0,
        main: Seq::empty(),
        sections: Seq::empty(),
        phase: Phase::Main,
        current_comp: None,
        pending_asset: None,
        main_done: false,
    }
}

/// Every state the parser reaches has one frame per open level.
pub open spec fn parser_wf(p: ParserM) -> bool {
    p.levels.len() == p.depth + 1
}

pub open spec fn line_msg(line: nat, s: Seq<char>) -> Seq<char> {
    "line "@ + nat_text(line) + ": "@ + s
}

/// An `<:if` whose `else` branch is still empty.
pub open spec fn open_if(n: NodeM) -> bool {
    n matches NodeM::Cond { else_ch, .. } && else_ch.len() == 0
}

pub open spec fn add_else(n: NodeM, ch: Seq<NodeM>) -> NodeM {
    match n {
        NodeM::Cond { line, cond, then_ch, else_ch } => NodeM::Cond {
            line,
            cond,
            then_ch,
            else_ch: else_ch + ch,
        },
        _ => n,
    }
}

pub open spec fn internal_else_root() -> Seq<char> {
    "internal: `<:else` chain did not root in an else node"@
}

pub open spec fn internal_else_target() -> Seq<char> {
    "internal: else target is not an `<:if`"@
}

/// Children that an `<:else` chain contributes to its `<:if`.
pub open spec fn else_children(f: FrameM) -> Result<Seq<NodeM>, Seq<char>> {
    if f.parts.len() == 1 {
        Ok(f.sink)
    } else {
        match nest_chain(f.parts, f.sink) {
            Ok(NodeM::ElseMarker { children, .. }) => Ok(children),
            Ok(_) => Err(internal_else_root()),
            Err(e) => Err(e),
        }
    }
}

/// Closing level `d`: its chain becomes one node of the enclosing level, or
/// the `else` branch of the `<:if` that it refers to.
pub open spec fn finalize_of(p: ParserM, d: nat) -> Result<ParserM, Seq<char>> {
    if d >= p.levels.len() {
        Ok(p)
    } else {
        let f = p.levels[d as int];
        let p1 = ParserM { levels: p.levels.update(d as int, empty_frame()), ..p };
        if f.parts.len() == 0 {
            Ok(p1)
        } else {
            match f.else_ref {
                Some(eref) => match else_children(f) {
                    Err(e) => Err(e),
                    Ok(ch) => match eref {
                        ElseRefM::Container(idx) => if idx < p1.container.len()
                            && p1.container[idx as int] is Cond {
                            Ok(
                                ParserM {
                                    container: p1.container.update(
                                        idx as int,
                                        add_else(p1.container[idx as int], ch),
                                    ),
                                    ..p1
                                },
                            )
                        } else {
                            Err(internal_else_target())
                        },
                        ElseRefM::Level { depth, idx } => if depth < p1.levels.len() && idx
                            < p1.levels[depth as int].sink.len()
                            && p1.levels[depth as int].sink[idx as int] is Cond {
                            let fr = p1.levels[depth as int];
                            Ok(
                                ParserM {
                                    levels: p1.levels.update(
                                        depth as int,
                                        FrameM {
                                            sink: fr.sink.update(
                                                idx as int,
                                                add_else(fr.sink[idx as int], ch),
                                            ),
                                            ..fr
                                        },
                                    ),
                                    ..p1
                                },
                            )
                        } else {
                            Err(internal_else_target())
                        },
                    },
                },
                None => match nest_chain(f.parts, f.sink) {
                    Err(e) => Err(e),
                    Ok(root) => if d == 0 {
                        Ok(ParserM { container: p1.container.push(root), ..p1 })
                    } else {
                        let fr = p1.levels[d - 1];
                        Ok(
                            ParserM {
                                levels: p1.levels.update(
                                    d - 1,
                                    FrameM { sink: fr.sink.push(root), ..fr },
                                ),
                                ..p1
                            },
                        )
                    },
                },
            }
        }
    }
}

/// Closing levels `k-1` down to `0`.
pub open spec fn finalize_down(p: ParserM, k: int) -> Result<ParserM, Seq<char>>
    decreases k,
{
    if k <= 0 {
        Ok(p)
    } else {
        match finalize_of(p, (k - 1) as nat) {
            Ok(p1) => finalize_down(p1, k - 1),
            Err(e) => Err(e),
        }
    }
}

pub open spec fn indent_of(p: ParserM) -> ParserM {
    ParserM { depth: p.depth + 1, levels: p.levels.push(empty_frame()), ..p }
}

pub open spec fn dedent_of(p: ParserM) -> Result<ParserM, Seq<char>> {
    if p.depth == 0 {
        Err(line_msg(0, "unexpected dedent"@))
    } else {
        match finalize_of(p, p.depth) {
            Err(e) => Err(e),
            Ok(p1) => Ok(
                ParserM { depth: (p1.depth - 1) as nat, levels: p1.levels.drop_last(), ..p1 },
            ),
        }
    }
}

/// A content line at the current level.
pub open spec fn chain_of(p: ParserM, nodes: Seq<NodeM>, line: nat) -> Result<ParserM, Seq<char>> {
    if p.phase == Phase::Outside {
        Err(line_msg(line, "content is not inside a section body or main template"@))
    } else if p.depth > 0 && p.levels[p.depth - 1].parts.len() == 0 {
        Err(line_msg(line, "unindented content has no parent node"@))
    } else {
        match finalize_of(p, p.depth) {
            Err(e) => Err(e),
            Ok(p1) => {
                let d = p1.depth;
                if nodes.len() > 0 && nodes[0] is ElseMarker {
                    let tgt = if d == 0 {
                        p1.container
                    } else {
                        p1.levels[d - 1].sink
                    };
                    if tgt.len() == 0 || !open_if(tgt.last()) {
                        Err(line_msg(line, "`<:else` without a matching `<:if`"@))
                    } else {
                        let eref = if d == 0 {
                            ElseRefM::Container((tgt.len() - 1) as nat)
                        } else {
                            ElseRefM::Level { depth: (d - 1) as nat, idx: (tgt.len() - 1) as nat }
                        };
                        Ok(
                            ParserM {
                                levels: p1.levels.update(
                                    d as int,
                                    FrameM {
                                        parts: nodes,
                                        sink: Seq::empty(),
                                        else_ref: Some(eref),
                                    },
                                ),
                                ..p1
                            },
                        )
                    }
                } else {
                    Ok(
                        ParserM {
                            levels: p1.levels.update(
                                d as int,
                                FrameM { parts: nodes, sink: Seq::empty(), else_ref: None },
                            ),
                            ..p1
                        },
                    )
                }
            },
        }
    }
}

/// Ending the current body: the main template or a component.
pub open spec fn close_of(p: ParserM) -> Result<ParserM, Seq<char>> {
    match p.phase {
        Phase::Main => Ok(
            ParserM { main: p.container, container: Seq::empty(), main_done: true, ..p },
        ),
        Phase::Comp => match p.current_comp {
            Some(name) => Ok(
                ParserM {
                    sections: kv_insert(p.sections, name, SectionM::Component(p.container)),
                    container: Seq::empty(),
                    current_comp: None,
                    ..p
                },
            ),
            None => Ok(p),
        },
        Phase::Outside => if p.container.len() > 0 {
            Err("content found between sections"@)
        } else {
            Ok(p)
        },
    }
}

/// A section header.
pub open spec fn section_of(p: ParserM, name: Seq<char>, alias: Option<TargetM>, line: nat) -> Result<
    ParserM,
    Seq<char>,
> {
    match finalize_down(p, p.depth + 1int) {
        Err(e) => Err(e),
        Ok(p1) => match close_of(ParserM { depth: 0, levels: seq![empty_frame()], ..p1 }) {
            Err(e) => Err(e),
            Ok(p3) => if find_key(p3.sections, name) is Some {
                Err(line_msg(line, "duplicate section name `#"@ + name + "`"@))
            } else {
                match alias {
                    Some(t) => Ok(
                        ParserM {
                            sections: kv_insert(p3.sections, name, SectionM::Alias(t)),
                            phase: Phase::Outside,
                            current_comp: None,
                            ..p3
                        },
                    ),
                    None => if asset_name(name) {
                        Ok(
                            ParserM {
                                pending_asset: Some(name),
                                phase: Phase::Outside,
                                current_comp: None,
                                ..p3
                            },
                        )
                    } else {
                        Ok(ParserM { current_comp: Some(name), phase: Phase::Comp, ..p3 })
                    },
                }
            },
        },
    }
}

/// The raw body of the pending asset section.
pub open spec fn raw_of(p: ParserM, text: Seq<char>, line: nat) -> Result<ParserM, Seq<char>> {
    match p.pending_asset {
        Some(name) => Ok(
            ParserM {
                pending_asset: None,
                sections: kv_insert(
                    p.sections,
                    name,
                    SectionM::Asset {
                        name,
                        ext: if ends_with(name, ".css"@) {
                            "css"@
                        } else {
                            "js"@
                        },
                        text: trim(text),
                    },
                ),
                ..p
            },
        ),
        None => Err(line_msg(line, "unexpected raw content: asset section has no pending header"@)),
    }
}

pub open spec fn tok_step(p: ParserM, t: TokM) -> Result<ParserM, Seq<char>> {
    match t {
        TokM::Indent => Ok(indent_of(p)),
        TokM::Dedent => dedent_of(p),
        TokM::Section { name, alias, line } => section_of(p, name, alias, line),
        TokM::Chain { nodes, line } => chain_of(p, nodes, line),
        TokM::Raw { text, line } => raw_of(p, text, line),
    }
}

pub open spec fn run_toks(toks: Seq<TokM>, k: int, p: ParserM) -> Result<ParserM, Seq<char>>
    decreases toks.len() - k,
{
    if k >= toks.len() || k < 0 {
        Ok(p)
    } else {
        match tok_step(p, toks[k]) {
            Ok(p1) => run_toks(toks, k + 1, p1),
            Err(e) => Err(e),
        }
    }
}

/// The end of the source.
pub open spec fn end_of(p: ParserM) -> Result<FileM, Seq<char>> {
    match finalize_down(p, p.depth + 1int) {
        Err(e) => Err(e),
        Ok(p1) => match close_of(p1) {
            Err(e) => Err(e),
            Ok(p2) => {
                let main = if p2.main_done {
                    p2.main
                } else {
                    p2.container
                };
                match p2.pending_asset {
                    Some(name) => Err("asset section `#"@ + name + "` has no body"@),
                    None => Ok(FileM { main, sections: p2.sections }),
                }
            },
        },
    }
}

/// A template file parsed from its source, or the error message.
pub open spec fn parse_of(path: Seq<char>, src: Seq<char>) -> Result<FileM, Seq<char>> {
    match lex_of(src) {
        Err(e) => Err(path + ":"@ + nat_text(e.line) + ": "@ + e.msg),
        Ok(toks) => match run_toks(toks, 0, parser_init()) {
            Err(e) => Err(e),
            Ok(p) => end_of(p),
        },
    }
}

} // verus!

verus! {

// ---------------------------------------------------------------------------
// the parser
#[derive(Clone, Copy)]
enum ElseRef {
    Container(usize),
    Level { depth: usize, idx: usize },
}

impl View for ElseRef {
    type V = ElseRefM;

    closed spec fn view(&self) -> ElseRefM {
        match self {
            ElseRef::Container(i) => ElseRefM::Container(*i as nat),
            ElseRef::Level { depth, idx } => ElseRefM::Level {
                depth: *depth as nat,
                idx: *idx as nat,
            },
        }
    }
}

struct Frame {
    parts: Vec<Node>,
    sink: Vec<Node>,
    else_ref: Option<ElseRef>,
}

impl View for Frame {
    type V = FrameM;

    closed spec fn view(&self) -> FrameM {
        FrameM {
            parts: nodes_view(self.parts@),
            sink: nodes_view(self.sink@),
            else_ref: match self.else_ref {
                Some(e) => Some(e@),
                None => None,
            },
        }
    }
}

impl Frame {
    fn new() -> (f: Frame)
        ensures
            f@ == empty_frame(),
    {
        Frame { parts: Vec::new(), sink: Vec::new(), else_ref: None }
    }
}

spec fn frames_view(s: Seq<Frame>) -> Seq<FrameM> {
    s.map_values(|f: Frame| f@)
}

/// The parser state between tokens.
pub struct Parser {
    container: Vec<Node>,
    levels: Vec<Frame>,
    depth: usize,
    main: Vec<Node>,
    sections: Vec<(String, Section)>,
    phase: Phase,
    current_comp: Option<String>,
    pending_asset: Option<String>,
    main_done: bool,
}

pub open spec fn opt_view(o: Option<String>) -> Option<Seq<char>> {
    match o {
        Some(s) => Some(s@),
        None => None,
    }
}

impl View for Parser {
    type V = ParserM;

    closed spec fn view(&self) -> ParserM {
        ParserM {
            container: nodes_view(self.container@),
            levels: frames_view(self.levels@),
            depth: self.depth as nat,
            main: nodes_view(self.main@),
            sections: kv_view(self.sections@),
            phase: self.phase,
            current_comp: opt_view(self.current_comp),
            pending_asset: opt_view(self.pending_asset),
            main_done: self.main_done,
        }
    }
}

pub open spec fn res_view<T: View>(r: Result<T, String>) -> Result<T::V, Seq<char>> {
    match r {
        Ok(t) => Ok(t@),
        Err(e) => Err(e@),
    }
}

pub open spec fn unit_res(r: Result<(), String>, spec_r: Result<ParserM, Seq<char>>, after: ParserM) -> bool {
    match r {
        Ok(()) => spec_r == Ok::<ParserM, Seq<char>>(after),
        Err(e) => spec_r == Err::<ParserM, Seq<char>>(e@),
    }
}

fn msg_at(line: usize, s: &str) -> (r: String)
    ensures
        r@ == line_msg(line as nat, s@),
{
    let mut m: Vec<char> = Vec::new();
    push_str(&mut m, "line ");
    let d = usize_text(line);
    push_all(&mut m, &d);
    push_str(&mut m, ": ");
    push_str(&mut m, s);
    string_of(&m)
}

fn is_cond(n: &Node) -> (b: bool)
    ensures
        b == (n@ is Cond),
{
    match n {
        Node::Cond(_) => true,
        _ => false,
    }
}

fn is_open_if(n: &Node) -> (b: bool)
    ensures
        b == open_if(n@),
{
    proof {
        crate::ast::lemma_nodes_view_len(
            match n {
                Node::Cond(c) => c.else_ch@,
                _ => Seq::empty(),
            },
        );
    }
    match n {
        Node::Cond(c) => c.else_ch.len() == 0,
        _ => false,
    }
}

fn add_else_exec(n: Node, children: Vec<Node>) -> (r: Node)
    ensures
        r@ == add_else(n@, nodes_view(children@)),
{
    let mut children = children;
    match n {
        Node::Cond(mut c) => {
            proof {
                lemma_add_children(c.else_ch@, children@);
            }
            c.else_ch.append(&mut children);
            Node::Cond(c)
        },
        other => other,
    }
}

fn add_else_at(v: &mut Vec<Node>, idx: usize, children: Vec<Node>)
    requires
        idx < old(v)@.len(),
    ensures
        nodes_view(final(v)@) == nodes_view(old(v)@).update(
            idx as int,
            add_else(nodes_view(old(v)@)[idx as int], nodes_view(children@)),
        ),
{
    proof {
        crate::ast::lemma_nodes_view_len(v@);
    }
    let n = v.remove(idx);
    let ghost nv = n@;
    assert(nv == nodes_view(old(v)@)[idx as int]);
    let n2 = add_else_exec(n, children);
    let ghost n2v = n2@;
    v.insert(idx, n2);
    assert(v@ =~= old(v)@.update(idx as int, n2));
    proof {
        crate::ast::lemma_nodes_view_len(v@);
        crate::ast::lemma_nodes_view_len(old(v)@);
        assert(v@[idx as int] == n2);
        assert(nodes_view(v@)[idx as int] == add_else(nv, nodes_view(children@)));
        assert(nodes_view(v@) =~= nodes_view(old(v)@).update(
            idx as int,
            add_else(nodes_view(old(v)@)[idx as int], nodes_view(children@)),
        ));
    }
}

proof fn lemma_frames_update(s: Seq<Frame>, i: int, f: Frame)
    requires
        0 <= i < s.len(),
    ensures
        frames_view(s.update(i, f)) == frames_view(s).update(i, f@),
{
    assert(frames_view(s.update(i, f)) =~= frames_view(s).update(i, f@));
}

fn take_frame(levels: &mut Vec<Frame>, d: usize) -> (f: Frame)
    requires
        d < old(levels)@.len(),
    ensures
        f@ == frames_view(old(levels)@)[d as int],
        frames_view(final(levels)@) == frames_view(old(levels)@).update(d as int, empty_frame()),
        final(levels)@.len() == old(levels)@.len(),
{
    let f = levels.remove(d);
    levels.insert(d, Frame::new());
    assert(frames_view(levels@) =~= frames_view(old(levels)@).update(d as int, empty_frame()));
    f
}

impl Parser {
    fn new() -> (p: Parser)
        ensures
            p@ == parser_init(),
            parser_wf(p@),
    {
        let p = Parser {
            container: Vec::new(),
            levels: vec![Frame::new()],
            depth: 0,
            main: Vec::new(),
            sections: Vec::new(),
            phase: Phase::Main,
            current_comp: None,
            pending_asset: None,
            main_done: false,
        };
        assert(frames_view(p.levels@) =~= seq![empty_frame()]);
        assert(kv_view(p.sections@) =~= Seq::<(Seq<char>, SectionM)>::empty());
        p
    }

    fn indent(&mut self)
        requires
            parser_wf(old(self)@),
            old(self).depth < usize::MAX,
        ensures
            final(self)@ == indent_of(old(self)@),
            parser_wf(final(self)@),
    {
        self.depth = self.depth + 1;
        self.levels.push(Frame::new());
        assert(frames_view(self.levels@) =~= frames_view(old(self).levels@).push(empty_frame()));
    }

    fn finalize_level(&mut self, d: usize) -> (r: Result<(), String>)
        ensures
            unit_res(r, finalize_of(old(self)@, d as nat), final(self)@),
            final(self)@.depth == old(self)@.depth,
            final(self)@.levels.len() == old(self)@.levels.len(),
    {
        if d >= self.levels.len() {
            return Ok(());
        }
        let ghost p1 = ParserM { levels: self@.levels.update(d as int, empty_frame()), ..self@ };
        let frame = take_frame(&mut self.levels, d);
        assert(self@ == p1);
        if frame.parts.len() == 0 {
            proof {
                crate::ast::lemma_nodes_view_len(frame.parts@);
            }
            return Ok(());
        }
        proof {
            crate::ast::lemma_nodes_view_len(frame.parts@);
        }
        match frame.else_ref {
            Some(eref) => {
                let ghost fm = frame@;
                let children: Vec<Node> = if frame.parts.len() == 1 {
                    frame.sink
                } else {
                    match nest(frame.parts, frame.sink) {
                        Ok(Node::ElseMarker(stub)) => stub.children,
                        Ok(_) => {
                            return Err(string_of(&chars_of("internal: `<:else` chain did not root in an else node")));
                        },
                        Err(e) => {
                            return Err(e);
                        },
                    }
                };
                assert(else_children(fm) == Ok::<Seq<NodeM>, Seq<char>>(nodes_view(children@)));
                match eref {
                    ElseRef::Container(idx) => {
                        if idx < self.container.len() && is_cond(&self.container[idx]) {
                            proof {
                                crate::ast::lemma_nodes_view_len(self.container@);
                            }
                            add_else_at(&mut self.container, idx, children);
                            Ok(())
                        } else {
                            proof {
                                crate::ast::lemma_nodes_view_len(self.container@);
                            }
                            Err(string_of(&chars_of("internal: else target is not an `<:if`")))
                        }
                    },
                    ElseRef::Level { depth, idx } => {
                        if depth < self.levels.len() {
                            let ghost before = self@;
                            let mut fr = take_frame(&mut self.levels, depth);
                            proof {
                                crate::ast::lemma_nodes_view_len(fr.sink@);
                            }
                            if idx < fr.sink.len() && is_cond(&fr.sink[idx]) {
                                add_else_at(&mut fr.sink, idx, children);
                                proof {
                                    lemma_frames_update(self.levels@, depth as int, fr);
                                }
                                self.levels.set(depth, fr);
                                assert(frames_view(self.levels@) =~= before.levels.update(
                                    depth as int,
                                    FrameM {
                                        sink: before.levels[depth as int].sink.update(
                                            idx as int,
                                            add_else(
                                                before.levels[depth as int].sink[idx as int],
                                                nodes_view(children@),
                                            ),
                                        ),
                                        ..before.levels[depth as int]
                                    },
                                ));
                                Ok(())
                            } else {
                                Err(string_of(&chars_of("internal: else target is not an `<:if`")))
                            }
                        } else {
                            Err(string_of(&chars_of("internal: else target is not an `<:if`")))
                        }
                    },
                }
            },
            None => {
                let root = match nest(frame.parts, frame.sink) {
                    Ok(r) => r,
                    Err(e) => {
                        return Err(e);
                    },
                };
                if d == 0 {
                    proof {
                        lemma_nodes_view_push(self.container@, root);
                    }
                    self.container.push(root);
                } else {
                    let ghost before = self@;
                    let mut fr = take_frame(&mut self.levels, d - 1);
                    proof {
                        lemma_nodes_view_push(fr.sink@, root);
                    }
                    fr.sink.push(root);
                    proof {
                        lemma_frames_update(self.levels@, d - 1, fr);
                    }
                    self.levels.set(d - 1, fr);
                    assert(frames_view(self.levels@) =~= before.levels.update(
                        d - 1,
                        FrameM {
                            sink: before.levels[d - 1].sink.push(root@),
                            ..before.levels[d - 1]
                        },
                    ));
                }
                Ok(())
            },
        }
    }
}

} // verus!

verus! {

impl Parser {
    fn dedent(&mut self, line: usize) -> (r: Result<(), String>)
        requires
            parser_wf(old(self)@),
            line == 0,
        ensures
            unit_res(r, dedent_of(old(self)@), final(self)@),
            r is Ok ==> parser_wf(final(self)@),
    {
        if self.depth == 0 {
            return Err(msg_at(line, "unexpected dedent"));
        }
        match self.finalize_level(self.depth) {
            Err(e) => {
                return Err(e);
            },
            Ok(()) => {},
        }
        let ghost p1 = self@;
        self.depth = self.depth - 1;
        self.levels.pop();
        assert(frames_view(self.levels@) =~= p1.levels.drop_last());
        Ok(())
    }

    fn finalize_down(&mut self, k: usize) -> (r: Result<(), String>)
        requires
            k <= old(self).levels@.len(),
        ensures
            unit_res(r, finalize_down(old(self)@, k as int), final(self)@),
            final(self)@.depth == old(self)@.depth,
            final(self)@.levels.len() == old(self)@.levels.len(),
    {
        let mut j = k;
        while j > 0
            invariant
                j <= self.levels@.len(),
                self@.depth == old(self)@.depth,
                self@.levels.len() == old(self)@.levels.len(),
                finalize_down(self@, j as int) == finalize_down(old(self)@, k as int),
            decreases j,
        {
            match self.finalize_level(j - 1) {
                Err(e) => {
                    return Err(e);
                },
                Ok(()) => {},
            }
            j = j - 1;
        }
        Ok(())
    }

    fn chain(&mut self, nodes: Vec<Node>, line: usize) -> (r: Result<(), String>)
        requires
            parser_wf(old(self)@),
        ensures
            unit_res(r, chain_of(old(self)@, nodes_view(nodes@), line as nat), final(self)@),
            r is Ok ==> parser_wf(final(self)@),
    {
        if self.phase == Phase::Outside {
            return Err(msg_at(line, "content is not inside a section body or main template"));
        }
        if self.depth > 0 {
            proof {
                crate::ast::lemma_nodes_view_len(self.levels@[self.depth - 1].parts@);
            }
            if self.levels[self.depth - 1].parts.len() == 0 {
                return Err(msg_at(line, "unindented content has no parent node"));
            }
        }
        match self.finalize_level(self.depth) {
            Err(e) => {
                return Err(e);
            },
            Ok(()) => {},
        }
        let d = self.depth;
        proof {
            crate::ast::lemma_nodes_view_len(nodes@);
        }
        let is_else = nodes.len() > 0 && match &nodes[0] {
            Node::ElseMarker(_) => true,
            _ => false,
        };
        let ghost nv = nodes_view(nodes@);
        if is_else {
            let n = if d == 0 {
                self.container.len()
            } else {
                self.levels[d - 1].sink.len()
            };
            let ok = if n == 0 {
                false
            } else if d == 0 {
                is_open_if(&self.container[n - 1])
            } else {
                is_open_if(&self.levels[d - 1].sink[n - 1])
            };
            proof {
                crate::ast::lemma_nodes_view_len(self.container@);
                if d > 0 {
                    crate::ast::lemma_nodes_view_len(self.levels@[d - 1].sink@);
                }
            }
            if !ok {
                return Err(msg_at(line, "`<:else` without a matching `<:if`"));
            }
            let eref = if d == 0 {
                ElseRef::Container(n - 1)
            } else {
                ElseRef::Level { depth: d - 1, idx: n - 1 }
            };
            let f = Frame { parts: nodes, sink: Vec::new(), else_ref: Some(eref) };
            proof {
                lemma_frames_update(self.levels@, d as int, f);
            }
            self.levels.set(d, f);
        } else {
            let f = Frame { parts: nodes, sink: Vec::new(), else_ref: None };
            proof {
                lemma_frames_update(self.levels@, d as int, f);
            }
            self.levels.set(d, f);
        }
        Ok(())
    }

    fn close_container(&mut self) -> (r: Result<(), String>)
        ensures
            unit_res(r, close_of(old(self)@), final(self)@),
            final(self)@.depth == old(self)@.depth,
            final(self)@.levels == old(self)@.levels,
    {
        match self.phase {
            Phase::Main => {
                let mut body: Vec<Node> = Vec::new();
                std::mem::swap(&mut body, &mut self.container);
                self.main = body;
                self.main_done = true;
                assert(nodes_view(self.container@) =~= Seq::<NodeM>::empty());
                Ok(())
            },
            Phase::Comp => {
                match self.current_comp.take() {
                    Some(name) => {
                        let mut body: Vec<Node> = Vec::new();
                        std::mem::swap(&mut body, &mut self.container);
                        kv_put(&mut self.sections, name, Section::Component(body));
                        assert(nodes_view(self.container@) =~= Seq::<NodeM>::empty());
                        Ok(())
                    },
                    None => Ok(()),
                }
            },
            Phase::Outside => {
                if self.container.len() > 0 {
                    proof {
                        crate::ast::lemma_nodes_view_len(self.container@);
                    }
                    Err(string_of(&chars_of("content found between sections")))
                } else {
                    proof {
                        crate::ast::lemma_nodes_view_len(self.container@);
                    }
                    Ok(())
                }
            },
        }
    }
}

} // verus!

verus! {

impl Parser {
    fn section(&mut self, name: String, alias: Option<Target>, line: usize) -> (r: Result<
        (),
        String,
    >)
        requires
            parser_wf(old(self)@),
        ensures
            unit_res(
                r,
                section_of(
                    old(self)@,
                    name@,
                    match alias {
                        Some(t) => Some(t@),
                        None => None,
                    },
                    line as nat,
                ),
                final(self)@,
            ),
            r is Ok ==> parser_wf(final(self)@),
    {
        match self.finalize_down(self.levels.len()) {
            Err(e) => {
                return Err(e);
            },
            Ok(()) => {},
        }
        self.depth = 0;
        self.levels = vec![Frame::new()];
        assert(frames_view(self.levels@) =~= seq![empty_frame()]);
        match self.close_container() {
            Err(e) => {
                return Err(e);
            },
            Ok(()) => {},
        }
        let nc = chars_of(name.as_str());
        if kv_find(&self.sections, &nc).is_some() {
            let mut m: Vec<char> = Vec::new();
            push_str(&mut m, "duplicate section name `#");
            push_all(&mut m, &nc);
            push_str(&mut m, "`");
            let s = string_of(&m);
            return Err(msg_at(line, s.as_str()));
        }
        match alias {
            Some(target) => {
                kv_put(&mut self.sections, name, Section::Alias(target));
                self.phase = Phase::Outside;
                self.current_comp = None;
                Ok(())
            },
            None => {
                if is_asset_name(&nc) {
                    self.pending_asset = Some(name);
                    self.phase = Phase::Outside;
                    self.current_comp = None;
                } else {
                    self.current_comp = Some(name);
                    self.phase = Phase::Comp;
                }
                Ok(())
            },
        }
    }

    fn raw(&mut self, text: String, line: usize) -> (r: Result<(), String>)
        ensures
            unit_res(r, raw_of(old(self)@, text@, line as nat), final(self)@),
            final(self)@.depth == old(self)@.depth,
            final(self)@.levels == old(self)@.levels,
    {
        match self.pending_asset.take() {
            Some(name) => {
                let nc = chars_of(name.as_str());
                let css = chars_of(".css");
                let ext = if has_suffix(&nc, &css) {
                    string_of(&chars_of("css"))
                } else {
                    string_of(&chars_of("js"))
                };
                let tc = chars_of(text.as_str());
                let t = trimmed(&tc);
                let key = string_of(&nc);
                kv_put(&mut self.sections, key, Section::Asset { name, ext, text: string_of(&t) });
                Ok(())
            },
            None => Err(
                msg_at(line, "unexpected raw content: asset section has no pending header"),
            ),
        }
    }

    fn finish(self) -> (r: Result<File, String>)
        requires
            parser_wf(self@),
        ensures
            res_view(r) == end_of(self@),
    {
        let mut p = self;
        match p.finalize_down(p.levels.len()) {
            Err(e) => {
                return Err(e);
            },
            Ok(()) => {},
        }
        match p.close_container() {
            Err(e) => {
                return Err(e);
            },
            Ok(()) => {},
        }
        if !p.main_done {
            let mut body: Vec<Node> = Vec::new();
            std::mem::swap(&mut body, &mut p.container);
            p.main = body;
        }
        match p.pending_asset {
            Some(name) => {
                let mut m: Vec<char> = Vec::new();
                push_str(&mut m, "asset section `#");
                push_str(&mut m, name.as_str());
                push_str(&mut m, "` has no body");
                Err(string_of(&m))
            },
            None => Ok(File { main: p.main, sections: p.sections }),
        }
    }
}

fn step(p: &mut Parser, t: Tok) -> (r: Result<(), String>)
    requires
        parser_wf(old(p)@),
    ensures
        unit_res(r, tok_step(old(p)@, t@), final(p)@),
        r is Ok ==> parser_wf(final(p)@),
{
    match t {
        Tok::Indent => {
            let n = p.levels.len();
            assert(p@.levels.len() == n);
            p.indent();
            Ok(())
        },
        Tok::Dedent => p.dedent(0),
        Tok::Section { name, alias, line } => p.section(name, alias, line),
        Tok::Chain { nodes, line } => p.chain(nodes, line),
        Tok::Raw { text, line } => p.raw(text, line),
    }
}

/// Parses a template file; `path` names it in lexing errors.
pub fn parse(path: &str, src: &str) -> (r: Result<File, String>)
    requires
        src@.len() * 4 <= usize::MAX,
    ensures
        res_view(r) == parse_of(path@, src@),
{
    let toks = match lex(src) {
        Ok(t) => t,
        Err(e) => {
            let mut m: Vec<char> = Vec::new();
            push_str(&mut m, path);
            push_str(&mut m, ":");
            let d = usize_text(e.line);
            push_all(&mut m, &d);
            push_str(&mut m, ": ");
            push_str(&mut m, e.msg.as_str());
            return Err(string_of(&m));
        },
    };
    let ghost tv = toks_view(toks@);
    assert(tv.len() == toks.len());
    // reverse, so that popping yields the tokens in order
    let mut toks = toks;
    let mut rev: Vec<Tok> = Vec::new();
    while toks.len() > 0
        invariant
            tv.len() == toks@.len() + rev@.len(),
            tv.len() <= usize::MAX,
            forall|i: int| 0 <= i < toks@.len() ==> #[trigger] toks@[i]@ == tv[i],
            forall|i: int|
                0 <= i < rev@.len() ==> #[trigger] rev@[i]@ == tv[tv.len() - 1 - i],
        decreases toks@.len(),
    {
        let t = toks.pop().unwrap();
        rev.push(t);
    }
    let mut p = Parser::new();
    let mut k: usize = 0;
    while rev.len() > 0
        invariant
            tv.len() == k + rev@.len(),
            tv.len() <= usize::MAX,
            lex_of(src@) == Ok::<Seq<TokM>, crate::lexer::LexErrorM>(tv),
            forall|i: int|
                0 <= i < rev@.len() ==> #[trigger] rev@[i]@ == tv[tv.len() - 1 - i],
            parser_wf(p@),
            run_toks(tv, k as int, p@) == run_toks(tv, 0, parser_init()),
        decreases rev@.len(),
    {
        let t = rev.pop().unwrap();
        assert(t@ == tv[k as int]);
        match step(&mut p, t) {
            Err(e) => {
                return Err(e);
            },
            Ok(()) => {},
        }
        k = k + 1;
    }
    p.finish()
}

} // verus!

verus! {

// ---------------------------------------------------------------------------
// laws
proof fn lemma_finalize_keeps(p: ParserM, d: nat)
    ensures
        finalize_of(p, d) matches Ok(p1) ==> p1.sections == p.sections,
{
}

proof fn lemma_finalize_down_keeps(p: ParserM, k: int)
    ensures
        finalize_down(p, k) matches Ok(p1) ==> p1.sections == p.sections,
    decreases k,
{
    if k > 0 {
        lemma_finalize_keeps(p, (k - 1) as nat);
        match finalize_of(p, (k - 1) as nat) {
            Ok(p1) => lemma_finalize_down_keeps(p1, k - 1),
            Err(_) => {},
        }
    }
}

proof fn lemma_close_sorted(p: ParserM)
    requires
        crate::kv::sorted_keys(p.sections),
    ensures
        close_of(p) matches Ok(p1) ==> crate::kv::sorted_keys(p1.sections),
{
    if p.phase == Phase::Comp {
        if let Some(name) = p.current_comp {
            crate::kv::lemma_kv_insert(p.sections, name, SectionM::Component(p.container));
        }
    }
}

proof fn lemma_step_sorted(p: ParserM, t: TokM)
    requires
        crate::kv::sorted_keys(p.sections),
    ensures
        tok_step(p, t) matches Ok(p1) ==> crate::kv::sorted_keys(p1.sections),
{
    match t {
        TokM::Indent => {},
        TokM::Dedent => {
            lemma_finalize_keeps(p, p.depth);
        },
        TokM::Section { name, alias, line } => {
            lemma_finalize_down_keeps(p, p.depth + 1int);
            match finalize_down(p, p.depth + 1int) {
                Ok(p1) => {
                    let p2 = ParserM { depth: 0, levels: seq![empty_frame()], ..p1 };
                    lemma_close_sorted(p2);
                    match close_of(p2) {
                        Ok(p3) => {
                            if let Some(tg) = alias {
                                crate::kv::lemma_kv_insert(p3.sections, name, SectionM::Alias(tg));
                            }
                        },
                        Err(_) => {},
                    }
                },
                Err(_) => {},
            }
        },
        TokM::Chain { nodes, line } => {
            lemma_finalize_keeps(p, p.depth);
        },
        TokM::Raw { text, line } => {
            if let Some(name) = p.pending_asset {
                crate::kv::lemma_kv_insert(
                    p.sections,
                    name,
                    SectionM::Asset {
                        name,
                        ext: if ends_with(name, ".css"@) {
                            "css"@
                        } else {
                            "js"@
                        },
                        text: trim(text),
                    },
                );
            }
        },
    }
}

proof fn lemma_run_sorted(toks: Seq<TokM>, k: int, p: ParserM)
    requires
        crate::kv::sorted_keys(p.sections),
    ensures
        run_toks(toks, k, p) matches Ok(p1) ==> crate::kv::sorted_keys(p1.sections),
    decreases toks.len() - k,
{
    if 0 <= k < toks.len() {
        lemma_step_sorted(p, toks[k]);
        match tok_step(p, toks[k]) {
            Ok(p1) => lemma_run_sorted(toks, k + 1, p1),
            Err(_) => {},
        }
    }
}

/// A parsed file's sections are in strictly increasing key order, so no
/// name stands twice.
pub proof fn lemma_parse_sections_sorted(path: Seq<char>, src: Seq<char>)
    ensures
        parse_of(path, src) matches Ok(f) ==> crate::kv::sorted_keys(f.sections),
{
    if let Ok(toks) = lex_of(src) {
        lemma_run_sorted(toks, 0, parser_init());
        if let Ok(p) = run_toks(toks, 0, parser_init()) {
            lemma_finalize_down_keeps(p, p.depth + 1int);
            if let Ok(p1) = finalize_down(p, p.depth + 1int) {
                lemma_close_sorted(p1);
            }
        }
    }
}

} // verus!

verus! {

/// Chaining a child onto a node with `>` appends it to the node's own
/// children; for an `<:if>` that is its then-branch, and its else-branch
/// stays as it was. A text node takes no child.
pub proof fn lemma_attach_child_law(parent: NodeM, child: NodeM)
    ensures
        parent matches NodeM::Cond { line, cond, then_ch, else_ch } ==> attach_child_of(parent, child)
            == Ok::<NodeM, Seq<char>>(
            NodeM::Cond { line, cond, then_ch: then_ch.push(child), else_ch },
        ),
        parent matches NodeM::El { line, tag, attrs, children } ==> attach_child_of(parent, child)
            == Ok::<NodeM, Seq<char>>(NodeM::El { line, tag, attrs, children: children.push(child) }),
        parent matches NodeM::Inv { line, target, props, children } ==> attach_child_of(
            parent,
            child,
        ) == Ok::<NodeM, Seq<char>>(
            NodeM::Inv { line, target, props, children: children.push(child) },
        ),
        parent matches NodeM::Loop { line, var, expr, children } ==> attach_child_of(parent, child)
            == Ok::<NodeM, Seq<char>>(NodeM::Loop { line, var, expr, children: children.push(child) }),
        parent is Text ==> attach_child_of(parent, child) is Err,
{
}

/// Attaching a block of children appends them, in order, to the node's own
/// children; for an `<:if>` to its then-branch, its else-branch untouched.
pub proof fn lemma_attach_children_law(parent: NodeM, children: Seq<NodeM>)
    requires
        children.len() > 0,
    ensures
        parent matches NodeM::Cond { line, cond, then_ch, else_ch } ==> attach_children_of(
            parent,
            children,
        ) == Ok::<NodeM, Seq<char>>(NodeM::Cond { line, cond, then_ch: then_ch + children, else_ch }),
        parent matches NodeM::El { line, tag, attrs, children: ch } ==> attach_children_of(
            parent,
            children,
        ) == Ok::<NodeM, Seq<char>>(NodeM::El { line, tag, attrs, children: ch + children }),
        parent matches NodeM::Loop { line, var, expr, children: ch } ==> attach_children_of(
            parent,
            children,
        ) == Ok::<NodeM, Seq<char>>(NodeM::Loop { line, var, expr, children: ch + children }),
        parent is Text ==> attach_children_of(parent, children) is Err,
{
}

} // verus!
