//! Syntax tree of template files, with its mathematical model.
use vstd::prelude::*;
use crate::number::{Number, NumberM};

verus! {

/// What an invocation or an alias points at.
#[derive(Debug)]
pub enum Target {
    /// `Name`: a section of the same file.
    Local(String),
    /// `{name}`: a section of the same file, reached through an alias.
    Var(String),
    /// `./path#Section`: a section of another file, or a raw file.
    File { path: String, section: Option<String> },
}

pub enum TargetM {
    Local(Seq<char>),
    Var(Seq<char>),
    File { path: Seq<char>, section: Option<Seq<char>> },
}

impl View for Target {
    type V = TargetM;

    open spec fn view(&self) -> TargetM {
        match self {
            Target::Local(s) => TargetM::Local(s@),
            Target::Var(s) => TargetM::Var(s@),
            Target::File { path, section } => TargetM::File {
                path: path@,
                section: match section {
                    Some(s) => Some(s@),
                    None => None,
                },
            },
        }
    }
}

/// A piece of interpolated text: literal text or a `{reference}`.
#[derive(Debug)]
pub enum Chunk {
    Lit(String),
    Ref(String),
}

pub enum ChunkM {
    Lit(Seq<char>),
    Ref(Seq<char>),
}

impl View for Chunk {
    type V = ChunkM;

    open spec fn view(&self) -> ChunkM {
        match self {
            Chunk::Lit(s) => ChunkM::Lit(s@),
            Chunk::Ref(s) => ChunkM::Ref(s@),
        }
    }
}

pub open spec fn chunks_view(s: Seq<Chunk>) -> Seq<ChunkM> {
    s.map_values(|c: Chunk| c@)
}

/// The value of an attribute or a prop as written.
#[derive(Debug)]
pub enum RawValue {
    Str(Vec<Chunk>),
    Bool(bool),
    Null,
    Num(Number),
    Ref(String),
}

pub enum RawValueM {
    Str(Seq<ChunkM>),
    Bool(bool),
    Null,
    Num(NumberM),
    Ref(Seq<char>),
}

impl View for RawValue {
    type V = RawValueM;

    open spec fn view(&self) -> RawValueM {
        match self {
            RawValue::Str(c) => RawValueM::Str(chunks_view(c@)),
            RawValue::Bool(b) => RawValueM::Bool(*b),
            RawValue::Null => RawValueM::Null,
            RawValue::Num(n) => RawValueM::Num(n@),
            RawValue::Ref(s) => RawValueM::Ref(s@),
        }
    }
}

/// `key` or `key=value`.
#[derive(Debug)]
pub struct Attr {
    pub key: String,
    pub value: Option<RawValue>,
}

pub struct AttrM {
    pub key: Seq<char>,
    pub value: Option<RawValueM>,
}

impl View for Attr {
    type V = AttrM;

    open spec fn view(&self) -> AttrM {
        AttrM {
            key: self.key@,
            value: match self.value {
                Some(v) => Some(v@),
                None => None,
            },
        }
    }
}

pub open spec fn attrs_view(s: Seq<Attr>) -> Seq<AttrM> {
    s.map_values(|a: Attr| a@)
}

#[derive(Debug)]
pub struct ElseStub {
    pub line: usize,
    pub children: Vec<Node>,
}

#[derive(Debug)]
pub struct ElNode {
    pub line: usize,
    pub tag: String,
    pub attrs: Vec<Attr>,
    pub children: Vec<Node>,
}

#[derive(Debug)]
pub struct InvNode {
    pub line: usize,
    pub target: Target,
    pub props: Vec<Attr>,
    pub children: Vec<Node>,
}

#[derive(Debug)]
pub struct CondNode {
    pub line: usize,
    pub cond: String,
    pub then_ch: Vec<Node>,
    pub else_ch: Vec<Node>,
}

#[derive(Debug)]
pub struct LoopNode {
    pub line: usize,
    pub var: String,
    pub expr: String,
    pub children: Vec<Node>,
}

#[derive(Debug)]
pub struct TextNode {
    pub line: usize,
    pub chunks: Vec<Chunk>,
}

/// A node of a template.
#[derive(Debug)]
pub enum Node {
    El(ElNode),
    Inv(InvNode),
    Cond(CondNode),
    Loop(LoopNode),
    Text(TextNode),
    ElseMarker(ElseStub),
}

pub enum NodeM {
    El { line: nat, tag: Seq<char>, attrs: Seq<AttrM>, children: Seq<NodeM> },
    Inv { line: nat, target: TargetM, props: Seq<AttrM>, children: Seq<NodeM> },
    Cond { line: nat, cond: Seq<char>, then_ch: Seq<NodeM>, else_ch: Seq<NodeM> },
    Loop { line: nat, var: Seq<char>, expr: Seq<char>, children: Seq<NodeM> },
    Text { line: nat, chunks: Seq<ChunkM> },
    ElseMarker { line: nat, children: Seq<NodeM> },
}

pub open spec fn node_view(n: Node) -> NodeM
    decreases n,
{
    match n {
        Node::El(e) => NodeM::El {
            line: e.line as nat,
            tag: e.tag@,
            attrs: attrs_view(e.attrs@),
            children: nodes_view(e.children@),
        },
        Node::Inv(e) => NodeM::Inv {
            line: e.line as nat,
            target: e.target@,
            props: attrs_view(e.props@),
            children: nodes_view(e.children@),
        },
        Node::Cond(e) => NodeM::Cond {
            line: e.line as nat,
            cond: e.cond@,
            then_ch: nodes_view(e.then_ch@),
            else_ch: nodes_view(e.else_ch@),
        },
        Node::Loop(e) => NodeM::Loop {
            line: e.line as nat,
            var: e.var@,
            expr: e.expr@,
            children: nodes_view(e.children@),
        },
        Node::Text(e) => NodeM::Text { line: e.line as nat, chunks: chunks_view(e.chunks@) },
        Node::ElseMarker(e) => NodeM::ElseMarker {
            line: e.line as nat,
            children: nodes_view(e.children@),
        },
    }
}

pub open spec fn nodes_view(s: Seq<Node>) -> Seq<NodeM>
    decreases s,
{
    if s.len() == 0 {
        Seq::empty()
    } else {
        nodes_view(s.drop_last()).push(node_view(s.last()))
    }
}

impl View for Node {
    type V = NodeM;

    open spec fn view(&self) -> NodeM {
        node_view(*self)
    }
}

} // verus!

verus! {

pub proof fn lemma_nodes_view_push(s: Seq<Node>, x: Node)
    ensures
        nodes_view(s.push(x)) == nodes_view(s).push(node_view(x)),
{
    assert(s.push(x).drop_last() =~= s);
}

pub proof fn lemma_nodes_view_len(s: Seq<Node>)
    ensures
        nodes_view(s).len() == s.len(),
        forall|i: int|
            #![trigger nodes_view(s)[i]]
            #![trigger s[i]]
            0 <= i < s.len() ==> nodes_view(s)[i] == node_view(s[i]),
    decreases s.len(),
{
    if s.len() > 0 {
        lemma_nodes_view_len(s.drop_last());
        assert forall|i: int| 0 <= i < s.len() implies nodes_view(s)[i] == node_view(
            s[i],
        ) by {
            if i < s.len() - 1 {
                assert(s.drop_last()[i] == s[i]);
            }
        }
    }
}

pub proof fn lemma_nodes_view_add(a: Seq<Node>, b: Seq<Node>)
    ensures
        nodes_view(a + b) == nodes_view(a) + nodes_view(b),
    decreases b.len(),
{
    if b.len() == 0 {
        assert(a + b =~= a);
        assert(nodes_view(a) + nodes_view(b) =~= nodes_view(a));
    } else {
        lemma_nodes_view_add(a, b.drop_last());
        assert((a + b).drop_last() =~= a + b.drop_last());
        assert((a + b).last() == b.last());
        assert(nodes_view(a) + nodes_view(b) =~= (nodes_view(a) + nodes_view(b.drop_last())).push(
            node_view(b.last()),
        ));
    }
}

} // verus!

verus! {

/// A named section of a template file.
#[derive(Debug)]
pub enum Section {
    /// A component body.
    Component(Vec<Node>),
    /// `#name > target`.
    Alias(Target),
    /// `#name.css` or `#name.js` with its raw text.
    Asset { name: String, ext: String, text: String },
}

pub enum SectionM {
    Component(Seq<NodeM>),
    Alias(TargetM),
    Asset { name: Seq<char>, ext: Seq<char>, text: Seq<char> },
}

impl View for Section {
    type V = SectionM;

    open spec fn view(&self) -> SectionM {
        match self {
            Section::Component(b) => SectionM::Component(nodes_view(b@)),
            Section::Alias(t) => SectionM::Alias(t@),
            Section::Asset { name, ext, text } => SectionM::Asset {
                name: name@,
                ext: ext@,
                text: text@,
            },
        }
    }
}

/// A parsed template file: its main template and its sections, by name.
#[derive(Debug)]
pub struct File {
    pub main: Vec<Node>,
    pub sections: Vec<(String, Section)>,
}

pub struct FileM {
    pub main: Seq<NodeM>,
    pub sections: Seq<(Seq<char>, SectionM)>,
}

impl View for File {
    type V = FileM;

    open spec fn view(&self) -> FileM {
        FileM { main: nodes_view(self.main@), sections: crate::kv::kv_view(self.sections@) }
    }
}

/// The line a node was written on.
pub open spec fn line_of(n: NodeM) -> nat {
    match n {
        NodeM::El { line, .. } => line,
        NodeM::Inv { line, .. } => line,
        NodeM::Cond { line, .. } => line,
        NodeM::Loop { line, .. } => line,
        NodeM::Text { line, .. } => line,
        NodeM::ElseMarker { line, .. } => line,
    }
}

impl Node {
    /// The line the node was written on.
    pub fn line(&self) -> (r: usize)
        ensures
            r as nat == line_of(self@),
    {
        match self {
            Node::El(n) => n.line,
            Node::Inv(n) => n.line,
            Node::Cond(n) => n.line,
            Node::Loop(n) => n.line,
            Node::Text(n) => n.line,
            Node::ElseMarker(n) => n.line,
        }
    }

    /// The list that nested lines are added to: the children of an element,
    /// an invocation, a loop or an `<:else`, the `then` branch of a
    /// condition; a text node has none.
    pub fn children_mut(&mut self) -> (r: Option<&mut Vec<Node>>)
        ensures
            r is None <==> *old(self) is Text,
            match *old(self) {
                Node::El(n) => r matches Some(c) && *c == n.children && *final(self) == Node::El(
                    ElNode { children: *final(c), ..n },
                ),
                Node::Inv(n) => r matches Some(c) && *c == n.children && *final(self) == Node::Inv(
                    InvNode { children: *final(c), ..n },
                ),
                Node::Cond(n) => r matches Some(c) && *c == n.then_ch && *final(self) == Node::Cond(
                    CondNode { then_ch: *final(c), ..n },
                ),
                Node::Loop(n) => r matches Some(c) && *c == n.children && *final(self)
                    == Node::Loop(LoopNode { children: *final(c), ..n }),
                Node::ElseMarker(n) => r matches Some(c) && *c == n.children && *final(self)
                    == Node::ElseMarker(ElseStub { children: *final(c), ..n }),
                Node::Text(_) => *final(self) == *old(self),
            },
    {
        match self {
            Node::El(n) => Some(&mut n.children),
            Node::Inv(n) => Some(&mut n.children),
            Node::Cond(n) => Some(&mut n.then_ch),
            Node::Loop(n) => Some(&mut n.children),
            Node::ElseMarker(n) => Some(&mut n.children),
            Node::Text(_) => None,
        }
    }
}

/// What `format!("{:?}", node)` prints for a node.
pub uninterp spec fn node_debug(n: NodeM) -> Seq<char>;

/// What `format!("{:?}", nodes)` prints for a list of nodes.
pub uninterp spec fn nodes_debug(s: Seq<NodeM>) -> Seq<char>;

/// `format!("{:?}", n)` with the derived `Debug` of `Node`; the contract names
/// the text and says only that it depends on the node alone.
#[verifier::external_body]
pub(crate) fn debug_node(n: &Node) -> (s: String)
    ensures
        s@ == node_debug(n@),
{
    format!("{:?}", n)
}

/// `format!("{:?}", v)` with the derived `Debug` of `Vec<Node>`; the contract
/// names the text and says only that it depends on the nodes alone.
#[verifier::external_body]
pub(crate) fn debug_nodes(v: &Vec<Node>) -> (s: String)
    ensures
        s@ == nodes_debug(nodes_view(v@)),
{
    format!("{:?}", v)
}

} // verus!
