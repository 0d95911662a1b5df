//! Rendering a page to HTML: components, aliases, references, loops and
//! conditions, with the styles and scripts that the page pulls in.
//!
//! Files other than templates (data files and raw assets) are read by the
//! caller: the compiler holds what has been read so far, and rendering asks
//! for a file it has not seen yet with `RenderError::NeedFile`.
use vstd::prelude::*;
use crate::ast::{Attr, AttrM, Chunk, ChunkM, File, FileM, Node, NodeM, RawValue, RawValueM, Section, SectionM, Target, TargetM};
use crate::compiler::{base_dir, base_dir_of, document_of, file_key_of, resolve_file_key, split_file_ref, split_file_ref_of, split_segments, split_segments_of, strip_braces, strip_braces_of, target_label, target_label_of, wrap_document, Seg, SegM};
use crate::data::{collapse_of, copy_value, field_of, index_of, text_of, truthy_of, Value, ValueM};
use crate::kdl::{kdl_of, parse_kdl};
use crate::kv::{find_key, kv_find, kv_get, kv_insert, kv_put, kv_view};
use crate::lexer::{file_ref, is_file_ref};
use crate::text::{chars_of, ends_with, has_suffix, nat_text, push_all, push_str, string_of};

verus! {

// ---------------------------------------------------------------------------
// the compiler and its model
/// A file read from disk on request: its text, or why it could not be read.
#[derive(Debug)]
pub enum FileText {
    Read(String),
    Unreadable(String),
}

impl View for FileText {
    type V = Result<Seq<char>, Seq<char>>;

    open spec fn view(&self) -> Result<Seq<char>, Seq<char>> {
        match self {
            FileText::Read(t) => Ok(t@),
            FileText::Unreadable(e) => Err(e@),
        }
    }
}

/// The parsed template files of a project, by key, and the other files read
/// so far, by key.
pub struct Compiler {
    pub files: Vec<(String, File)>,
    pub loaded: Vec<(String, FileText)>,
}

pub struct CompilerM {
    pub files: Seq<(Seq<char>, FileM)>,
    pub loaded: Seq<(Seq<char>, Result<Seq<char>, Seq<char>>)>,
}

impl View for Compiler {
    type V = CompilerM;

    open spec fn view(&self) -> CompilerM {
        CompilerM { files: kv_view(self.files@), loaded: kv_view(self.loaded@) }
    }
}

/// Every file read so far is small enough to be parsed as data.
pub open spec fn loaded_ok(c: CompilerM) -> bool {
    forall|i: int|
        0 <= i < c.loaded.len() ==> match #[trigger] c.loaded[i].1 {
            Ok(t) => 2 * t.len() + 2 < usize::MAX,
            Err(_) => true,
        }
}

/// Why a page could not be rendered: an error of the templates, or a file
/// that has to be read first.
#[derive(Debug)]
pub enum RenderError {
    Failed(String),
    NeedFile(String),
}

pub enum RErrM {
    Failed(Seq<char>),
    NeedFile(Seq<char>),
}

impl View for RenderError {
    type V = RErrM;

    open spec fn view(&self) -> RErrM {
        match self {
            RenderError::Failed(m) => RErrM::Failed(m@),
            RenderError::NeedFile(k) => RErrM::NeedFile(k@),
        }
    }
}

/// The styles and scripts collected while rendering, and which
/// (file, section) pairs have already contributed.
pub struct BundleM {
    pub css: Seq<Seq<char>>,
    pub js: Seq<Seq<char>>,
    pub seen: Seq<(Seq<char>, Seq<char>)>,
}

pub open spec fn empty_bundle() -> BundleM {
    BundleM { css: Seq::empty(), js: Seq::empty(), seen: Seq::empty() }
}

/// Adds an asset once per (file, section): `css` goes to the styles, any
/// other extension to the scripts.
pub open spec fn bundle_add(
    b: BundleM,
    file: Seq<char>,
    section: Seq<char>,
    ext: Seq<char>,
    text: Seq<char>,
) -> BundleM {
    if b.seen.contains((file, section)) {
        b
    } else if ext == "css"@ {
        BundleM { css: b.css.push(text), js: b.js, seen: b.seen.push((file, section)) }
    } else {
        BundleM { css: b.css, js: b.js.push(text), seen: b.seen.push((file, section)) }
    }
}

/// The asset sections of a file, from the `i`-th on, added in key order.
pub open spec fn assets_go(
    b: BundleM,
    key: Seq<char>,
    secs: Seq<(Seq<char>, SectionM)>,
    i: int,
) -> BundleM
    decreases secs.len() - i,
{
    if i < 0 || i >= secs.len() {
        b
    } else {
        match secs[i].1 {
            SectionM::Asset { ext, text, .. } => assets_go(
                bundle_add(b, key, secs[i].0, ext, text),
                key,
                secs,
                i + 1,
            ),
            _ => assets_go(b, key, secs, i + 1),
        }
    }
}

/// `parts.join(sep)`.
pub open spec fn join_with(parts: Seq<Seq<char>>, sep: Seq<char>) -> Seq<char>
    decreases parts.len(),
{
    if parts.len() == 0 {
        Seq::empty()
    } else if parts.len() == 1 {
        parts[0]
    } else {
        join_with(parts.drop_last(), sep) + sep + parts.last()
    }
}

/// Decimal text of an integer.
pub open spec fn int_text(n: int) -> Seq<char> {
    if n < 0 {
        "-"@ + nat_text((-n) as nat)
    } else {
        nat_text(n as nat)
    }
}

// ---------------------------------------------------------------------------
// sizes, section ids and the recursion bound
/// Size of a node: what rendering it can recurse into without entering
/// another section.
pub open spec fn nsize(n: NodeM) -> nat
    decreases n,
{
    match n {
        NodeM::El { attrs, children, .. } => 1 + attrs.len() + nslist(children),
        NodeM::Inv { props, children, .. } => 1 + props.len() + nslist(children),
        NodeM::Cond { then_ch, else_ch, .. } => 1 + nslist(then_ch) + nslist(else_ch),
        NodeM::Loop { children, .. } => 1 + nslist(children),
        NodeM::Text { .. } => 1,
        NodeM::ElseMarker { children, .. } => 1 + nslist(children),
    }
}

pub open spec fn nslist(s: Seq<NodeM>) -> nat
    decreases s,
{
    if s.len() == 0 {
        0
    } else {
        nslist(s.drop_last()) + nsize(s.last())
    }
}

pub proof fn lemma_nsize_le(s: Seq<NodeM>, i: int)
    requires
        0 <= i < s.len(),
    ensures
        nsize(s[i]) <= nslist(s),
    decreases s.len(),
{
    if i < s.len() - 1 {
        lemma_nsize_le(s.drop_last(), i);
        assert(s.drop_last()[i] == s[i]);
    }
}

/// The id under which a section sits on the stack of sections being
/// expanded.
pub open spec fn sec_id(fk: Seq<char>, name: Seq<char>) -> Seq<char> {
    fk + "#"@ + name
}

pub open spec fn file_ids(fk: Seq<char>, secs: Seq<(Seq<char>, SectionM)>) -> Seq<Seq<char>> {
    secs.map_values(|e: (Seq<char>, SectionM)| sec_id(fk, e.0))
}

/// The ids of all sections of all files.
pub open spec fn all_ids(files: Seq<(Seq<char>, FileM)>) -> Seq<Seq<char>>
    decreases files.len(),
{
    if files.len() == 0 {
        Seq::empty()
    } else {
        all_ids(files.drop_last()) + file_ids(files.last().0, files.last().1.sections)
    }
}

/// How many sections can be on the stack at once.
pub open spec fn id_limit(c: CompilerM) -> int {
    all_ids(c.files).len() as int
}

pub open spec fn room(c: CompilerM, st: Seq<Seq<char>>) -> int {
    id_limit(c) - st.len()
}

/// The stack holds ids of sections of the project, each at most once.
pub open spec fn stack_ok(c: CompilerM, st: Seq<Seq<char>>) -> bool {
    &&& st.no_duplicates()
    &&& forall|i: int| 0 <= i < st.len() ==> all_ids(c.files).contains(#[trigger] st[i])
}

pub open spec fn recursion_msg(st: Seq<Seq<char>>, id: Seq<char>) -> Seq<char> {
    "recursive component invocation detected: "@ + join_with(st, " > "@) + " > "@ + id
}

/// Entering a section that is already being expanded is refused. (The
/// second condition never holds on a stack that `stack_ok` describes; it
/// bounds the recursion.)
pub open spec fn guard_of(c: CompilerM, st: Seq<Seq<char>>, id: Seq<char>) -> Option<Seq<char>> {
    if st.contains(id) || st.len() >= id_limit(c) {
        Some(recursion_msg(st, id))
    } else {
        None
    }
}

// ---------------------------------------------------------------------------
// references
pub open spec fn field_msg(expr: Seq<char>, name: Seq<char>) -> Seq<char> {
    "reference `"@ + expr + "`: no field `"@ + name + "`"@
}

pub open spec fn index_msg(expr: Seq<char>, n: int) -> Seq<char> {
    "reference `"@ + expr + "`: index `"@ + int_text(n) + "` out of bounds"@
}

/// Follows the steps of a reference from a value.
pub open spec fn walk_segs(v: ValueM, segs: Seq<SegM>, i: int, expr: Seq<char>) -> Result<
    ValueM,
    Seq<char>,
>
    decreases segs.len() - i,
{
    if i < 0 || i >= segs.len() {
        Ok(v)
    } else {
        match segs[i] {
            SegM::Field(name) => match field_of(v, name) {
                Some(w) => walk_segs(w, segs, i + 1, expr),
                None => Err(field_msg(expr, name)),
            },
            SegM::Index(n) => match index_of(v, n) {
                Some(w) => walk_segs(w, segs, i + 1, expr),
                None => Err(index_msg(expr, n)),
            },
        }
    }
}

pub open spec fn unknown_file_msg(fk: Seq<char>) -> Seq<char> {
    "unknown file `"@ + fk + "`"@
}

/// A data file, by a reference from the file `fk`, parsed.
pub open spec fn load_data_of(c: CompilerM, fk: Seq<char>, reference: Seq<char>) -> Result<
    ValueM,
    RErrM,
> {
    let key = file_key_of(base_dir_of(fk), reference);
    match kv_get(c.loaded, key) {
        None => Err(RErrM::NeedFile(key)),
        Some(Err(e)) => Err(RErrM::Failed("cannot load data file `"@ + key + "`: "@ + e)),
        Some(Ok(src)) => match kdl_of(src) {
            Ok(v) => Ok(v),
            Err(e) => Err(RErrM::Failed("error parsing `"@ + key + "`: "@ + e)),
        },
    }
}

/// The items a loop runs over: a list's items, or a true value alone.
pub open spec fn loop_items(v: ValueM) -> Seq<ValueM> {
    match v {
        ValueM::Lst(l) => l,
        _ => if truthy_of(v) {
            seq![v]
        } else {
            Seq::empty()
        },
    }
}

pub open spec fn else_msg() -> Seq<char> {
    "internal: unexpanded `<:else` node reached the renderer"@
}

pub open spec fn child_msg(t: TargetM) -> Seq<char> {
    "component `"@ + target_label_of(t) + "` does not accept child content"@
}

pub open spec fn dup_prop_msg(key: Seq<char>, name: Seq<char>) -> Seq<char> {
    "duplicate prop `"@ + key + "` on component `#"@ + name + "`"@
}

pub open spec fn unknown_component_msg(name: Seq<char>, fk: Seq<char>) -> Seq<char> {
    "unknown component `#"@ + name + "` in `"@ + fk + "`"@
}

pub open spec fn unresolved_alias_msg(name: Seq<char>, fk: Seq<char>) -> Seq<char> {
    "unresolved alias `{"@ + name + "}` in `"@ + fk + "`"@
}

/// A raw asset file, by its key, added to the bundle.
pub open spec fn read_asset_of(
    c: CompilerM,
    b: BundleM,
    key: Seq<char>,
    path: Seq<char>,
    ext: Seq<char>,
) -> Result<(BundleM, Seq<char>), RErrM> {
    match kv_get(c.loaded, key) {
        None => Err(RErrM::NeedFile(key)),
        Some(Err(e)) => Err(RErrM::Failed("cannot load asset `"@ + key + "`: "@ + e)),
        Some(Ok(t)) => Ok((bundle_add(b, key, path, ext, t), Seq::empty())),
    }
}

/// A reference to a file that is not a template: a raw asset, by extension.
pub open spec fn raw_file_of(
    c: CompilerM,
    b: BundleM,
    key: Seq<char>,
    path: Seq<char>,
) -> Result<(BundleM, Seq<char>), RErrM> {
    if ends_with(path, ".df"@) {
        Err(
            RErrM::Failed(
                "referenced Dreamfish file `"@ + path + "` does not exist (expected `"@ + key
                    + "`)"@,
            ),
        )
    } else if ends_with(path, ".css"@) {
        read_asset_of(c, b, key, path, "css"@)
    } else if ends_with(path, ".js"@) {
        read_asset_of(c, b, key, path, "js"@)
    } else {
        Err(
            RErrM::Failed(
                "cannot include raw asset `"@ + path + "`: unsupported extension"@,
            ),
        )
    }
}

// ---------------------------------------------------------------------------
// rendering
// Every function takes the project `c`, the stack `st` of sections being
// expanded and the bundle `b`, and gives the new bundle with its output or
// value. On success the stack is as it was.
/// The nodes from the `i`-th on, one after another.
pub open spec fn nodes_r(
    c: CompilerM,
    st: Seq<Seq<char>>,
    b: BundleM,
    nodes: Seq<NodeM>,
    i: int,
    env: Seq<(Seq<char>, ValueM)>,
    fk: Seq<char>,
) -> Result<(BundleM, Seq<char>), RErrM>
    decreases room(c, st), nslist(nodes), 10int, nodes.len() - i,
{
    if i < 0 || i >= nodes.len() {
        Ok((b, Seq::empty()))
    } else {
        proof {
            lemma_nsize_le(nodes, i);
        }
        match node_r(c, st, b, nodes[i], env, fk) {
            Err(e) => Err(e),
            Ok((b1, o1)) => match nodes_r(c, st, b1, nodes, i + 1, env, fk) {
                Err(e) => Err(e),
                Ok((b2, o2)) => Ok((b2, o1 + o2)),
            },
        }
    }
}

/// One node.
pub open spec fn node_r(
    c: CompilerM,
    st: Seq<Seq<char>>,
    b: BundleM,
    node: NodeM,
    env: Seq<(Seq<char>, ValueM)>,
    fk: Seq<char>,
) -> Result<(BundleM, Seq<char>), RErrM>
    decreases room(c, st), nsize(node), 9int, 0int,
{
    match node {
        NodeM::El { tag, attrs, children, .. } => if tag == "br"@ {
            Ok((b, "<br/>"@))
        } else {
            match attrs_r(c, st, b, attrs, 0, env, fk) {
                Err(e) => Err(e),
                Ok((b1, a)) => match nodes_r(c, st, b1, children, 0, env, fk) {
                    Err(e) => Err(e),
                    Ok((b2, ch)) => Ok((b2, "<"@ + tag + a + ">"@ + ch + "</"@ + tag + ">"@)),
                },
            }
        },
        NodeM::Inv { target, props, children, .. } => if children.len() > 0 {
            Err(RErrM::Failed(child_msg(target)))
        } else {
            target_r(c, st, b, fk, target, props, env)
        },
        NodeM::Cond { cond, then_ch, else_ch, .. } => match ref_r(c, st, b, cond, env, fk) {
            Err(e) => Err(e),
            Ok((b1, v)) => if truthy_of(v) {
                nodes_r(c, st, b1, then_ch, 0, env, fk)
            } else {
                nodes_r(c, st, b1, else_ch, 0, env, fk)
            },
        },
        NodeM::Loop { var, expr, children, .. } => match ref_r(c, st, b, expr, env, fk) {
            Err(e) => Err(e),
            Ok((b1, v)) => items_r(c, st, b1, loop_items(v), 0, var, children, env, fk),
        },
        NodeM::Text { chunks, .. } => chunks_r(c, st, b, chunks, 0, env, fk),
        NodeM::ElseMarker { .. } => Err(RErrM::Failed(else_msg())),
    }
}

/// The attributes from the `i`-th on, each as ` key` or ` key="value"`.
pub open spec fn attrs_r(
    c: CompilerM,
    st: Seq<Seq<char>>,
    b: BundleM,
    attrs: Seq<AttrM>,
    i: int,
    env: Seq<(Seq<char>, ValueM)>,
    fk: Seq<char>,
) -> Result<(BundleM, Seq<char>), RErrM>
    decreases room(c, st), attrs.len(), 8int, attrs.len() - i,
{
    if i < 0 || i >= attrs.len() {
        Ok((b, Seq::empty()))
    } else {
        let a = attrs[i];
        match a.value {
            None => match attrs_r(c, st, b, attrs, i + 1, env, fk) {
                Err(e) => Err(e),
                Ok((b2, rest)) => Ok((b2, " "@ + a.key + rest)),
            },
            Some(raw) => match raw_r(c, st, b, raw, env, fk) {
                Err(e) => Err(e),
                Ok((b1, v)) => match attrs_r(c, st, b1, attrs, i + 1, env, fk) {
                    Err(e) => Err(e),
                    Ok((b2, rest)) => Ok(
                        (b2, " "@ + a.key + "=\""@ + text_of(v) + "\""@ + rest),
                    ),
                },
            },
        }
    }
}

/// The value of an attribute or a prop.
pub open spec fn raw_r(
    c: CompilerM,
    st: Seq<Seq<char>>,
    b: BundleM,
    raw: RawValueM,
    env: Seq<(Seq<char>, ValueM)>,
    fk: Seq<char>,
) -> Result<(BundleM, ValueM), RErrM>
    decreases room(c, st), 0nat, 7int, 0int,
{
    match raw {
        RawValueM::Bool(x) => Ok((b, ValueM::Bool(x))),
        RawValueM::Num(n) => Ok((b, ValueM::Num(n))),
        RawValueM::Null => Ok((b, ValueM::Null)),
        RawValueM::Str(chunks) => match chunks_r(c, st, b, chunks, 0, env, fk) {
            Err(e) => Err(e),
            Ok((b1, s)) => Ok((b1, ValueM::Str(s))),
        },
        RawValueM::Ref(expr) => ref_r(c, st, b, expr, env, fk),
    }
}

/// Interpolated text from the `i`-th chunk on.
pub open spec fn chunks_r(
    c: CompilerM,
    st: Seq<Seq<char>>,
    b: BundleM,
    chunks: Seq<ChunkM>,
    i: int,
    env: Seq<(Seq<char>, ValueM)>,
    fk: Seq<char>,
) -> Result<(BundleM, Seq<char>), RErrM>
    decreases room(c, st), 0nat, 6int, chunks.len() - i,
{
    if i < 0 || i >= chunks.len() {
        Ok((b, Seq::empty()))
    } else {
        match chunks[i] {
            ChunkM::Lit(t) => match chunks_r(c, st, b, chunks, i + 1, env, fk) {
                Err(e) => Err(e),
                Ok((b2, rest)) => Ok((b2, t + rest)),
            },
            ChunkM::Ref(expr) => match ref_r(c, st, b, expr, env, fk) {
                Err(e) => Err(e),
                Ok((b1, v)) => match chunks_r(c, st, b1, chunks, i + 1, env, fk) {
                    Err(e) => Err(e),
                    Ok((b2, rest)) => Ok((b2, text_of(v) + rest)),
                },
            },
        }
    }
}

/// The end of a reference: its steps from the base value, then `_args`
/// collapsed.
pub open spec fn finish_ref(b: BundleM, v: ValueM, segs: Seq<SegM>, expr: Seq<char>) -> Result<
    (BundleM, ValueM),
    RErrM,
> {
    match walk_segs(v, segs, 0, expr) {
        Err(m) => Err(RErrM::Failed(m)),
        Ok(w) => Ok((b, collapse_of(w))),
    }
}

/// A `{reference}`: a data file, a variable or prop, or a section of the
/// current file, followed by its steps.
pub open spec fn ref_r(
    c: CompilerM,
    st: Seq<Seq<char>>,
    b: BundleM,
    expr0: Seq<char>,
    env: Seq<(Seq<char>, ValueM)>,
    fk: Seq<char>,
) -> Result<(BundleM, ValueM), RErrM>
    decreases room(c, st), 0nat, 5int, 0int,
{
    let expr = strip_braces_of(expr0);
    if expr.len() == 0 {
        Err(RErrM::Failed("empty reference expression"@))
    } else if file_ref(expr) {
        match split_file_ref_of(expr) {
            Err(m) => Err(RErrM::Failed(m)),
            Ok((path, segs)) => match load_data_of(c, fk, path) {
                Err(e) => Err(e),
                Ok(v) => finish_ref(b, v, segs, expr),
            },
        }
    } else {
        let (root, segs) = split_segments_of(expr);
        match kv_get(env, root) {
            Some(v) => finish_ref(b, v, segs, expr),
            None => match kv_get(c.files, fk) {
                None => Err(RErrM::Failed(unknown_file_msg(fk))),
                Some(f) => match kv_get(f.sections, root) {
                    None => Err(RErrM::Failed("unresolved reference `"@ + expr + "`"@)),
                    Some(sec) => match section_value_r(c, st, b, fk, root, sec) {
                        Err(e) => Err(e),
                        Ok((b1, v)) => finish_ref(b1, v, segs, expr),
                    },
                },
            },
        }
    }
}

/// An alias straight to a `.kdl` file, which stands for the parsed data.
pub open spec fn data_alias(t: TargetM) -> Option<Seq<char>> {
    match t {
        TargetM::File { path, section: None } => if ends_with(path, ".kdl"@) {
            Some(path)
        } else {
            None
        },
        _ => None,
    }
}

/// The value of a section named by a reference.
pub open spec fn section_value_r(
    c: CompilerM,
    st: Seq<Seq<char>>,
    b: BundleM,
    fk: Seq<char>,
    name: Seq<char>,
    sec: SectionM,
) -> Result<(BundleM, ValueM), RErrM>
    decreases room(c, st), 0nat, 4int, 0int,
{
    match sec {
        SectionM::Asset { text, .. } => Ok((b, ValueM::Str(text))),
        SectionM::Alias(target) => match data_alias(target) {
            Some(path) => match load_data_of(c, fk, path) {
                Err(e) => Err(e),
                Ok(v) => Ok((b, v)),
            },
            None => match target_r(c, st, b, fk, target, Seq::empty(), Seq::empty()) {
                Err(e) => Err(e),
                Ok((b1, o)) => Ok((b1, ValueM::Str(o))),
            },
        },
        SectionM::Component(body) => match comp_r(c, st, b, fk, name, body, Seq::empty()) {
            Err(e) => Err(e),
            Ok((b1, o)) => Ok((b1, ValueM::Str(o))),
        },
    }
}

/// A component body, rendered with the section on the stack and its file's
/// assets added.
pub open spec fn comp_r(
    c: CompilerM,
    st: Seq<Seq<char>>,
    b: BundleM,
    fk: Seq<char>,
    name: Seq<char>,
    body: Seq<NodeM>,
    env: Seq<(Seq<char>, ValueM)>,
) -> Result<(BundleM, Seq<char>), RErrM>
    decreases room(c, st), 0nat, 0int, 0int,
{
    let id = sec_id(fk, name);
    match guard_of(c, st, id) {
        Some(m) => Err(RErrM::Failed(m)),
        None => {
            let b1 = match kv_get(c.files, fk) {
                Some(f) => assets_go(b, fk, f.sections, 0),
                None => b,
            };
            nodes_r(c, st.push(id), b1, body, 0, env, fk)
        },
    }
}

/// What an invocation or an alias points at, expanded.
pub open spec fn target_r(
    c: CompilerM,
    st: Seq<Seq<char>>,
    b: BundleM,
    fk: Seq<char>,
    target: TargetM,
    props: Seq<AttrM>,
    env: Seq<(Seq<char>, ValueM)>,
) -> Result<(BundleM, Seq<char>), RErrM>
    decreases room(c, st), props.len(), 3int, 0int,
{
    match target {
        TargetM::Local(name) => invoke_r(c, st, b, fk, name, props, env),
        TargetM::Var(name) => match kv_get(c.files, fk) {
            None => Err(RErrM::Failed(unknown_file_msg(fk))),
            Some(f) => match kv_get(f.sections, name) {
                Some(SectionM::Alias(sub)) => {
                    let id = sec_id(fk, name);
                    match guard_of(c, st, id) {
                        Some(m) => Err(RErrM::Failed(m)),
                        None => target_r(c, st.push(id), b, fk, sub, props, env),
                    }
                },
                Some(SectionM::Component(_)) => invoke_r(c, st, b, fk, name, props, env),
                Some(SectionM::Asset { ext, text, .. }) => Ok(
                    (bundle_add(b, fk, name, ext, text), Seq::empty()),
                ),
                None => Err(RErrM::Failed(unresolved_alias_msg(name, fk))),
            },
        },
        TargetM::File { path, section } => {
            let key = file_key_of(base_dir_of(fk), path);
            match kv_get(c.files, key) {
                Some(_) => match section {
                    None => Err(
                        RErrM::Failed("file reference `"@ + path + "` needs a `#section`"@),
                    ),
                    Some(s) => invoke_r(c, st, b, key, s, props, env),
                },
                None => raw_file_of(c, b, key, path),
            }
        },
    }
}

/// A section invoked by name, with props.
pub open spec fn invoke_r(
    c: CompilerM,
    st: Seq<Seq<char>>,
    b: BundleM,
    fk: Seq<char>,
    name: Seq<char>,
    props: Seq<AttrM>,
    env: Seq<(Seq<char>, ValueM)>,
) -> Result<(BundleM, Seq<char>), RErrM>
    decreases room(c, st), props.len(), 2int, 0int,
{
    match kv_get(c.files, fk) {
        None => Err(RErrM::Failed(unknown_file_msg(fk))),
        Some(f) => match kv_get(f.sections, name) {
            None => Err(RErrM::Failed(unknown_component_msg(name, fk))),
            Some(SectionM::Component(body)) => match props_r(
                c,
                st,
                b,
                props,
                0,
                env,
                fk,
                name,
                Seq::empty(),
            ) {
                Err(e) => Err(e),
                Ok((b1, env2)) => comp_r(c, st, b1, fk, name, body, env2),
            },
            Some(SectionM::Alias(sub)) => {
                let id = sec_id(fk, name);
                match guard_of(c, st, id) {
                    Some(m) => Err(RErrM::Failed(m)),
                    None => target_r(c, st.push(id), b, fk, sub, props, env),
                }
            },
            Some(SectionM::Asset { ext, text, .. }) => Ok(
                (bundle_add(b, fk, name, ext, text), Seq::empty()),
            ),
        },
    }
}

/// The props of an invocation from the `i`-th on, added to `env2`; a bare
/// prop is `true`, and a prop given twice is an error.
pub open spec fn props_r(
    c: CompilerM,
    st: Seq<Seq<char>>,
    b: BundleM,
    props: Seq<AttrM>,
    i: int,
    env: Seq<(Seq<char>, ValueM)>,
    fk: Seq<char>,
    name: Seq<char>,
    env2: Seq<(Seq<char>, ValueM)>,
) -> Result<(BundleM, Seq<(Seq<char>, ValueM)>), RErrM>
    decreases room(c, st), props.len(), 1int, props.len() - i,
{
    if i < 0 || i >= props.len() {
        Ok((b, env2))
    } else {
        let a = props[i];
        let raw = match a.value {
            Some(v) => v,
            None => RawValueM::Bool(true),
        };
        match raw_r(c, st, b, raw, env, fk) {
            Err(e) => Err(e),
            Ok((b1, v)) => if kv_get(env2, a.key) is Some {
                Err(RErrM::Failed(dup_prop_msg(a.key, name)))
            } else {
                props_r(c, st, b1, props, i + 1, env, fk, name, kv_insert(env2, a.key, v))
            },
        }
    }
}

/// A loop body once per item from the `i`-th on, with the item bound.
pub open spec fn items_r(
    c: CompilerM,
    st: Seq<Seq<char>>,
    b: BundleM,
    items: Seq<ValueM>,
    i: int,
    var: Seq<char>,
    children: Seq<NodeM>,
    env: Seq<(Seq<char>, ValueM)>,
    fk: Seq<char>,
) -> Result<(BundleM, Seq<char>), RErrM>
    decreases room(c, st), nslist(children), 11int, items.len() - i,
{
    if i < 0 || i >= items.len() {
        Ok((b, Seq::empty()))
    } else {
        match nodes_r(c, st, b, children, 0, kv_insert(env, var, items[i]), fk) {
            Err(e) => Err(e),
            Ok((b1, o1)) => match items_r(c, st, b1, items, i + 1, var, children, env, fk) {
                Err(e) => Err(e),
                Ok((b2, o2)) => Ok((b2, o1 + o2)),
            },
        }
    }
}

/// A page: its assets, its main template, and the document around it.
pub open spec fn page_of(c: CompilerM, st: Seq<Seq<char>>, b: BundleM, key: Seq<char>) -> Result<
    (BundleM, Seq<char>),
    RErrM,
> {
    match kv_get(c.files, key) {
        None => Err(RErrM::Failed("page file `"@ + key + "` not found"@)),
        Some(f) => match nodes_r(c, st, assets_go(b, key, f.sections, 0), f.main, 0, Seq::empty(), key) {
            Err(e) => Err(e),
            Ok((b2, body)) => Ok(
                (b2, document_of(body, join_with(b2.css, "\n"@), join_with(b2.js, "\n"@))),
            ),
        },
    }
}

} // verus!

verus! {

// ---------------------------------------------------------------------------
// what is written before an error
// Each of these mirrors the rendering function of the same stem and gives
// the text that rendering has written to the output when it fails: what the
// earlier parts produced, then what the failing part wrote before its own
// error. Where rendering succeeds the value is of no use.
/// Written by the nodes from the `i`-th on before an error.
pub open spec fn nodes_w(
    c: CompilerM,
    st: Seq<Seq<char>>,
    b: BundleM,
    nodes: Seq<NodeM>,
    i: int,
    env: Seq<(Seq<char>, ValueM)>,
    fk: Seq<char>,
) -> Seq<char>
    decreases room(c, st), nslist(nodes), 10int, nodes.len() - i,
{
    if i < 0 || i >= nodes.len() {
        Seq::empty()
    } else {
        proof {
            lemma_nsize_le(nodes, i);
        }
        match node_r(c, st, b, nodes[i], env, fk) {
            Err(_) => node_w(c, st, b, nodes[i], env, fk),
            Ok((b1, o1)) => o1 + nodes_w(c, st, b1, nodes, i + 1, env, fk),
        }
    }
}

/// Written by one node before an error.
pub open spec fn node_w(
    c: CompilerM,
    st: Seq<Seq<char>>,
    b: BundleM,
    node: NodeM,
    env: Seq<(Seq<char>, ValueM)>,
    fk: Seq<char>,
) -> Seq<char>
    decreases room(c, st), nsize(node), 9int, 0int,
{
    match node {
        NodeM::El { tag, attrs, children, .. } => if tag == "br"@ {
            Seq::empty()
        } else {
            match attrs_r(c, st, b, attrs, 0, env, fk) {
                Err(_) => "<"@ + tag + attrs_w(c, st, b, attrs, 0, env, fk),
                Ok((b1, a)) => "<"@ + tag + a + ">"@ + nodes_w(c, st, b1, children, 0, env, fk),
            }
        },
        NodeM::Inv { target, props, children, .. } => if children.len() > 0 {
            Seq::empty()
        } else {
            target_w(c, st, b, fk, target, props, env)
        },
        NodeM::Cond { cond, then_ch, else_ch, .. } => match ref_r(c, st, b, cond, env, fk) {
            Err(_) => Seq::empty(),
            Ok((b1, v)) => if truthy_of(v) {
                nodes_w(c, st, b1, then_ch, 0, env, fk)
            } else {
                nodes_w(c, st, b1, else_ch, 0, env, fk)
            },
        },
        NodeM::Loop { var, expr, children, .. } => match ref_r(c, st, b, expr, env, fk) {
            Err(_) => Seq::empty(),
            Ok((b1, v)) => items_w(c, st, b1, loop_items(v), 0, var, children, env, fk),
        },
        NodeM::Text { chunks, .. } => chunks_w(c, st, b, chunks, 0, env, fk),
        NodeM::ElseMarker { .. } => Seq::empty(),
    }
}

/// Written by the attributes from the `i`-th on before an error.
pub open spec fn attrs_w(
    c: CompilerM,
    st: Seq<Seq<char>>,
    b: BundleM,
    attrs: Seq<AttrM>,
    i: int,
    env: Seq<(Seq<char>, ValueM)>,
    fk: Seq<char>,
) -> Seq<char>
    decreases attrs.len() - i,
{
    if i < 0 || i >= attrs.len() {
        Seq::empty()
    } else {
        let a = attrs[i];
        match a.value {
            None => " "@ + a.key + attrs_w(c, st, b, attrs, i + 1, env, fk),
            Some(raw) => match raw_r(c, st, b, raw, env, fk) {
                Err(_) => " "@ + a.key,
                Ok((b1, v)) => " "@ + a.key + "=\""@ + text_of(v) + "\""@ + attrs_w(
                    c,
                    st,
                    b1,
                    attrs,
                    i + 1,
                    env,
                    fk,
                ),
            },
        }
    }
}

/// Written by interpolated text from the `i`-th chunk on before an error.
pub open spec fn chunks_w(
    c: CompilerM,
    st: Seq<Seq<char>>,
    b: BundleM,
    chunks: Seq<ChunkM>,
    i: int,
    env: Seq<(Seq<char>, ValueM)>,
    fk: Seq<char>,
) -> Seq<char>
    decreases chunks.len() - i,
{
    if i < 0 || i >= chunks.len() {
        Seq::empty()
    } else {
        match chunks[i] {
            ChunkM::Lit(t) => t + chunks_w(c, st, b, chunks, i + 1, env, fk),
            ChunkM::Ref(expr) => match ref_r(c, st, b, expr, env, fk) {
                Err(_) => Seq::empty(),
                Ok((b1, v)) => text_of(v) + chunks_w(c, st, b1, chunks, i + 1, env, fk),
            },
        }
    }
}

/// Written by a component body before an error.
pub open spec fn comp_w(
    c: CompilerM,
    st: Seq<Seq<char>>,
    b: BundleM,
    fk: Seq<char>,
    name: Seq<char>,
    body: Seq<NodeM>,
    env: Seq<(Seq<char>, ValueM)>,
) -> Seq<char>
    decreases room(c, st), 0nat, 0int, 0int,
{
    let id = sec_id(fk, name);
    match guard_of(c, st, id) {
        Some(_) => Seq::empty(),
        None => {
            let b1 = match kv_get(c.files, fk) {
                Some(f) => assets_go(b, fk, f.sections, 0),
                None => b,
            };
            nodes_w(c, st.push(id), b1, body, 0, env, fk)
        },
    }
}

/// Written by an expanded target before an error. Every error raised while
/// finding what the target points at comes before any output.
pub open spec fn target_w(
    c: CompilerM,
    st: Seq<Seq<char>>,
    b: BundleM,
    fk: Seq<char>,
    target: TargetM,
    props: Seq<AttrM>,
    env: Seq<(Seq<char>, ValueM)>,
) -> Seq<char>
    decreases room(c, st), props.len(), 3int, 0int,
{
    match target {
        TargetM::Local(name) => invoke_w(c, st, b, fk, name, props, env),
        TargetM::Var(name) => match kv_get(c.files, fk) {
            None => Seq::empty(),
            Some(f) => match kv_get(f.sections, name) {
                Some(SectionM::Alias(sub)) => {
                    let id = sec_id(fk, name);
                    match guard_of(c, st, id) {
                        Some(_) => Seq::empty(),
                        None => target_w(c, st.push(id), b, fk, sub, props, env),
                    }
                },
                Some(SectionM::Component(_)) => invoke_w(c, st, b, fk, name, props, env),
                _ => Seq::empty(),
            },
        },
        TargetM::File { path, section } => {
            let key = file_key_of(base_dir_of(fk), path);
            match kv_get(c.files, key) {
                Some(_) => match section {
                    None => Seq::empty(),
                    Some(s) => invoke_w(c, st, b, key, s, props, env),
                },
                None => Seq::empty(),
            }
        },
    }
}

/// Written by an invoked section before an error.
pub open spec fn invoke_w(
    c: CompilerM,
    st: Seq<Seq<char>>,
    b: BundleM,
    fk: Seq<char>,
    name: Seq<char>,
    props: Seq<AttrM>,
    env: Seq<(Seq<char>, ValueM)>,
) -> Seq<char>
    decreases room(c, st), props.len(), 2int, 0int,
{
    match kv_get(c.files, fk) {
        None => Seq::empty(),
        Some(f) => match kv_get(f.sections, name) {
            Some(SectionM::Component(body)) => match props_r(
                c,
                st,
                b,
                props,
                0,
                env,
                fk,
                name,
                Seq::empty(),
            ) {
                Err(_) => Seq::empty(),
                Ok((b1, env2)) => comp_w(c, st, b1, fk, name, body, env2),
            },
            Some(SectionM::Alias(sub)) => {
                let id = sec_id(fk, name);
                match guard_of(c, st, id) {
                    Some(_) => Seq::empty(),
                    None => target_w(c, st.push(id), b, fk, sub, props, env),
                }
            },
            _ => Seq::empty(),
        },
    }
}

/// Written by a loop body from the `i`-th item on before an error.
pub open spec fn items_w(
    c: CompilerM,
    st: Seq<Seq<char>>,
    b: BundleM,
    items: Seq<ValueM>,
    i: int,
    var: Seq<char>,
    children: Seq<NodeM>,
    env: Seq<(Seq<char>, ValueM)>,
    fk: Seq<char>,
) -> Seq<char>
    decreases room(c, st), nslist(children), 11int, items.len() - i,
{
    if i < 0 || i >= items.len() {
        Seq::empty()
    } else {
        match nodes_r(c, st, b, children, 0, kv_insert(env, var, items[i]), fk) {
            Err(_) => nodes_w(c, st, b, children, 0, kv_insert(env, var, items[i]), fk),
            Ok((b1, o1)) => o1 + items_w(c, st, b1, items, i + 1, var, children, env, fk),
        }
    }
}

proof fn lemma_nodes_w_step(
    c: CompilerM,
    st: Seq<Seq<char>>,
    b: BundleM,
    nodes: Seq<NodeM>,
    i: int,
    env: Seq<(Seq<char>, ValueM)>,
    fk: Seq<char>,
)
    requires
        0 <= i < nodes.len(),
    ensures
        match node_r(c, st, b, nodes[i], env, fk) {
            Err(_) => nodes_w(c, st, b, nodes, i, env, fk) == node_w(c, st, b, nodes[i], env, fk),
            Ok((b1, o1)) => nodes_w(c, st, b, nodes, i, env, fk) == o1 + nodes_w(
                c,
                st,
                b1,
                nodes,
                i + 1,
                env,
                fk,
            ),
        },
{
}

proof fn lemma_attrs_w_step(
    c: CompilerM,
    st: Seq<Seq<char>>,
    b: BundleM,
    attrs: Seq<AttrM>,
    i: int,
    env: Seq<(Seq<char>, ValueM)>,
    fk: Seq<char>,
)
    requires
        0 <= i < attrs.len(),
    ensures
        match attrs[i].value {
            None => attrs_w(c, st, b, attrs, i, env, fk) == " "@ + attrs[i].key + attrs_w(
                c,
                st,
                b,
                attrs,
                i + 1,
                env,
                fk,
            ),
            Some(raw) => match raw_r(c, st, b, raw, env, fk) {
                Err(_) => attrs_w(c, st, b, attrs, i, env, fk) == " "@ + attrs[i].key,
                Ok((b1, v)) => attrs_w(c, st, b, attrs, i, env, fk) == " "@ + attrs[i].key
                    + "=\""@ + text_of(v) + "\""@ + attrs_w(c, st, b1, attrs, i + 1, env, fk),
            },
        },
{
}

proof fn lemma_node_w_el(
    c: CompilerM,
    st: Seq<Seq<char>>,
    b: BundleM,
    node: NodeM,
    env: Seq<(Seq<char>, ValueM)>,
    fk: Seq<char>,
)
    requires
        node is El,
        node->El_tag != "br"@,
    ensures
        match attrs_r(c, st, b, node->El_attrs, 0, env, fk) {
            Err(_) => node_w(c, st, b, node, env, fk) == "<"@ + node->El_tag + attrs_w(
                c,
                st,
                b,
                node->El_attrs,
                0,
                env,
                fk,
            ),
            Ok((b1, a)) => node_w(c, st, b, node, env, fk) == "<"@ + node->El_tag + a + ">"@
                + nodes_w(c, st, b1, node->El_children, 0, env, fk),
        },
{
}

proof fn lemma_items_w_step(
    c: CompilerM,
    st: Seq<Seq<char>>,
    b: BundleM,
    items: Seq<ValueM>,
    i: int,
    var: Seq<char>,
    children: Seq<NodeM>,
    env: Seq<(Seq<char>, ValueM)>,
    fk: Seq<char>,
)
    requires
        0 <= i < items.len(),
    ensures
        match nodes_r(c, st, b, children, 0, kv_insert(env, var, items[i]), fk) {
            Err(_) => items_w(c, st, b, items, i, var, children, env, fk) == nodes_w(
                c,
                st,
                b,
                children,
                0,
                kv_insert(env, var, items[i]),
                fk,
            ),
            Ok((b1, o1)) => items_w(c, st, b, items, i, var, children, env, fk) == o1 + items_w(
                c,
                st,
                b1,
                items,
                i + 1,
                var,
                children,
                env,
                fk,
            ),
        },
{
}

// ---------------------------------------------------------------------------
// executable state
pub open spec fn strs(s: Seq<String>) -> Seq<Seq<char>> {
    s.map_values(|x: String| x@)
}

pub open spec fn str_pairs(s: Seq<(String, String)>) -> Seq<(Seq<char>, Seq<char>)> {
    s.map_values(|x: (String, String)| (x.0@, x.1@))
}

/// The styles and scripts collected while rendering.
pub struct Bundle {
    css: Vec<String>,
    js: Vec<String>,
    seen: Vec<(String, String)>,
}

impl View for Bundle {
    type V = BundleM;

    closed spec fn view(&self) -> BundleM {
        BundleM { css: strs(self.css@), js: strs(self.js@), seen: str_pairs(self.seen@) }
    }
}

impl Bundle {
    #[verifier::type_invariant]
    spec fn inv(self) -> bool {
        bundle_wf(self@)
    }

    pub fn new() -> (b: Bundle)
        ensures
            b@ == empty_bundle(),
    {
        let b = Bundle { css: Vec::new(), js: Vec::new(), seen: Vec::new() };
        assert(b@.css =~= Seq::<Seq<char>>::empty());
        assert(b@.js =~= Seq::<Seq<char>>::empty());
        assert(b@.seen =~= Seq::<(Seq<char>, Seq<char>)>::empty());
        b
    }

    /// Adds an asset unless its (file, section) has been added before.
    pub fn add(&mut self, file: &str, section: &str, ext: &str, text: &str)
        ensures
            final(self)@ == bundle_add(old(self)@, file@, section@, ext@, text@),
    {
        let ghost pair = (file@, section@);
        let mut i: usize = 0;
        while i < self.seen.len()
            invariant
                i <= self.seen@.len(),
                self == old(self),
                pair == (file@, section@),
                forall|j: int| 0 <= j < i ==> #[trigger] str_pairs(self.seen@)[j] != pair,
            decreases self.seen@.len() - i,
        {
            let same_file = crate::text::str_is(self.seen[i].0.as_str(), file);
            let same_section = crate::text::str_is(self.seen[i].1.as_str(), section);
            assert(str_pairs(self.seen@)[i as int] == (self.seen@[i as int].0@, self.seen@[i as int].1@));
            if same_file && same_section {
                return;
            }
            i = i + 1;
        }
        assert(!str_pairs(self.seen@).contains(pair)) by {
            if str_pairs(self.seen@).contains(pair) {
                let j = choose|j: int|
                    0 <= j < str_pairs(self.seen@).len() && str_pairs(self.seen@)[j] == pair;
                assert(str_pairs(self.seen@)[j] != pair);
            }
        }
        proof {
            use_type_invariant(&*self);
            lemma_bundle_add_wf(self@, file@, section@, ext@, text@);
        }
        let ghost old_self = self@;
        let mut tmp = Bundle::new();
        std::mem::swap(self, &mut tmp);
        let Bundle { mut css, mut js, mut seen } = tmp;
        seen.push((file.to_owned(), section.to_owned()));
        if crate::text::str_is(ext, "css") {
            css.push(text.to_owned());
        } else {
            js.push(text.to_owned());
        }
        assert(str_pairs(seen@) =~= old_self.seen.push(pair));
        assert(strs(css@) =~= (if ext@ == "css"@ { old_self.css.push(text@) } else { old_self.css }));
        assert(strs(js@) =~= (if ext@ == "css"@ { old_self.js } else { old_self.js.push(text@) }));
        *self = Bundle { css, js, seen };
        assert(self@.js =~= (if ext@ == "css"@ { old_self.js } else { old_self.js.push(text@) }));
    }
}

/// `parts.join(sep)`, as characters.
fn join_exec(parts: &Vec<String>, sep: &str) -> (r: Vec<char>)
    ensures
        r@ == join_with(strs(parts@), sep@),
{
    let mut out: Vec<char> = Vec::new();
    let mut i: usize = 0;
    while i < parts.len()
        invariant
            i <= parts@.len(),
            out@ == join_with(strs(parts@).take(i as int), sep@),
        decreases parts@.len() - i,
    {
        let ghost before = out@;
        if i > 0 {
            push_str(&mut out, sep);
        }
        push_str(&mut out, parts[i].as_str());
        proof {
            let t = strs(parts@).take(i + 1);
            assert(t.drop_last() =~= strs(parts@).take(i as int));
            assert(t.last() == parts@[i as int]@);
            if i == 0 {
                assert(t.len() == 1);
            }
        }
        i = i + 1;
    }
    assert(strs(parts@).take(parts@.len() as int) =~= strs(parts@));
    out
}

/// `i64::to_string`, as characters.
fn i64_text(n: i64) -> (r: Vec<char>)
    ensures
        r@ == int_text(n as int),
{
    if n < 0 {
        let m: u64 = (0i128 - (n as i128)) as u64;
        let mut out = chars_of("-");
        let d = crate::text::u64_text(m);
        push_all(&mut out, &d);
        proof {
            reveal_strlit("-");
        }
        out
    } else {
        crate::text::u64_text(n as u64)
    }
}

} // verus!

verus! {

// ---------------------------------------------------------------------------
// the recursion bound
proof fn lemma_id_in(files: Seq<(Seq<char>, FileM)>, i: int, j: int)
    requires
        0 <= i < files.len(),
        0 <= j < files[i].1.sections.len(),
    ensures
        all_ids(files).contains(sec_id(files[i].0, files[i].1.sections[j].0)),
    decreases files.len(),
{
    let pre = all_ids(files.drop_last());
    let f = file_ids(files.last().0, files.last().1.sections);
    assert(all_ids(files) == pre + f);
    if i == files.len() - 1 {
        assert(f[j] == sec_id(files[i].0, files[i].1.sections[j].0));
        assert((pre + f)[pre.len() + j] == f[j]);
    } else {
        assert(files.drop_last()[i] == files[i]);
        lemma_id_in(files.drop_last(), i, j);
        let k = choose|k: int|
            0 <= k < pre.len() && pre[k] == sec_id(files[i].0, files[i].1.sections[j].0);
        assert((pre + f)[k] == pre[k]);
    }
}

/// A section not yet on a well-formed stack fits under the bound.
proof fn lemma_room(c: CompilerM, st: Seq<Seq<char>>, id: Seq<char>)
    requires
        stack_ok(c, st),
        all_ids(c.files).contains(id),
        !st.contains(id),
    ensures
        st.len() < id_limit(c),
{
    broadcast use vstd::seq_lib::seq_to_set_is_finite;

    let s2 = st.push(id);
    assert(s2.no_duplicates()) by {
        assert forall|i: int, j: int|
            0 <= i < s2.len() && 0 <= j < s2.len() && i != j implies s2[i] != s2[j] by {
            if i < st.len() && j < st.len() {
                assert(s2[i] == st[i] && s2[j] == st[j]);
            } else if i < st.len() {
                assert(s2[i] == st[i]);
            } else if j < st.len() {
                assert(s2[j] == st[j]);
            }
        }
    }
    s2.unique_seq_to_set();
    let a = all_ids(c.files);
    a.lemma_cardinality_of_set();
    assert(s2.to_set().subset_of(a.to_set())) by {
        assert forall|x: Seq<char>| s2.to_set().contains(x) implies a.to_set().contains(x) by {
            let k = choose|k: int| 0 <= k < s2.len() && s2[k] == x;
            if k < st.len() {
                assert(s2[k] == st[k]);
            }
        }
    }
    vstd::set_lib::lemma_len_subset(s2.to_set(), a.to_set());
}

// ---------------------------------------------------------------------------
// lookups
/// The entry of the template file `fk`.
fn find_file(c: &Compiler, fk: &str) -> (r: Option<usize>)
    ensures
        match r {
            Some(i) => i < c.files@.len() && kv_get(c@.files, fk@) == Some(c.files@[i as int].1@)
                && c@.files[i as int].0 == fk@,
            None => kv_get(c@.files, fk@) is None,
        },
{
    let k = chars_of(fk);
    let r = kv_find(&c.files, &k);
    proof {
        crate::kv::lemma_find_key_found(c@.files, fk@);
    }
    r
}

/// The entry of the section `name` of a file.
fn find_section(f: &File, name: &str) -> (r: Option<usize>)
    ensures
        match r {
            Some(j) => j < f.sections@.len() && kv_get(f@.sections, name@) == Some(
                f.sections@[j as int].1@,
            ) && f@.sections[j as int].0 == name@,
            None => kv_get(f@.sections, name@) is None,
        },
{
    let k = chars_of(name);
    let r = kv_find(&f.sections, &k);
    proof {
        crate::kv::lemma_find_key_found(f@.sections, name@);
    }
    r
}

/// The id of a section, as a string.
fn section_id(fk: &str, name: &str) -> (r: String)
    ensures
        r@ == sec_id(fk@, name@),
{
    let mut m = chars_of(fk);
    push_str(&mut m, "#");
    push_str(&mut m, name);
    string_of(&m)
}

/// Pushes a section id, unless it is already being expanded.
fn guard(c: &Compiler, st: &mut Vec<String>, id: String) -> (r: Result<(), RenderError>)
    requires
        stack_ok(c@, strs(old(st)@)),
        all_ids(c@.files).contains(id@),
    ensures
        match guard_of(c@, strs(old(st)@), id@) {
            Some(m) => r matches Err(e) && e@ == RErrM::Failed(m) && final(st)@ == old(st)@,
            None => r is Ok && final(st)@ == old(st)@.push(id) && stack_ok(c@, strs(final(st)@)),
        },
{
    let mut i: usize = 0;
    while i < st.len()
        invariant
            i <= st@.len(),
            forall|j: int| 0 <= j < i ==> #[trigger] strs(st@)[j] != id@,
        decreases st@.len() - i,
    {
        assert(strs(st@)[i as int] == st@[i as int]@);
        if crate::text::str_is(st[i].as_str(), id.as_str()) {
            let mut m = chars_of("recursive component invocation detected: ");
            let chain = join_exec(st, " > ");
            push_all(&mut m, &chain);
            push_str(&mut m, " > ");
            push_str(&mut m, id.as_str());
            assert(strs(st@).contains(id@));
            return Err(RenderError::Failed(string_of(&m)));
        }
        i = i + 1;
    }
    assert(!strs(st@).contains(id@)) by {
        if strs(st@).contains(id@) {
            let j = choose|j: int| 0 <= j < strs(st@).len() && strs(st@)[j] == id@;
            assert(strs(st@)[j] != id@);
        }
    }
    proof {
        lemma_room(c@, strs(st@), id@);
    }
    let ghost before = st@;
    st.push(id);
    proof {
        let s1 = strs(st@);
        assert(s1 =~= strs(before).push(id@));
        assert forall|a: int, b: int| 0 <= a < s1.len() && 0 <= b < s1.len() && a != b implies s1[a]
            != s1[b] by {
            if a < before.len() && b < before.len() {
                assert(s1[a] == strs(before)[a] && s1[b] == strs(before)[b]);
            } else if a < before.len() {
                assert(s1[a] == strs(before)[a]);
            } else if b < before.len() {
                assert(s1[b] == strs(before)[b]);
            }
        }
        assert forall|k: int| 0 <= k < s1.len() implies all_ids(c@.files).contains(
            #[trigger] s1[k],
        ) by {
            if k < before.len() {
                assert(s1[k] == strs(before)[k]);
            }
        }
    }
    Ok(())
}

// ---------------------------------------------------------------------------
// files read from disk
pub open spec fn val_agree(sr: Result<ValueM, RErrM>, r: Result<Value, RenderError>) -> bool {
    match sr {
        Ok(v) => r matches Ok(x) && x@ == v,
        Err(e) => r matches Err(x) && x@ == e,
    }
}

/// The key that a reference from the file `fk` names.
fn key_from(fk: &str, reference: &str) -> (r: String)
    ensures
        r@ == file_key_of(base_dir_of(fk@), reference@),
{
    let fkc = chars_of(fk);
    let bd = base_dir(&fkc);
    let bds = string_of(&bd);
    resolve_file_key(bds.as_str(), reference)
}

/// The entry of a file read from disk.
fn find_loaded(c: &Compiler, key: &str) -> (r: Option<usize>)
    ensures
        match r {
            Some(i) => i < c.loaded@.len() && kv_get(c@.loaded, key@) == Some(
                c.loaded@[i as int].1@,
            ) && c@.loaded[i as int] == (c.loaded@[i as int].0@, c.loaded@[i as int].1@),
            None => kv_get(c@.loaded, key@) is None,
        },
{
    let k = chars_of(key);
    kv_find(&c.loaded, &k)
}

/// A data file, by a reference from the file `fk`, parsed.
fn load_data(c: &Compiler, fk: &str, reference: &str) -> (r: Result<Value, RenderError>)
    requires
        loaded_ok(c@),
    ensures
        val_agree(load_data_of(c@, fk@, reference@), r),
{
    let key = key_from(fk, reference);
    match find_loaded(c, key.as_str()) {
        None => Err(RenderError::NeedFile(key)),
        Some(i) => match &c.loaded[i].1 {
            FileText::Unreadable(e) => {
                let mut m = chars_of("cannot load data file `");
                push_str(&mut m, key.as_str());
                push_str(&mut m, "`: ");
                push_str(&mut m, e.as_str());
                Err(RenderError::Failed(string_of(&m)))
            },
            FileText::Read(src) => {
                assert(match c@.loaded[i as int].1 {
                    Ok(t) => 2 * t.len() + 2 < usize::MAX,
                    Err(_) => true,
                });
                match parse_kdl(src.as_str()) {
                    Ok(v) => Ok(v),
                    Err(e) => {
                        let mut m = chars_of("error parsing `");
                        push_str(&mut m, key.as_str());
                        push_str(&mut m, "`: ");
                        push_str(&mut m, e.as_str());
                        Err(RenderError::Failed(string_of(&m)))
                    },
                }
            },
        },
    }
}

pub open spec fn unit_agree(
    sr: Result<(BundleM, Seq<char>), RErrM>,
    r: Result<(), RenderError>,
    b1: BundleM,
) -> bool {
    match sr {
        Ok((sb, so)) => r is Ok && b1 == sb && so == Seq::<char>::empty(),
        Err(e) => r matches Err(x) && x@ == e,
    }
}

/// A raw asset file, by its key, added to the bundle.
fn read_asset(c: &Compiler, b: &mut Bundle, key: &str, path: &str, ext: &str) -> (r: Result<
    (),
    RenderError,
>)
    ensures
        unit_agree(read_asset_of(c@, old(b)@, key@, path@, ext@), r, final(b)@),
{
    match find_loaded(c, key) {
        None => Err(RenderError::NeedFile(key.to_owned())),
        Some(i) => match &c.loaded[i].1 {
            FileText::Unreadable(e) => {
                let mut m = chars_of("cannot load asset `");
                push_str(&mut m, key);
                push_str(&mut m, "`: ");
                push_str(&mut m, e.as_str());
                Err(RenderError::Failed(string_of(&m)))
            },
            FileText::Read(t) => {
                b.add(key, path, ext, t.as_str());
                Ok(())
            },
        },
    }
}

/// A reference to a file that is not a template: a raw asset, by extension.
fn raw_file(c: &Compiler, b: &mut Bundle, key: &str, path: &str) -> (r: Result<(), RenderError>)
    ensures
        unit_agree(raw_file_of(c@, old(b)@, key@, path@), r, final(b)@),
{
    let p = chars_of(path);
    let df = chars_of(".df");
    let css = chars_of(".css");
    let js = chars_of(".js");
    if has_suffix(&p, &df) {
        let mut m = chars_of("referenced Dreamfish file `");
        push_str(&mut m, path);
        push_str(&mut m, "` does not exist (expected `");
        push_str(&mut m, key);
        push_str(&mut m, "`)");
        Err(RenderError::Failed(string_of(&m)))
    } else if has_suffix(&p, &css) {
        read_asset(c, b, key, path, "css")
    } else if has_suffix(&p, &js) {
        read_asset(c, b, key, path, "js")
    } else {
        let mut m = chars_of("cannot include raw asset `");
        push_str(&mut m, path);
        push_str(&mut m, "`: unsupported extension");
        Err(RenderError::Failed(string_of(&m)))
    }
}

/// Follows the steps of a reference from a value.
fn walk(v: Value, segs: &Vec<Seg>, expr: &[char]) -> (r: Result<Value, String>)
    ensures
        match walk_segs(v@, crate::compiler::segs_view(segs@), 0, expr@) {
            Ok(w) => r matches Ok(x) && x@ == w,
            Err(m) => r matches Err(x) && x@ == m,
        },
{
    let ghost gs = crate::compiler::segs_view(segs@);
    let ghost v0 = v@;
    let mut cur = v;
    let mut i: usize = 0;
    while i < segs.len()
        invariant
            i <= segs@.len(),
            gs == crate::compiler::segs_view(segs@),
            v0 == v@,
            walk_segs(v0, gs, 0, expr@) == walk_segs(cur@, gs, i as int, expr@),
        decreases segs@.len() - i,
    {
        assert(gs[i as int] == segs@[i as int]@);
        match &segs[i] {
            Seg::Field(name) => match cur.get(name.as_str()) {
                Some(w) => {
                    cur = w;
                },
                None => {
                    let mut m = chars_of("reference `");
                    push_all(&mut m, expr);
                    push_str(&mut m, "`: no field `");
                    push_str(&mut m, name.as_str());
                    push_str(&mut m, "`");
                    return Err(string_of(&m));
                },
            },
            Seg::Index(n) => match cur.index_num(*n) {
                Some(w) => {
                    cur = w;
                },
                None => {
                    let mut m = chars_of("reference `");
                    push_all(&mut m, expr);
                    push_str(&mut m, "`: index `");
                    let t = i64_text(*n);
                    push_all(&mut m, &t);
                    push_str(&mut m, "` out of bounds");
                    return Err(string_of(&m));
                },
            },
        }
        i = i + 1;
    }
    Ok(cur)
}

} // verus!

verus! {

// ---------------------------------------------------------------------------
// rendering, executable
pub open spec fn out_agree(
    sr: Result<(BundleM, Seq<char>), RErrM>,
    r: Result<(), RenderError>,
    b1: BundleM,
    o0: Seq<char>,
    o1: Seq<char>,
    w: Seq<char>,
) -> bool {
    match sr {
        Ok((sb, so)) => r is Ok && b1 == sb && o1 == o0 + so,
        Err(e) => r matches Err(x) && x@ == e && o1 == o0 + w,
    }
}

pub open spec fn value_agree(
    sr: Result<(BundleM, ValueM), RErrM>,
    r: Result<Value, RenderError>,
    b1: BundleM,
) -> bool {
    match sr {
        Ok((sb, v)) => r matches Ok(x) && x@ == v && b1 == sb,
        Err(e) => r matches Err(x) && x@ == e,
    }
}

/// The section `name` of the template file `fk` exists.
pub open spec fn in_project(c: CompilerM, fk: Seq<char>, name: Seq<char>) -> bool {
    match kv_get(c.files, fk) {
        Some(f) => kv_get(f.sections, name) is Some,
        None => false,
    }
}

pub open spec fn after(r: Result<(BundleM, Seq<char>), RErrM>, acc: Seq<char>) -> Result<
    (BundleM, Seq<char>),
    RErrM,
> {
    match r {
        Ok((bb, o)) => Ok((bb, acc + o)),
        Err(e) => Err(e),
    }
}

pub open spec fn out_of(r: Result<(BundleM, Seq<char>), RErrM>) -> Seq<char> {
    match r {
        Ok((_, o)) => o,
        Err(_) => Seq::empty(),
    }
}

proof fn lemma_after(r: Result<(BundleM, Seq<char>), RErrM>, a1: Seq<char>, a2: Seq<char>)
    ensures
        after(after(r, a1), a2) == after(r, a2 + a1),
        after(r, Seq::empty()) == r,
{
    match r {
        Ok((bb, o)) => {
            assert(a2 + (a1 + o) =~= (a2 + a1) + o);
            assert(Seq::<char>::empty() + o =~= o);
        },
        Err(_) => {},
    }
}

proof fn lemma_in_project(c: CompilerM, fk: Seq<char>, name: Seq<char>)
    requires
        in_project(c, fk, name),
    ensures
        all_ids(c.files).contains(sec_id(fk, name)),
{
    crate::kv::lemma_find_key_found(c.files, fk);
    let i = find_key(c.files, fk)->Some_0;
    let f = c.files[i].1;
    crate::kv::lemma_find_key_found(f.sections, name);
    let j = find_key(f.sections, name)->Some_0;
    lemma_id_in(c.files, i, j);
}

proof fn lemma_stack_drop(c: CompilerM, s: Seq<Seq<char>>)
    requires
        stack_ok(c, s),
        s.len() > 0,
    ensures
        stack_ok(c, s.drop_last()),
{
    let t = s.drop_last();
    assert forall|i: int, j: int| 0 <= i < t.len() && 0 <= j < t.len() && i != j implies t[i]
        != t[j] by {
        assert(t[i] == s[i] && t[j] == s[j]);
    }
    assert forall|i: int| 0 <= i < t.len() implies all_ids(c.files).contains(#[trigger] t[i]) by {
        assert(t[i] == s[i]);
    }
}

/// Leaves the innermost section, if any.
fn pop_stack(c: &Compiler, st: &mut Vec<String>)
    requires
        stack_ok(c@, strs(old(st)@)),
    ensures
        stack_ok(c@, strs(final(st)@)),
        old(st)@.len() > 0 ==> final(st)@ == old(st)@.drop_last(),
{
    if st.len() > 0 {
        let ghost before = st@;
        st.pop();
        proof {
            assert(strs(st@) =~= strs(before).drop_last());
            lemma_stack_drop(c@, strs(before));
        }
    }
}

/// A copy of an environment.
fn copy_env(env: &Vec<(String, Value)>) -> (r: Vec<(String, Value)>)
    ensures
        kv_view(r@) == kv_view(env@),
{
    let mut r: Vec<(String, Value)> = Vec::new();
    let mut i: usize = 0;
    while i < env.len()
        invariant
            i <= env@.len(),
            kv_view(r@) == kv_view(env@).take(i as int),
        decreases env@.len() - i,
    {
        let k = env[i].0.clone();
        let v = copy_value(&env[i].1);
        let ghost before = r@;
        let ghost e = (k, v);
        assert(e.0@ == env@[i as int].0@ && e.1@ == env@[i as int].1@);
        r.push((k, v));
        assert(r@ == before.push(e));
        assert(kv_view(r@) =~= kv_view(before).push((e.0@, e.1@)));
        assert(kv_view(r@) =~= kv_view(env@).take(i + 1));
        i = i + 1;
    }
    assert(kv_view(env@).take(env@.len() as int) =~= kv_view(env@));
    r
}

/// The items a loop runs over.
fn loop_items_exec(v: Value) -> (r: Vec<Value>)
    ensures
        crate::data::values_view(r@) == loop_items(v@),
{
    let ghost vv = v@;
    match v {
        Value::Lst(l) => l,
        other => {
            if other.truthy() {
                let r = vec![other];
                proof {
                    crate::data::lemma_values_view(r@);
                    assert(crate::data::values_view(r@) =~= seq![vv]);
                }
                r
            } else {
                let r: Vec<Value> = Vec::new();
                proof {
                    crate::data::lemma_values_view(r@);
                }
                assert(crate::data::values_view(r@) =~= Seq::<ValueM>::empty());
                r
            }
        },
    }
}

/// The asset sections of a file, added in key order.
fn add_file_assets(b: &mut Bundle, key: &str, f: &File)
    ensures
        final(b)@ == assets_go(old(b)@, key@, f@.sections, 0),
{
    let ghost secs = f@.sections;
    let mut i: usize = 0;
    while i < f.sections.len()
        invariant
            i <= f.sections@.len(),
            secs == f@.sections,
            assets_go(old(b)@, key@, secs, 0) == assets_go(b@, key@, secs, i as int),
        decreases f.sections@.len() - i,
    {
        assert(secs[i as int] == (f.sections@[i as int].0@, f.sections@[i as int].1@));
        match &f.sections[i].1 {
            Section::Asset { ext, text, .. } => {
                b.add(key, f.sections[i].0.as_str(), ext.as_str(), text.as_str());
            },
            _ => {},
        }
        i = i + 1;
    }
}

} // verus!

verus! {

/// The nodes, one after another.
fn render_nodes(
    c: &Compiler,
    b: &mut Bundle,
    st: &mut Vec<String>,
    nodes: &Vec<Node>,
    env: &Vec<(String, Value)>,
    fk: &str,
    out: &mut Vec<char>,
) -> (r: Result<(), RenderError>)
    requires
        stack_ok(c@, strs(old(st)@)),
        loaded_ok(c@),
    ensures
        stack_ok(c@, strs(final(st)@)),
        r is Ok ==> final(st)@ == old(st)@,
        out_agree(
            nodes_r(
                c@,
                strs(old(st)@),
                old(b)@,
                crate::ast::nodes_view(nodes@),
                0,
                kv_view(env@),
                fk@,
            ),
            r,
            final(b)@,
            old(out)@,
            final(out)@,
            nodes_w(
                c@,
                strs(old(st)@),
                old(b)@,
                crate::ast::nodes_view(nodes@),
                0,
                kv_view(env@),
                fk@,
            ),
        ),
    decreases room(c@, strs(old(st)@)), nslist(crate::ast::nodes_view(nodes@)), 10int, nodes@.len(),
{
    let ghost nv = crate::ast::nodes_view(nodes@);
    let ghost s0 = strs(st@);
    let ghost total = nodes_r(c@, s0, b@, nv, 0, kv_view(env@), fk@);
    let ghost wtotal = nodes_w(c@, s0, b@, nv, 0, kv_view(env@), fk@);
    let ghost o0 = out@;
    let ghost mut acc: Seq<char> = Seq::empty();
    proof {
        crate::ast::lemma_nodes_view_len(nodes@);
        lemma_after(total, Seq::empty(), Seq::empty());
        assert(o0 + acc =~= o0);
        assert(acc + wtotal =~= wtotal);
    }
    let mut i: usize = 0;
    while i < nodes.len()
        invariant
            i <= nodes@.len(),
            nv == crate::ast::nodes_view(nodes@),
            nv.len() == nodes@.len(),
            forall|k: int| 0 <= k < nodes@.len() ==> nv[k] == #[trigger] nodes@[k]@,
            st@ == old(st)@,
            s0 == strs(st@),
            stack_ok(c@, s0),
            loaded_ok(c@),
            out@ == o0 + acc,
            o0 == old(out)@,
            total == after(nodes_r(c@, s0, b@, nv, i as int, kv_view(env@), fk@), acc),
            total == nodes_r(c@, strs(old(st)@), old(b)@, nv, 0, kv_view(env@), fk@),
            wtotal == acc + nodes_w(c@, s0, b@, nv, i as int, kv_view(env@), fk@),
            wtotal == nodes_w(c@, strs(old(st)@), old(b)@, nv, 0, kv_view(env@), fk@),
        decreases nodes@.len() - i,
    {
        proof {
            lemma_nsize_le(nv, i as int);
        }
        let ghost bb = b@;
        let ghost ob = out@;
        let ghost sr = node_r(c@, s0, b@, nv[i as int], kv_view(env@), fk@);
        let ghost w1 = node_w(c@, s0, b@, nv[i as int], kv_view(env@), fk@);
        let ghost rest = nodes_r(c@, s0, b@, nv, i as int, kv_view(env@), fk@);
        let ghost wi = nodes_w(c@, s0, b@, nv, i as int, kv_view(env@), fk@);
        let r = render_node(c, b, st, &nodes[i], env, fk, out);
        match r {
            Err(e) => {
                assert(sr is Err);
                assert(rest == sr);
                proof {
                    lemma_nodes_w_step(c@, s0, bb, nv, i as int, kv_view(env@), fk@);
                }
                assert(wi == w1);
                assert(out@ == ob + w1);
                assert(out@ =~= o0 + wtotal);
                return Err(e);
            },
            Ok(()) => {},
        }
        proof {
            lemma_nodes_w_step(c@, s0, bb, nv, i as int, kv_view(env@), fk@);
            assert(wi == out_of(sr) + nodes_w(c@, s0, b@, nv, i + 1, kv_view(env@), fk@));
            lemma_after(nodes_r(c@, s0, b@, nv, i + 1, kv_view(env@), fk@), out_of(sr), acc);
            assert(wtotal =~= (acc + out_of(sr)) + nodes_w(c@, s0, b@, nv, i + 1, kv_view(env@), fk@));
            acc = acc + out_of(sr);
            assert(out@ =~= o0 + acc);
        }
        i = i + 1;
    }
    proof {
        assert(acc + Seq::<char>::empty() =~= acc);
    }
    Ok(())
}

/// An element, with its attributes and children; `br` stands alone.
#[verifier::rlimit(50)]
fn render_element(
    c: &Compiler,
    b: &mut Bundle,
    st: &mut Vec<String>,
    e: &crate::ast::ElNode,
    env: &Vec<(String, Value)>,
    fk: &str,
    out: &mut Vec<char>,
) -> (r: Result<(), RenderError>)
    requires
        stack_ok(c@, strs(old(st)@)),
        loaded_ok(c@),
    ensures
        stack_ok(c@, strs(final(st)@)),
        r is Ok ==> final(st)@ == old(st)@,
        out_agree(
            node_r(c@, strs(old(st)@), old(b)@, Node::El(*e)@, kv_view(env@), fk@),
            r,
            final(b)@,
            old(out)@,
            final(out)@,
            node_w(c@, strs(old(st)@), old(b)@, Node::El(*e)@, kv_view(env@), fk@),
        ),
    decreases room(c@, strs(old(st)@)), nsize(Node::El(*e)@), 8int, 0int,
{
            if crate::text::str_is(e.tag.as_str(), "br") {
                push_str(out, "<br/>");
                return Ok(());
            }
    let ghost o0 = out@;
    let ghost s0 = strs(st@);
    let ghost ra = attrs_r(c@, s0, b@, crate::ast::attrs_view(e.attrs@), 0, kv_view(env@), fk@);
    push_str(out, "<");
    push_str(out, e.tag.as_str());
    let ghost o1 = out@;
    let ghost wa = attrs_w(c@, s0, b@, crate::ast::attrs_view(e.attrs@), 0, kv_view(env@), fk@);
    proof {
        lemma_node_w_el(c@, s0, b@, Node::El(*e)@, kv_view(env@), fk@);
    }
    let r1 = render_attrs(c, b, st, &e.attrs, env, fk, out);
    if let Err(x) = r1 {
        assert(out@ =~= o0 + ("<"@ + e.tag@ + wa));
        return Err(x);
    }
    let ghost o2 = out@;
    let ghost rn = nodes_r(c@, s0, b@, crate::ast::nodes_view(e.children@), 0, kv_view(env@), fk@);
    let ghost wn = nodes_w(c@, s0, b@, crate::ast::nodes_view(e.children@), 0, kv_view(env@), fk@);
    push_str(out, ">");
    let ghost o3 = out@;
    let r2 = render_nodes(c, b, st, &e.children, env, fk, out);
    if let Err(x) = r2 {
        assert(o2 == o1 + out_of(ra));
        assert(out@ =~= o0 + ("<"@ + e.tag@ + out_of(ra) + ">"@ + wn));
        return Err(x);
    }
    let ghost o4 = out@;
    push_str(out, "</");
    push_str(out, e.tag.as_str());
    push_str(out, ">");
    proof {
        assert(o2 == o1 + out_of(ra));
        assert(o4 == o3 + out_of(rn));
        assert(out@ =~= o0 + ("<"@ + e.tag@ + out_of(ra) + ">"@ + out_of(rn) + "</"@ + e.tag@
            + ">"@));
    }
    Ok(())
}

/// One node.
fn render_node(
    c: &Compiler,
    b: &mut Bundle,
    st: &mut Vec<String>,
    node: &Node,
    env: &Vec<(String, Value)>,
    fk: &str,
    out: &mut Vec<char>,
) -> (r: Result<(), RenderError>)
    requires
        stack_ok(c@, strs(old(st)@)),
        loaded_ok(c@),
    ensures
        stack_ok(c@, strs(final(st)@)),
        r is Ok ==> final(st)@ == old(st)@,
        out_agree(
            node_r(c@, strs(old(st)@), old(b)@, node@, kv_view(env@), fk@),
            r,
            final(b)@,
            old(out)@,
            final(out)@,
            node_w(c@, strs(old(st)@), old(b)@, node@, kv_view(env@), fk@),
        ),
    decreases room(c@, strs(old(st)@)), nsize(node@), 9int, 0int,
{
    match node {
        Node::El(e) => render_element(c, b, st, e, env, fk, out),
        Node::Inv(n) => {
            if n.children.len() > 0 {
                let mut m = chars_of("component `");
                let l = target_label(&n.target);
                push_str(&mut m, l.as_str());
                push_str(&mut m, "` does not accept child content");
                return Err(RenderError::Failed(string_of(&m)));
            }
            expand_target(c, b, st, fk, &n.target, &n.props, env, out)
        },
        Node::Cond(n) => {
            let v = match resolve_ref(c, b, st, n.cond.as_str(), env, fk) {
                Err(x) => {
                    return Err(x);
                },
                Ok(v) => v,
            };
            if v.truthy() {
                render_nodes(c, b, st, &n.then_ch, env, fk, out)
            } else {
                render_nodes(c, b, st, &n.else_ch, env, fk, out)
            }
        },
        Node::Loop(n) => {
            let v = match resolve_ref(c, b, st, n.expr.as_str(), env, fk) {
                Err(x) => {
                    return Err(x);
                },
                Ok(v) => v,
            };
            let items = loop_items_exec(v);
            render_items(c, b, st, &items, n.var.as_str(), &n.children, env, fk, out)
        },
        Node::Text(n) => render_chunks(c, b, st, &n.chunks, env, fk, out),
        Node::ElseMarker(_) => {
            let m = chars_of("internal: unexpanded `<:else` node reached the renderer");
            Err(RenderError::Failed(string_of(&m)))
        },
    }
}

/// The attributes, each as ` key` or ` key="value"`.
#[verifier::rlimit(50)]
fn render_attrs(
    c: &Compiler,
    b: &mut Bundle,
    st: &mut Vec<String>,
    attrs: &Vec<Attr>,
    env: &Vec<(String, Value)>,
    fk: &str,
    out: &mut Vec<char>,
) -> (r: Result<(), RenderError>)
    requires
        stack_ok(c@, strs(old(st)@)),
        loaded_ok(c@),
    ensures
        stack_ok(c@, strs(final(st)@)),
        r is Ok ==> final(st)@ == old(st)@,
        out_agree(
            attrs_r(
                c@,
                strs(old(st)@),
                old(b)@,
                crate::ast::attrs_view(attrs@),
                0,
                kv_view(env@),
                fk@,
            ),
            r,
            final(b)@,
            old(out)@,
            final(out)@,
            attrs_w(
                c@,
                strs(old(st)@),
                old(b)@,
                crate::ast::attrs_view(attrs@),
                0,
                kv_view(env@),
                fk@,
            ),
        ),
    decreases room(c@, strs(old(st)@)), attrs@.len(), 8int, attrs@.len(),
{
    let ghost av = crate::ast::attrs_view(attrs@);
    let ghost s0 = strs(st@);
    let ghost total = attrs_r(c@, s0, b@, av, 0, kv_view(env@), fk@);
    let ghost wtotal = attrs_w(c@, s0, b@, av, 0, kv_view(env@), fk@);
    let ghost o0 = out@;
    let ghost mut acc: Seq<char> = Seq::empty();
    proof {
        lemma_after(total, Seq::empty(), Seq::empty());
        assert(o0 + acc =~= o0);
        assert(acc + wtotal =~= wtotal);
    }
    let mut i: usize = 0;
    while i < attrs.len()
        invariant
            i <= attrs@.len(),
            av == crate::ast::attrs_view(attrs@),
            st@ == old(st)@,
            s0 == strs(st@),
            stack_ok(c@, s0),
            loaded_ok(c@),
            out@ == o0 + acc,
            total == after(attrs_r(c@, s0, b@, av, i as int, kv_view(env@), fk@), acc),
            total == attrs_r(c@, strs(old(st)@), old(b)@, av, 0, kv_view(env@), fk@),
            o0 == old(out)@,
            wtotal == acc + attrs_w(c@, s0, b@, av, i as int, kv_view(env@), fk@),
            wtotal == attrs_w(c@, strs(old(st)@), old(b)@, av, 0, kv_view(env@), fk@),
        decreases attrs@.len() - i,
    {
        let a = &attrs[i];
        assert(av[i as int] == a@);
        let ghost b0 = b@;
        let ghost before = out@;
        let ghost wi = attrs_w(c@, s0, b@, av, i as int, kv_view(env@), fk@);
        proof {
            lemma_attrs_w_step(c@, s0, b@, av, i as int, kv_view(env@), fk@);
        }
        push_str(out, " ");
        push_str(out, a.key.as_str());
        match &a.value {
            None => {
                proof {
                    lemma_after(
                        attrs_r(c@, s0, b@, av, i + 1, kv_view(env@), fk@),
                        " "@ + a.key@,
                        acc,
                    );
                    assert(wi == (" "@ + a.key@) + attrs_w(c@, s0, b@, av, i + 1, kv_view(env@), fk@));
                    assert(wtotal =~= (acc + (" "@ + a.key@)) + attrs_w(c@, s0, b@, av, i + 1, kv_view(env@), fk@));
                    acc = acc + (" "@ + a.key@);
                    assert(out@ =~= o0 + acc);
                }
            },
            Some(raw) => {
                let v = match resolve_raw(c, b, st, raw, env, fk) {
                    Err(x) => {
                        proof {
                            let rr = raw_r(c@, s0, b0, raw@, kv_view(env@), fk@);
                            assert(rr is Err);
                            assert(wi == " "@ + a.key@);
                            assert(out@ =~= o0 + wtotal);
                        }
                        return Err(x);
                    },
                    Ok(v) => v,
                };
                push_str(out, "=\"");
                let t = v.to_text();
                push_str(out, t.as_str());
                push_str(out, "\"");
                proof {
                    let piece = " "@ + a.key@ + "=\""@ + text_of(v@) + "\""@;
                    assert(wi == piece + attrs_w(c@, s0, b@, av, i + 1, kv_view(env@), fk@));
                    assert(wtotal =~= (acc + piece) + attrs_w(c@, s0, b@, av, i + 1, kv_view(env@), fk@));
                    lemma_after(attrs_r(c@, s0, b@, av, i + 1, kv_view(env@), fk@), piece, acc);
                    acc = acc + piece;
                    assert(out@ =~= o0 + acc);
                }
            },
        }
        i = i + 1;
    }
    proof {
        assert(acc + Seq::<char>::empty() =~= acc);
    }
    Ok(())
}

/// The value of an attribute or a prop.
fn resolve_raw(
    c: &Compiler,
    b: &mut Bundle,
    st: &mut Vec<String>,
    raw: &RawValue,
    env: &Vec<(String, Value)>,
    fk: &str,
) -> (r: Result<Value, RenderError>)
    requires
        stack_ok(c@, strs(old(st)@)),
        loaded_ok(c@),
    ensures
        stack_ok(c@, strs(final(st)@)),
        r is Ok ==> final(st)@ == old(st)@,
        value_agree(raw_r(c@, strs(old(st)@), old(b)@, raw@, kv_view(env@), fk@), r, final(b)@),
    decreases room(c@, strs(old(st)@)), 0nat, 7int, 0int,
{
    match raw {
        RawValue::Bool(x) => Ok(Value::Bool(*x)),
        RawValue::Num(n) => Ok(Value::Num(n.clone())),
        RawValue::Null => Ok(Value::Null),
        RawValue::Str(chunks) => {
            let mut s: Vec<char> = Vec::new();
            match render_chunks(c, b, st, chunks, env, fk, &mut s) {
                Err(x) => Err(x),
                Ok(()) => {
                    assert(s@ =~= Seq::<char>::empty() + s@);
                    Ok(Value::Str(string_of(&s)))
                },
            }
        },
        RawValue::Ref(expr) => resolve_ref(c, b, st, expr.as_str(), env, fk),
    }
}

/// Interpolated text.
fn render_chunks(
    c: &Compiler,
    b: &mut Bundle,
    st: &mut Vec<String>,
    chunks: &Vec<Chunk>,
    env: &Vec<(String, Value)>,
    fk: &str,
    out: &mut Vec<char>,
) -> (r: Result<(), RenderError>)
    requires
        stack_ok(c@, strs(old(st)@)),
        loaded_ok(c@),
    ensures
        stack_ok(c@, strs(final(st)@)),
        r is Ok ==> final(st)@ == old(st)@,
        out_agree(
            chunks_r(
                c@,
                strs(old(st)@),
                old(b)@,
                crate::ast::chunks_view(chunks@),
                0,
                kv_view(env@),
                fk@,
            ),
            r,
            final(b)@,
            old(out)@,
            final(out)@,
            chunks_w(
                c@,
                strs(old(st)@),
                old(b)@,
                crate::ast::chunks_view(chunks@),
                0,
                kv_view(env@),
                fk@,
            ),
        ),
    decreases room(c@, strs(old(st)@)), 0nat, 6int, chunks@.len(),
{
    let ghost cv = crate::ast::chunks_view(chunks@);
    let ghost s0 = strs(st@);
    let ghost total = chunks_r(c@, s0, b@, cv, 0, kv_view(env@), fk@);
    let ghost wtotal = chunks_w(c@, s0, b@, cv, 0, kv_view(env@), fk@);
    let ghost o0 = out@;
    let ghost mut acc: Seq<char> = Seq::empty();
    proof {
        lemma_after(total, Seq::empty(), Seq::empty());
        assert(o0 + acc =~= o0);
        assert(acc + wtotal =~= wtotal);
    }
    let mut i: usize = 0;
    while i < chunks.len()
        invariant
            i <= chunks@.len(),
            cv == crate::ast::chunks_view(chunks@),
            st@ == old(st)@,
            s0 == strs(st@),
            stack_ok(c@, s0),
            loaded_ok(c@),
            out@ == o0 + acc,
            total == after(chunks_r(c@, s0, b@, cv, i as int, kv_view(env@), fk@), acc),
            total == chunks_r(c@, strs(old(st)@), old(b)@, cv, 0, kv_view(env@), fk@),
            o0 == old(out)@,
            wtotal == acc + chunks_w(c@, s0, b@, cv, i as int, kv_view(env@), fk@),
            wtotal == chunks_w(c@, strs(old(st)@), old(b)@, cv, 0, kv_view(env@), fk@),
        decreases chunks@.len() - i,
    {
        assert(cv[i as int] == chunks@[i as int]@);
        let ghost wi = chunks_w(c@, s0, b@, cv, i as int, kv_view(env@), fk@);
        match &chunks[i] {
            Chunk::Lit(t) => {
                push_str(out, t.as_str());
                proof {
                    assert(wi == t@ + chunks_w(c@, s0, b@, cv, i + 1, kv_view(env@), fk@));
                    assert(wtotal =~= (acc + t@) + chunks_w(c@, s0, b@, cv, i + 1, kv_view(env@), fk@));
                    lemma_after(chunks_r(c@, s0, b@, cv, i + 1, kv_view(env@), fk@), t@, acc);
                    acc = acc + t@;
                    assert(out@ =~= o0 + acc);
                }
            },
            Chunk::Ref(expr) => {
                let ghost sr = ref_r(c@, s0, b@, expr@, kv_view(env@), fk@);
                let ghost rest = chunks_r(c@, s0, b@, cv, i as int, kv_view(env@), fk@);
                let v = match resolve_ref(c, b, st, expr.as_str(), env, fk) {
                    Err(x) => {
                        assert(sr is Err);
                        assert(rest == Err::<(BundleM, Seq<char>), RErrM>(x@));
                        assert(wi == Seq::<char>::empty());
                        assert(out@ =~= o0 + wtotal);
                        return Err(x);
                    },
                    Ok(v) => v,
                };
                let t = v.to_text();
                push_str(out, t.as_str());
                proof {
                    assert(wi == text_of(v@) + chunks_w(c@, s0, b@, cv, i + 1, kv_view(env@), fk@));
                    assert(wtotal =~= (acc + text_of(v@)) + chunks_w(c@, s0, b@, cv, i + 1, kv_view(env@), fk@));
                    lemma_after(
                        chunks_r(c@, s0, b@, cv, i + 1, kv_view(env@), fk@),
                        text_of(v@),
                        acc,
                    );
                    acc = acc + text_of(v@);
                    assert(out@ =~= o0 + acc);
                }
            },
        }
        i = i + 1;
    }
    proof {
        assert(acc + Seq::<char>::empty() =~= acc);
    }
    Ok(())
}

/// The steps of a reference followed from its base value.
fn finish(v: Value, segs: &Vec<Seg>, expr: &[char]) -> (r: Result<Value, RenderError>)
    ensures
        match finish_ref(empty_bundle(), v@, crate::compiler::segs_view(segs@), expr@) {
            Ok((_, w)) => r matches Ok(x) && x@ == w,
            Err(e) => r matches Err(x) && x@ == e,
        },
{
    match walk(v, segs, expr) {
        Err(m) => Err(RenderError::Failed(m)),
        Ok(w) => Ok(w.collapse_args()),
    }
}

/// A `{reference}`.
fn resolve_ref(
    c: &Compiler,
    b: &mut Bundle,
    st: &mut Vec<String>,
    expr0: &str,
    env: &Vec<(String, Value)>,
    fk: &str,
) -> (r: Result<Value, RenderError>)
    requires
        stack_ok(c@, strs(old(st)@)),
        loaded_ok(c@),
    ensures
        stack_ok(c@, strs(final(st)@)),
        r is Ok ==> final(st)@ == old(st)@,
        value_agree(ref_r(c@, strs(old(st)@), old(b)@, expr0@, kv_view(env@), fk@), r, final(b)@),
    decreases room(c@, strs(old(st)@)), 0nat, 5int, 0int,
{
    let e0 = chars_of(expr0);
    let expr = strip_braces(&e0);
    if expr.len() == 0 {
        let m = chars_of("empty reference expression");
        return Err(RenderError::Failed(string_of(&m)));
    }
    if is_file_ref(&expr) {
        match split_file_ref(&expr) {
            Err(m) => Err(RenderError::Failed(m)),
            Ok((path, segs)) => {
                let p = string_of(&path);
                match load_data(c, fk, p.as_str()) {
                    Err(x) => Err(x),
                    Ok(v) => finish(v, &segs, &expr),
                }
            },
        }
    } else {
        let (root, segs) = split_segments(&expr);
        match kv_find(env, &root) {
            Some(i) => {
                let v = copy_value(&env[i].1);
                finish(v, &segs, &expr)
            },
            None => {
                let fi = match find_file(c, fk) {
                    None => {
                        let mut m = chars_of("unknown file `");
                        push_str(&mut m, fk);
                        push_str(&mut m, "`");
                        return Err(RenderError::Failed(string_of(&m)));
                    },
                    Some(fi) => fi,
                };
                let f = &c.files[fi].1;
                let rs = string_of(&root);
                match find_section(f, rs.as_str()) {
                    None => {
                        let mut m = chars_of("unresolved reference `");
                        push_all(&mut m, &expr);
                        push_str(&mut m, "`");
                        Err(RenderError::Failed(string_of(&m)))
                    },
                    Some(j) => {
                        let sec = &f.sections[j].1;
                        match section_value(c, b, st, fk, rs.as_str(), sec) {
                            Err(x) => Err(x),
                            Ok(v) => finish(v, &segs, &expr),
                        }
                    },
                }
            },
        }
    }
}

/// The value of a section named by a reference.
fn section_value(
    c: &Compiler,
    b: &mut Bundle,
    st: &mut Vec<String>,
    fk: &str,
    name: &str,
    sec: &Section,
) -> (r: Result<Value, RenderError>)
    requires
        stack_ok(c@, strs(old(st)@)),
        loaded_ok(c@),
        kv_get(c@.files, fk@) matches Some(f) && kv_get(f.sections, name@) == Some(sec@),
    ensures
        stack_ok(c@, strs(final(st)@)),
        r is Ok ==> final(st)@ == old(st)@,
        value_agree(section_value_r(c@, strs(old(st)@), old(b)@, fk@, name@, sec@), r, final(b)@),
    decreases room(c@, strs(old(st)@)), 0nat, 4int, 0int,
{
    match sec {
        Section::Asset { text, .. } => Ok(Value::Str(text.clone())),
        Section::Alias(target) => {
            let data_path: Option<&String> = match target {
                Target::File { path, section: None } => {
                    let p = chars_of(path.as_str());
                    let kdl = chars_of(".kdl");
                    if has_suffix(&p, &kdl) {
                        Some(path)
                    } else {
                        None
                    }
                },
                _ => None,
            };
            match data_path {
                Some(path) => load_data(c, fk, path.as_str()),
                None => {
                    let mut tmp: Vec<char> = Vec::new();
                    let no_env: Vec<(String, Value)> = Vec::new();
                    let no_props: Vec<Attr> = Vec::new();
                    assert(kv_view(no_env@) =~= Seq::<(Seq<char>, ValueM)>::empty());
                    assert(crate::ast::attrs_view(no_props@) =~= Seq::<AttrM>::empty());
                    match expand_target(c, b, st, fk, target, &no_props, &no_env, &mut tmp) {
                        Err(x) => Err(x),
                        Ok(()) => {
                            assert(tmp@ =~= Seq::<char>::empty() + tmp@);
                            Ok(Value::Str(string_of(&tmp)))
                        },
                    }
                },
            }
        },
        Section::Component(body) => {
            let mut tmp: Vec<char> = Vec::new();
            let no_env: Vec<(String, Value)> = Vec::new();
            assert(kv_view(no_env@) =~= Seq::<(Seq<char>, ValueM)>::empty());
            match render_component_body(c, b, st, fk, name, body, &no_env, &mut tmp) {
                Err(x) => Err(x),
                Ok(()) => {
                    assert(tmp@ =~= Seq::<char>::empty() + tmp@);
                    Ok(Value::Str(string_of(&tmp)))
                },
            }
        },
    }
}

/// A component body, with the section on the stack and its file's assets.
fn render_component_body(
    c: &Compiler,
    b: &mut Bundle,
    st: &mut Vec<String>,
    fk: &str,
    name: &str,
    body: &Vec<Node>,
    env: &Vec<(String, Value)>,
    out: &mut Vec<char>,
) -> (r: Result<(), RenderError>)
    requires
        stack_ok(c@, strs(old(st)@)),
        loaded_ok(c@),
        in_project(c@, fk@, name@),
    ensures
        stack_ok(c@, strs(final(st)@)),
        r is Ok ==> final(st)@ == old(st)@,
        out_agree(
            comp_r(
                c@,
                strs(old(st)@),
                old(b)@,
                fk@,
                name@,
                crate::ast::nodes_view(body@),
                kv_view(env@),
            ),
            r,
            final(b)@,
            old(out)@,
            final(out)@,
            comp_w(
                c@,
                strs(old(st)@),
                old(b)@,
                fk@,
                name@,
                crate::ast::nodes_view(body@),
                kv_view(env@),
            ),
        ),
    decreases room(c@, strs(old(st)@)), 0nat, 0int, 0int,
{
    let id = section_id(fk, name);
    proof {
        lemma_in_project(c@, fk@, name@);
    }
    let ghost s0 = st@;
    match guard(c, st, id) {
        Err(x) => {
            return Err(x);
        },
        Ok(()) => {},
    }
    assert(strs(st@) =~= strs(s0).push(sec_id(fk@, name@)));
    match find_file(c, fk) {
        Some(fi) => {
            add_file_assets(b, fk, &c.files[fi].1);
        },
        None => {},
    }
    match render_nodes(c, b, st, body, env, fk, out) {
        Err(x) => {
            return Err(x);
        },
        Ok(()) => {},
    }
    pop_stack(c, st);
    Ok(())
}

/// What an invocation or an alias points at, expanded.
fn expand_target(
    c: &Compiler,
    b: &mut Bundle,
    st: &mut Vec<String>,
    fk: &str,
    target: &Target,
    props: &Vec<Attr>,
    env: &Vec<(String, Value)>,
    out: &mut Vec<char>,
) -> (r: Result<(), RenderError>)
    requires
        stack_ok(c@, strs(old(st)@)),
        loaded_ok(c@),
    ensures
        stack_ok(c@, strs(final(st)@)),
        r is Ok ==> final(st)@ == old(st)@,
        out_agree(
            target_r(
                c@,
                strs(old(st)@),
                old(b)@,
                fk@,
                target@,
                crate::ast::attrs_view(props@),
                kv_view(env@),
            ),
            r,
            final(b)@,
            old(out)@,
            final(out)@,
            target_w(
                c@,
                strs(old(st)@),
                old(b)@,
                fk@,
                target@,
                crate::ast::attrs_view(props@),
                kv_view(env@),
            ),
        ),
    decreases room(c@, strs(old(st)@)), props@.len(), 3int, 0int,
{
    match target {
        Target::Local(name) => invoke_component(c, b, st, fk, name.as_str(), props, env, out),
        Target::Var(name) => {
            let fi = match find_file(c, fk) {
                None => {
                    let mut m = chars_of("unknown file `");
                    push_str(&mut m, fk);
                    push_str(&mut m, "`");
                    return Err(RenderError::Failed(string_of(&m)));
                },
                Some(fi) => fi,
            };
            let f = &c.files[fi].1;
            match find_section(f, name.as_str()) {
                None => {
                    let mut m = chars_of("unresolved alias `{");
                    push_str(&mut m, name.as_str());
                    push_str(&mut m, "}` in `");
                    push_str(&mut m, fk);
                    push_str(&mut m, "`");
                    Err(RenderError::Failed(string_of(&m)))
                },
                Some(j) => match &f.sections[j].1 {
                    Section::Alias(sub) => {
                        let id = section_id(fk, name.as_str());
                        proof {
                            lemma_in_project(c@, fk@, name@);
                        }
                        let ghost s0 = st@;
                        match guard(c, st, id) {
                            Err(x) => {
                                return Err(x);
                            },
                            Ok(()) => {},
                        }
                        assert(strs(st@) =~= strs(s0).push(sec_id(fk@, name@)));
                        let r = expand_target(c, b, st, fk, sub, props, env, out);
                        pop_stack(c, st);
                        r
                    },
                    Section::Component(_) => invoke_component(
                        c,
                        b,
                        st,
                        fk,
                        name.as_str(),
                        props,
                        env,
                        out,
                    ),
                    Section::Asset { ext, text, .. } => {
                        b.add(fk, name.as_str(), ext.as_str(), text.as_str());
                        assert(out@ =~= old(out)@ + Seq::<char>::empty());
                        Ok(())
                    },
                },
            }
        },
        Target::File { path, section } => {
            let key = key_from(fk, path.as_str());
            match find_file(c, key.as_str()) {
                Some(_) => match section {
                    None => {
                        let mut m = chars_of("file reference `");
                        push_str(&mut m, path.as_str());
                        push_str(&mut m, "` needs a `#section`");
                        Err(RenderError::Failed(string_of(&m)))
                    },
                    Some(s) => invoke_component(c, b, st, key.as_str(), s.as_str(), props, env, out),
                },
                None => {
                    let r = raw_file(c, b, key.as_str(), path.as_str());
                    assert(out@ =~= old(out)@ + Seq::<char>::empty());
                    r
                },
            }
        },
    }
}

/// A section invoked by name, with props.
fn invoke_component(
    c: &Compiler,
    b: &mut Bundle,
    st: &mut Vec<String>,
    fk: &str,
    name: &str,
    props: &Vec<Attr>,
    env: &Vec<(String, Value)>,
    out: &mut Vec<char>,
) -> (r: Result<(), RenderError>)
    requires
        stack_ok(c@, strs(old(st)@)),
        loaded_ok(c@),
    ensures
        stack_ok(c@, strs(final(st)@)),
        r is Ok ==> final(st)@ == old(st)@,
        out_agree(
            invoke_r(
                c@,
                strs(old(st)@),
                old(b)@,
                fk@,
                name@,
                crate::ast::attrs_view(props@),
                kv_view(env@),
            ),
            r,
            final(b)@,
            old(out)@,
            final(out)@,
            invoke_w(
                c@,
                strs(old(st)@),
                old(b)@,
                fk@,
                name@,
                crate::ast::attrs_view(props@),
                kv_view(env@),
            ),
        ),
    decreases room(c@, strs(old(st)@)), props@.len(), 2int, 0int,
{
    let fi = match find_file(c, fk) {
        None => {
            let mut m = chars_of("unknown file `");
            push_str(&mut m, fk);
            push_str(&mut m, "`");
            return Err(RenderError::Failed(string_of(&m)));
        },
        Some(fi) => fi,
    };
    let f = &c.files[fi].1;
    let j = match find_section(f, name) {
        None => {
            let mut m = chars_of("unknown component `#");
            push_str(&mut m, name);
            push_str(&mut m, "` in `");
            push_str(&mut m, fk);
            push_str(&mut m, "`");
            return Err(RenderError::Failed(string_of(&m)));
        },
        Some(j) => j,
    };
    match &f.sections[j].1 {
        Section::Component(body) => {
            let env2 = match resolve_props(c, b, st, props, env, fk, name) {
                Err(x) => {
                    return Err(x);
                },
                Ok(e2) => e2,
            };
            render_component_body(c, b, st, fk, name, body, &env2, out)
        },
        Section::Alias(sub) => {
            let id = section_id(fk, name);
            proof {
                lemma_in_project(c@, fk@, name@);
            }
            let ghost s0 = st@;
            match guard(c, st, id) {
                Err(x) => {
                    return Err(x);
                },
                Ok(()) => {},
            }
            assert(strs(st@) =~= strs(s0).push(sec_id(fk@, name@)));
            let r = expand_target(c, b, st, fk, sub, props, env, out);
            pop_stack(c, st);
            r
        },
        Section::Asset { ext, text, .. } => {
            b.add(fk, name, ext.as_str(), text.as_str());
            assert(out@ =~= old(out)@ + Seq::<char>::empty());
            Ok(())
        },
    }
}

/// The props of an invocation, as the component's variables.
fn resolve_props(
    c: &Compiler,
    b: &mut Bundle,
    st: &mut Vec<String>,
    props: &Vec<Attr>,
    env: &Vec<(String, Value)>,
    fk: &str,
    name: &str,
) -> (r: Result<Vec<(String, Value)>, RenderError>)
    requires
        stack_ok(c@, strs(old(st)@)),
        loaded_ok(c@),
    ensures
        stack_ok(c@, strs(final(st)@)),
        r is Ok ==> final(st)@ == old(st)@,
        match props_r(
            c@,
            strs(old(st)@),
            old(b)@,
            crate::ast::attrs_view(props@),
            0,
            kv_view(env@),
            fk@,
            name@,
            Seq::empty(),
        ) {
            Ok((sb, e2)) => r matches Ok(x) && kv_view(x@) == e2 && final(b)@ == sb,
            Err(e) => r matches Err(x) && x@ == e,
        },
    decreases room(c@, strs(old(st)@)), props@.len(), 1int, props@.len(),
{
    let ghost pv = crate::ast::attrs_view(props@);
    let ghost s0 = strs(st@);
    let ghost total = props_r(c@, s0, b@, pv, 0, kv_view(env@), fk@, name@, Seq::empty());
    let mut env2: Vec<(String, Value)> = Vec::new();
    assert(kv_view(env2@) =~= Seq::<(Seq<char>, ValueM)>::empty());
    let mut i: usize = 0;
    while i < props.len()
        invariant
            i <= props@.len(),
            pv == crate::ast::attrs_view(props@),
            st@ == old(st)@,
            s0 == strs(st@),
            stack_ok(c@, s0),
            loaded_ok(c@),
            total == props_r(c@, s0, b@, pv, i as int, kv_view(env@), fk@, name@, kv_view(env2@)),
            total == props_r(c@, strs(old(st)@), old(b)@, pv, 0, kv_view(env@), fk@, name@, Seq::empty()),
        decreases props@.len() - i,
    {
        let a = &props[i];
        assert(pv[i as int] == a@);
        let ghost bb = b@;
        let ghost rawm = match a@.value {
            Some(x) => x,
            None => RawValueM::Bool(true),
        };
        let ghost step = props_r(c@, s0, bb, pv, i as int, kv_view(env@), fk@, name@, kv_view(env2@));
        let ghost sr = raw_r(c@, s0, bb, rawm, kv_view(env@), fk@);
        let v = match &a.value {
            Some(raw) => match resolve_raw(c, b, st, raw, env, fk) {
                Err(x) => {
                    assert(sr is Err);
                    assert(step == Err::<(BundleM, Seq<(Seq<char>, ValueM)>), RErrM>(x@));
                    return Err(x);
                },
                Ok(v) => v,
            },
            None => Value::Bool(true),
        };
        assert(sr == Ok::<(BundleM, ValueM), RErrM>((b@, v@)));
        let kc = chars_of(a.key.as_str());
        if kv_find(&env2, &kc).is_some() {
            assert(kv_get(kv_view(env2@), a.key@) is Some);
            assert(step == Err::<(BundleM, Seq<(Seq<char>, ValueM)>), RErrM>(
                RErrM::Failed(dup_prop_msg(a.key@, name@)),
            ));
            let mut m = chars_of("duplicate prop `");
            push_str(&mut m, a.key.as_str());
            push_str(&mut m, "` on component `#");
            push_str(&mut m, name);
            push_str(&mut m, "`");
            return Err(RenderError::Failed(string_of(&m)));
        }
        assert(kv_get(kv_view(env2@), a.key@) is None);
        assert(step == props_r(
            c@,
            s0,
            b@,
            pv,
            i + 1,
            kv_view(env@),
            fk@,
            name@,
            kv_insert(kv_view(env2@), a.key@, v@),
        ));
        kv_put(&mut env2, a.key.clone(), v);
        i = i + 1;
    }
    Ok(env2)
}

/// A loop body once per item, with the item bound to the loop variable.
fn render_items(
    c: &Compiler,
    b: &mut Bundle,
    st: &mut Vec<String>,
    items: &Vec<Value>,
    var: &str,
    children: &Vec<Node>,
    env: &Vec<(String, Value)>,
    fk: &str,
    out: &mut Vec<char>,
) -> (r: Result<(), RenderError>)
    requires
        stack_ok(c@, strs(old(st)@)),
        loaded_ok(c@),
    ensures
        stack_ok(c@, strs(final(st)@)),
        r is Ok ==> final(st)@ == old(st)@,
        out_agree(
            items_r(
                c@,
                strs(old(st)@),
                old(b)@,
                crate::data::values_view(items@),
                0,
                var@,
                crate::ast::nodes_view(children@),
                kv_view(env@),
                fk@,
            ),
            r,
            final(b)@,
            old(out)@,
            final(out)@,
            items_w(
                c@,
                strs(old(st)@),
                old(b)@,
                crate::data::values_view(items@),
                0,
                var@,
                crate::ast::nodes_view(children@),
                kv_view(env@),
                fk@,
            ),
        ),
    decreases room(c@, strs(old(st)@)), nslist(crate::ast::nodes_view(children@)), 11int,
        items@.len(),
{
    let ghost iv = crate::data::values_view(items@);
    let ghost cv = crate::ast::nodes_view(children@);
    let ghost s0 = strs(st@);
    let ghost total = items_r(c@, s0, b@, iv, 0, var@, cv, kv_view(env@), fk@);
    let ghost wtotal = items_w(c@, s0, b@, iv, 0, var@, cv, kv_view(env@), fk@);
    let ghost o0 = out@;
    let ghost mut acc: Seq<char> = Seq::empty();
    proof {
        crate::data::lemma_values_view(items@);
        lemma_after(total, Seq::empty(), Seq::empty());
        assert(o0 + acc =~= o0);
        assert(acc + wtotal =~= wtotal);
    }
    let mut i: usize = 0;
    while i < items.len()
        invariant
            i <= items@.len(),
            iv == crate::data::values_view(items@),
            iv.len() == items@.len(),
            forall|k: int| 0 <= k < items@.len() ==> iv[k] == #[trigger] items@[k]@,
            cv == crate::ast::nodes_view(children@),
            st@ == old(st)@,
            s0 == strs(st@),
            stack_ok(c@, s0),
            loaded_ok(c@),
            out@ == o0 + acc,
            total == after(items_r(c@, s0, b@, iv, i as int, var@, cv, kv_view(env@), fk@), acc),
            total == items_r(c@, strs(old(st)@), old(b)@, iv, 0, var@, cv, kv_view(env@), fk@),
            o0 == old(out)@,
            wtotal == acc + items_w(c@, s0, b@, iv, i as int, var@, cv, kv_view(env@), fk@),
            wtotal == items_w(c@, strs(old(st)@), old(b)@, iv, 0, var@, cv, kv_view(env@), fk@),
        decreases items@.len() - i,
    {
        let mut env2 = copy_env(env);
        let item = copy_value(&items[i]);
        kv_put(&mut env2, var.to_owned(), item);
        let ghost sr = nodes_r(c@, s0, b@, cv, 0, kv_insert(kv_view(env@), var@, iv[i as int]), fk@);
        let ghost rest = items_r(c@, s0, b@, iv, i as int, var@, cv, kv_view(env@), fk@);
        let ghost bb = b@;
        let ghost ob = out@;
        let ghost wi = items_w(c@, s0, b@, iv, i as int, var@, cv, kv_view(env@), fk@);
        proof {
            lemma_items_w_step(c@, s0, bb, iv, i as int, var@, cv, kv_view(env@), fk@);
        }
        match render_nodes(c, b, st, children, &env2, fk, out) {
            Err(x) => {
                assert(sr is Err);
                assert(rest == sr);
                assert(out@ =~= o0 + wtotal);
                return Err(x);
            },
            Ok(()) => {},
        }
        proof {
            assert(wtotal =~= (acc + out_of(sr)) + items_w(c@, s0, b@, iv, i + 1, var@, cv, kv_view(env@), fk@));
            lemma_after(items_r(c@, s0, b@, iv, i + 1, var@, cv, kv_view(env@), fk@), out_of(sr), acc);
            acc = acc + out_of(sr);
            assert(out@ =~= o0 + acc);
        }
        i = i + 1;
    }
    proof {
        assert(acc + Seq::<char>::empty() =~= acc);
    }
    Ok(())
}

} // verus!

verus! {

/// Renders the pages of a compiler's project, one at a time; styles and
/// scripts collected for one page stay for the next.
pub struct Render<'c> {
    comp: &'c Compiler,
    bundle: Bundle,
    stack: Vec<String>,
}

impl<'c> Render<'c> {
    #[verifier::type_invariant]
    spec fn inv(self) -> bool {
        &&& stack_ok(self.comp@, strs(self.stack@))
        &&& loaded_ok(self.comp@)
    }

    /// The project being rendered.
    pub closed spec fn compiler(self) -> CompilerM {
        self.comp@
    }

    /// The styles and scripts collected so far.
    pub closed spec fn bundle(self) -> BundleM {
        self.bundle@
    }

    /// The sections being expanded.
    pub closed spec fn stack(self) -> Seq<Seq<char>> {
        strs(self.stack@)
    }

    pub fn new(comp: &'c Compiler) -> (r: Render<'c>)
        requires
            loaded_ok(comp@),
        ensures
            r.compiler() == comp@,
            r.bundle() == empty_bundle(),
            r.stack() == Seq::<Seq<char>>::empty(),
    {
        let r = Render { comp, bundle: Bundle::new(), stack: Vec::new() };
        assert(strs(r.stack@) =~= Seq::<Seq<char>>::empty());
        r
    }

    /// Renders the page `key` into a whole HTML document.
    pub fn render_page(&mut self, key: &str) -> (r: Result<String, RenderError>)
        ensures
            final(self).compiler() == old(self).compiler(),
            bundle_wf(final(self).bundle()),
            stack_ok(final(self).compiler(), final(self).stack()),
            match page_of(old(self).compiler(), old(self).stack(), old(self).bundle(), key@) {
                Ok((b2, html)) => r matches Ok(h) && h@ == html && final(self).bundle() == b2
                    && final(self).stack() == old(self).stack(),
                Err(e) => r matches Err(x) && x@ == e,
            },
    {
        proof {
            use_type_invariant(&*self);
        }
        let c = self.comp;
        let mut st: Vec<String> = Vec::new();
        std::mem::swap(&mut st, &mut self.stack);
        let mut b = Bundle::new();
        std::mem::swap(&mut b, &mut self.bundle);
        let r = page(c, &mut b, &mut st, key);
        std::mem::swap(&mut st, &mut self.stack);
        std::mem::swap(&mut b, &mut self.bundle);
        proof {
            use_type_invariant(&self.bundle);
            use_type_invariant(&*self);
        }
        r
    }
}

/// A page: its assets, its main template, and the document around it.
fn page(c: &Compiler, b: &mut Bundle, st: &mut Vec<String>, key: &str) -> (r: Result<
    String,
    RenderError,
>)
    requires
        stack_ok(c@, strs(old(st)@)),
        loaded_ok(c@),
    ensures
        stack_ok(c@, strs(final(st)@)),
        match page_of(c@, strs(old(st)@), old(b)@, key@) {
            Ok((b2, html)) => r matches Ok(h) && h@ == html && final(b)@ == b2 && final(st)@ == old(
                st,
            )@,
            Err(e) => r matches Err(x) && x@ == e,
        },
{
    let fi = match find_file(c, key) {
        None => {
            let mut m = chars_of("page file `");
            push_str(&mut m, key);
            push_str(&mut m, "` not found");
            return Err(RenderError::Failed(string_of(&m)));
        },
        Some(fi) => fi,
    };
    let f = &c.files[fi].1;
    add_file_assets(b, key, f);
    let mut body: Vec<char> = Vec::new();
    let no_env: Vec<(String, Value)> = Vec::new();
    assert(kv_view(no_env@) =~= Seq::<(Seq<char>, ValueM)>::empty());
    match render_nodes(c, b, st, &f.main, &no_env, key, &mut body) {
        Err(x) => Err(x),
        Ok(()) => {
            assert(body@ =~= Seq::<char>::empty() + body@);
            let css = join_exec(&b.css, "\n");
            let js = join_exec(&b.js, "\n");
            let doc = wrap_document(&body, &css, &js);
            Ok(string_of(&doc))
        },
    }
}

} // verus!

verus! {

// ---------------------------------------------------------------------------
// laws
/// Each (file, section) pair lands in the bundle once: adding it again
/// changes nothing, whatever its extension and text.
pub proof fn lemma_bundle_add_once(
    b: BundleM,
    file: Seq<char>,
    section: Seq<char>,
    ext: Seq<char>,
    text: Seq<char>,
    ext2: Seq<char>,
    text2: Seq<char>,
)
    ensures
        bundle_add(bundle_add(b, file, section, ext, text), file, section, ext2, text2)
            == bundle_add(b, file, section, ext, text),
{
    let b1 = bundle_add(b, file, section, ext, text);
    if !b.seen.contains((file, section)) {
        assert(b1.seen[b.seen.len() as int] == (file, section));
    }
}

/// A bundle whose pairs are distinct and each gave one style or script.
pub open spec fn bundle_wf(b: BundleM) -> bool {
    &&& b.seen.no_duplicates()
    &&& b.css.len() + b.js.len() == b.seen.len()
}

/// Adding to a bundle keeps its pairs distinct, one text per pair.
pub proof fn lemma_bundle_add_wf(
    b: BundleM,
    file: Seq<char>,
    section: Seq<char>,
    ext: Seq<char>,
    text: Seq<char>,
)
    requires
        bundle_wf(b),
    ensures
        bundle_wf(bundle_add(b, file, section, ext, text)),
{
    if !b.seen.contains((file, section)) {
        let s2 = b.seen.push((file, section));
        assert forall|i: int, j: int| 0 <= i < s2.len() && 0 <= j < s2.len() && i != j implies s2[i]
            != s2[j] by {
            if i < b.seen.len() && j < b.seen.len() {
                assert(s2[i] == b.seen[i] && s2[j] == b.seen[j]);
            } else if i < b.seen.len() {
                assert(s2[i] == b.seen[i]);
            } else if j < b.seen.len() {
                assert(s2[j] == b.seen[j]);
            }
        }
    }
}

/// A component whose section is already being expanded is refused with the
/// chain of sections that leads back to it.
/// A component's body sees only its props: two callers whose variables give
/// the props the same values get the same output, bundle and error, and
/// write the same text before an error, whatever else their variables hold.
pub proof fn lemma_body_sees_only_props(
    c: CompilerM,
    st: Seq<Seq<char>>,
    b: BundleM,
    fk: Seq<char>,
    name: Seq<char>,
    props: Seq<AttrM>,
    env1: Seq<(Seq<char>, ValueM)>,
    env2: Seq<(Seq<char>, ValueM)>,
)
    requires
        kv_get(c.files, fk) is Some,
        kv_get(kv_get(c.files, fk)->Some_0.sections, name) matches Some(SectionM::Component(_)),
        props_r(c, st, b, props, 0, env1, fk, name, Seq::empty()) == props_r(
            c,
            st,
            b,
            props,
            0,
            env2,
            fk,
            name,
            Seq::empty(),
        ),
    ensures
        invoke_r(c, st, b, fk, name, props, env1) == invoke_r(c, st, b, fk, name, props, env2),
        invoke_w(c, st, b, fk, name, props, env1) == invoke_w(c, st, b, fk, name, props, env2),
{
}

pub proof fn lemma_reentry_refused(
    c: CompilerM,
    st: Seq<Seq<char>>,
    b: BundleM,
    fk: Seq<char>,
    name: Seq<char>,
    body: Seq<NodeM>,
    env: Seq<(Seq<char>, ValueM)>,
)
    requires
        st.contains(sec_id(fk, name)),
    ensures
        comp_r(c, st, b, fk, name, body, env) == Err::<(BundleM, Seq<char>), RErrM>(
            RErrM::Failed(recursion_msg(st, sec_id(fk, name))),
        ),
{
}

/// When the page has scripts, the document ends with the script block and
/// then the closing `</body>` and `</html>` tags.
pub proof fn lemma_script_before_body(body: Seq<char>, css: Seq<char>, js: Seq<char>)
    requires
        js.len() > 0,
    ensures
        ({
            let d = document_of(body, css, js);
            let t = "<script>\n"@ + js + "\n</script>\n"@ + "</body>\n</html>\n"@;
            d.len() >= t.len() && d.subrange(d.len() - t.len(), d.len() as int) == t
        }),
{
    let d = document_of(body, css, js);
    let t = "<script>\n"@ + js + "\n</script>\n"@ + "</body>\n</html>\n"@;
    let pre = "<!DOCTYPE html>\n<html>\n<head>\n<meta charset=\"utf-8\">\n"@ + (if css.len() > 0 {
        "<style>\n"@ + css + "\n</style>\n"@
    } else {
        Seq::empty()
    }) + "</head>\n<body>\n"@ + body + "\n"@;
    assert(d =~= pre + t);
    assert(d.subrange(d.len() - t.len(), d.len() as int) =~= t);
}

} // verus!

verus! {

/// On a well-formed stack, a section of the project that is not being
/// expanded is always let in: the bound in `guard_of` never refuses one.
pub proof fn lemma_guard_fresh(c: CompilerM, st: Seq<Seq<char>>, fk: Seq<char>, name: Seq<char>)
    requires
        stack_ok(c, st),
        in_project(c, fk, name),
        !st.contains(sec_id(fk, name)),
    ensures
        guard_of(c, st, sec_id(fk, name)) is None,
{
    lemma_in_project(c, fk, name);
    lemma_room(c, st, sec_id(fk, name));
}

/// Rendering starts from an empty stack, which is well-formed.
pub proof fn lemma_empty_stack_ok(c: CompilerM)
    ensures
        stack_ok(c, Seq::empty()),
{
}

} // verus!

verus! {

// ---------------------------------------------------------------------------
// files asked for
/// A result that asks for a file asks for one not read yet.
pub open spec fn fresh_need<T>(c: CompilerM, r: Result<T, RErrM>) -> bool {
    match r {
        Err(RErrM::NeedFile(k)) => kv_get(c.loaded, k) is None,
        _ => true,
    }
}

proof fn lemma_nodes_fresh(
    c: CompilerM,
    st: Seq<Seq<char>>,
    b: BundleM,
    nodes: Seq<NodeM>,
    i: int,
    env: Seq<(Seq<char>, ValueM)>,
    fk: Seq<char>,
)
    ensures
        fresh_need(c, nodes_r(c, st, b, nodes, i, env, fk)),
    decreases room(c, st), nslist(nodes), 10int, nodes.len() - i,
{
    if 0 <= i < nodes.len() {
        lemma_nsize_le(nodes, i);
        lemma_node_fresh(c, st, b, nodes[i], env, fk);
        if let Ok((b1, _)) = node_r(c, st, b, nodes[i], env, fk) {
            lemma_nodes_fresh(c, st, b1, nodes, i + 1, env, fk);
        }
    }
}

proof fn lemma_node_fresh(
    c: CompilerM,
    st: Seq<Seq<char>>,
    b: BundleM,
    node: NodeM,
    env: Seq<(Seq<char>, ValueM)>,
    fk: Seq<char>,
)
    ensures
        fresh_need(c, node_r(c, st, b, node, env, fk)),
    decreases room(c, st), nsize(node), 9int, 0int,
{
    match node {
        NodeM::El { tag, attrs, children, .. } => {
            if tag != "br"@ {
                lemma_attrs_fresh(c, st, b, attrs, 0, env, fk);
                if let Ok((b1, _)) = attrs_r(c, st, b, attrs, 0, env, fk) {
                    lemma_nodes_fresh(c, st, b1, children, 0, env, fk);
                }
            }
        },
        NodeM::Inv { target, props, children, .. } => {
            if children.len() == 0 {
                lemma_target_fresh(c, st, b, fk, target, props, env);
            }
        },
        NodeM::Cond { cond, then_ch, else_ch, .. } => {
            lemma_ref_fresh(c, st, b, cond, env, fk);
            if let Ok((b1, _)) = ref_r(c, st, b, cond, env, fk) {
                lemma_nodes_fresh(c, st, b1, then_ch, 0, env, fk);
                lemma_nodes_fresh(c, st, b1, else_ch, 0, env, fk);
            }
        },
        NodeM::Loop { var, expr, children, .. } => {
            lemma_ref_fresh(c, st, b, expr, env, fk);
            if let Ok((b1, v)) = ref_r(c, st, b, expr, env, fk) {
                lemma_items_fresh(c, st, b1, loop_items(v), 0, var, children, env, fk);
            }
        },
        NodeM::Text { chunks, .. } => {
            lemma_chunks_fresh(c, st, b, chunks, 0, env, fk);
        },
        NodeM::ElseMarker { .. } => {},
    }
}

proof fn lemma_attrs_fresh(
    c: CompilerM,
    st: Seq<Seq<char>>,
    b: BundleM,
    attrs: Seq<AttrM>,
    i: int,
    env: Seq<(Seq<char>, ValueM)>,
    fk: Seq<char>,
)
    ensures
        fresh_need(c, attrs_r(c, st, b, attrs, i, env, fk)),
    decreases room(c, st), attrs.len(), 8int, attrs.len() - i,
{
    if 0 <= i < attrs.len() {
        match attrs[i].value {
            None => lemma_attrs_fresh(c, st, b, attrs, i + 1, env, fk),
            Some(raw) => {
                lemma_raw_fresh(c, st, b, raw, env, fk);
                if let Ok((b1, _)) = raw_r(c, st, b, raw, env, fk) {
                    lemma_attrs_fresh(c, st, b1, attrs, i + 1, env, fk);
                }
            },
        }
    }
}

proof fn lemma_raw_fresh(
    c: CompilerM,
    st: Seq<Seq<char>>,
    b: BundleM,
    raw: RawValueM,
    env: Seq<(Seq<char>, ValueM)>,
    fk: Seq<char>,
)
    ensures
        fresh_need(c, raw_r(c, st, b, raw, env, fk)),
    decreases room(c, st), 0nat, 7int, 0int,
{
    match raw {
        RawValueM::Str(chunks) => lemma_chunks_fresh(c, st, b, chunks, 0, env, fk),
        RawValueM::Ref(expr) => lemma_ref_fresh(c, st, b, expr, env, fk),
        _ => {},
    }
}

proof fn lemma_chunks_fresh(
    c: CompilerM,
    st: Seq<Seq<char>>,
    b: BundleM,
    chunks: Seq<ChunkM>,
    i: int,
    env: Seq<(Seq<char>, ValueM)>,
    fk: Seq<char>,
)
    ensures
        fresh_need(c, chunks_r(c, st, b, chunks, i, env, fk)),
    decreases room(c, st), 0nat, 6int, chunks.len() - i,
{
    if 0 <= i < chunks.len() {
        match chunks[i] {
            ChunkM::Lit(_) => lemma_chunks_fresh(c, st, b, chunks, i + 1, env, fk),
            ChunkM::Ref(expr) => {
                lemma_ref_fresh(c, st, b, expr, env, fk);
                if let Ok((b1, _)) = ref_r(c, st, b, expr, env, fk) {
                    lemma_chunks_fresh(c, st, b1, chunks, i + 1, env, fk);
                }
            },
        }
    }
}

proof fn lemma_ref_fresh(
    c: CompilerM,
    st: Seq<Seq<char>>,
    b: BundleM,
    expr0: Seq<char>,
    env: Seq<(Seq<char>, ValueM)>,
    fk: Seq<char>,
)
    ensures
        fresh_need(c, ref_r(c, st, b, expr0, env, fk)),
    decreases room(c, st), 0nat, 5int, 0int,
{
    let expr = strip_braces_of(expr0);
    if expr.len() > 0 && !file_ref(expr) {
        let (root, segs) = split_segments_of(expr);
        if kv_get(env, root) is None {
            if let Some(f) = kv_get(c.files, fk) {
                if let Some(sec) = kv_get(f.sections, root) {
                    lemma_section_fresh(c, st, b, fk, root, sec);
                }
            }
        }
    }
}

proof fn lemma_section_fresh(
    c: CompilerM,
    st: Seq<Seq<char>>,
    b: BundleM,
    fk: Seq<char>,
    name: Seq<char>,
    sec: SectionM,
)
    ensures
        fresh_need(c, section_value_r(c, st, b, fk, name, sec)),
    decreases room(c, st), 0nat, 4int, 0int,
{
    match sec {
        SectionM::Alias(target) => {
            if data_alias(target) is None {
                lemma_target_fresh(c, st, b, fk, target, Seq::empty(), Seq::empty());
            }
        },
        SectionM::Component(body) => lemma_comp_fresh(c, st, b, fk, name, body, Seq::empty()),
        _ => {},
    }
}

proof fn lemma_comp_fresh(
    c: CompilerM,
    st: Seq<Seq<char>>,
    b: BundleM,
    fk: Seq<char>,
    name: Seq<char>,
    body: Seq<NodeM>,
    env: Seq<(Seq<char>, ValueM)>,
)
    ensures
        fresh_need(c, comp_r(c, st, b, fk, name, body, env)),
    decreases room(c, st), 0nat, 0int, 0int,
{
    let id = sec_id(fk, name);
    if guard_of(c, st, id) is None {
        let b1 = match kv_get(c.files, fk) {
            Some(f) => assets_go(b, fk, f.sections, 0),
            None => b,
        };
        lemma_nodes_fresh(c, st.push(id), b1, body, 0, env, fk);
    }
}

proof fn lemma_target_fresh(
    c: CompilerM,
    st: Seq<Seq<char>>,
    b: BundleM,
    fk: Seq<char>,
    target: TargetM,
    props: Seq<AttrM>,
    env: Seq<(Seq<char>, ValueM)>,
)
    ensures
        fresh_need(c, target_r(c, st, b, fk, target, props, env)),
    decreases room(c, st), props.len(), 3int, 0int,
{
    match target {
        TargetM::Local(name) => lemma_invoke_fresh(c, st, b, fk, name, props, env),
        TargetM::Var(name) => {
            if let Some(f) = kv_get(c.files, fk) {
                match kv_get(f.sections, name) {
                    Some(SectionM::Alias(sub)) => {
                        let id = sec_id(fk, name);
                        if guard_of(c, st, id) is None {
                            lemma_target_fresh(c, st.push(id), b, fk, sub, props, env);
                        }
                    },
                    Some(SectionM::Component(_)) => lemma_invoke_fresh(
                        c,
                        st,
                        b,
                        fk,
                        name,
                        props,
                        env,
                    ),
                    _ => {},
                }
            }
        },
        TargetM::File { path, section } => {
            let key = file_key_of(base_dir_of(fk), path);
            if kv_get(c.files, key) is Some {
                if let Some(s) = section {
                    lemma_invoke_fresh(c, st, b, key, s, props, env);
                }
            }
        },
    }
}

proof fn lemma_invoke_fresh(
    c: CompilerM,
    st: Seq<Seq<char>>,
    b: BundleM,
    fk: Seq<char>,
    name: Seq<char>,
    props: Seq<AttrM>,
    env: Seq<(Seq<char>, ValueM)>,
)
    ensures
        fresh_need(c, invoke_r(c, st, b, fk, name, props, env)),
    decreases room(c, st), props.len(), 2int, 0int,
{
    if let Some(f) = kv_get(c.files, fk) {
        match kv_get(f.sections, name) {
            Some(SectionM::Component(body)) => {
                lemma_props_fresh(c, st, b, props, 0, env, fk, name, Seq::empty());
                if let Ok((b1, env2)) = props_r(c, st, b, props, 0, env, fk, name, Seq::empty()) {
                    lemma_comp_fresh(c, st, b1, fk, name, body, env2);
                }
            },
            Some(SectionM::Alias(sub)) => {
                let id = sec_id(fk, name);
                if guard_of(c, st, id) is None {
                    lemma_target_fresh(c, st.push(id), b, fk, sub, props, env);
                }
            },
            _ => {},
        }
    }
}

proof fn lemma_props_fresh(
    c: CompilerM,
    st: Seq<Seq<char>>,
    b: BundleM,
    props: Seq<AttrM>,
    i: int,
    env: Seq<(Seq<char>, ValueM)>,
    fk: Seq<char>,
    name: Seq<char>,
    env2: Seq<(Seq<char>, ValueM)>,
)
    ensures
        fresh_need(c, props_r(c, st, b, props, i, env, fk, name, env2)),
    decreases room(c, st), props.len(), 1int, props.len() - i,
{
    if 0 <= i < props.len() {
        let a = props[i];
        let raw = match a.value {
            Some(v) => v,
            None => RawValueM::Bool(true),
        };
        lemma_raw_fresh(c, st, b, raw, env, fk);
        if let Ok((b1, v)) = raw_r(c, st, b, raw, env, fk) {
            if kv_get(env2, a.key) is None {
                lemma_props_fresh(c, st, b1, props, i + 1, env, fk, name, kv_insert(env2, a.key, v));
            }
        }
    }
}

proof fn lemma_items_fresh(
    c: CompilerM,
    st: Seq<Seq<char>>,
    b: BundleM,
    items: Seq<ValueM>,
    i: int,
    var: Seq<char>,
    children: Seq<NodeM>,
    env: Seq<(Seq<char>, ValueM)>,
    fk: Seq<char>,
)
    ensures
        fresh_need(c, items_r(c, st, b, items, i, var, children, env, fk)),
    decreases room(c, st), nslist(children), 11int, items.len() - i,
{
    if 0 <= i < items.len() {
        lemma_nodes_fresh(c, st, b, children, 0, kv_insert(env, var, items[i]), fk);
        if let Ok((b1, _)) = nodes_r(c, st, b, children, 0, kv_insert(env, var, items[i]), fk) {
            lemma_items_fresh(c, st, b1, items, i + 1, var, children, env, fk);
        }
    }
}

/// Rendering a page asks only for a file that has not been read: reading
/// each file asked for and rendering again always makes progress.
pub proof fn lemma_page_asks_fresh(c: CompilerM, st: Seq<Seq<char>>, b: BundleM, key: Seq<char>)
    ensures
        fresh_need(c, page_of(c, st, b, key)),
{
    if let Some(f) = kv_get(c.files, key) {
        lemma_nodes_fresh(c, st, assets_go(b, key, f.sections, 0), f.main, 0, Seq::empty(), key);
    }
}

} // verus!

verus! {

/// A `<:for>` runs its body once per item of a list, once with the value
/// itself when the value is not a list but is true, and not at all when it
/// is false.
pub proof fn lemma_loop_items_law(v: ValueM)
    ensures
        v matches ValueM::Lst(l) ==> loop_items(v) == l,
        !(v is Lst) && truthy_of(v) ==> loop_items(v) == seq![v],
        !(v is Lst) && !truthy_of(v) ==> loop_items(v).len() == 0,
{
}

/// Rendering a `<:for>` whose value is not a list but is true renders the
/// body once, with the loop variable bound to that value.
pub proof fn lemma_loop_over_single_value(
    c: CompilerM,
    st: Seq<Seq<char>>,
    b: BundleM,
    line: nat,
    var: Seq<char>,
    expr: Seq<char>,
    children: Seq<NodeM>,
    env: Seq<(Seq<char>, ValueM)>,
    fk: Seq<char>,
    b1: BundleM,
    v: ValueM,
)
    requires
        ref_r(c, st, b, expr, env, fk) == Ok::<(BundleM, ValueM), RErrM>((b1, v)),
        !(v is Lst),
        truthy_of(v),
    ensures
        node_r(c, st, b, NodeM::Loop { line, var, expr, children }, env, fk) == match nodes_r(
            c,
            st,
            b1,
            children,
            0,
            kv_insert(env, var, v),
            fk,
        ) {
            Err(e) => Err(e),
            Ok((b2, o)) => Ok::<(BundleM, Seq<char>), RErrM>((b2, o)),
        },
{
    let items = seq![v];
    assert(loop_items(v) == items);
    assert(items_r(c, st, b1, items, 1, var, children, env, fk) == Ok::<
        (BundleM, Seq<char>),
        RErrM,
    >((b1, Seq::empty())));
    match nodes_r(c, st, b1, children, 0, kv_insert(env, var, v), fk) {
        Err(e) => {},
        Ok((b2, o)) => {
            assert(items_r(c, st, b2, items, 1, var, children, env, fk) == Ok::<
                (BundleM, Seq<char>),
                RErrM,
            >((b2, Seq::empty())));
            assert(o + Seq::<char>::empty() =~= o);
        },
    }
}

} // verus!
