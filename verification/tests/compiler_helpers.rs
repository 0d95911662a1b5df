use dreamfish::ast::Target;
use dreamfish::compiler::{page_route, resolve_file_key, split_file_ref, split_segments, strip_braces, target_label, Seg};

fn chars(s: &str) -> Vec<char> {
    s.chars().collect()
}

fn text(v: &[char]) -> String {
    v.iter().collect()
}

#[test]
fn segments_of_a_dotted_reference() {
    let (root, segs) = split_segments(&chars("item.name"));
    assert_eq!(text(&root), "item");
    assert_eq!(segs.len(), 1);
    assert!(matches!(&segs[0], Seg::Field(f) if f == "name"));
}

#[test]
fn segments_with_an_index() {
    let (root, segs) = split_segments(&chars("item[2].x"));
    assert_eq!(text(&root), "item");
    assert_eq!(segs.len(), 2);
    assert!(matches!(&segs[0], Seg::Index(2)));
    assert!(matches!(&segs[1], Seg::Field(f) if f == "x"));
}

#[test]
fn segments_with_a_quoted_key_and_negative_index() {
    let (root, segs) = split_segments(&chars("deps[\"lodash\"][-1]"));
    assert_eq!(text(&root), "deps");
    assert!(matches!(&segs[0], Seg::Field(f) if f == "lodash"));
    assert!(matches!(&segs[1], Seg::Index(-1)));
}

#[test]
fn file_reference_split_at_kdl() {
    let (path, segs) = split_file_ref(&chars("./data.kdl.foo[2]")).unwrap();
    assert_eq!(text(&path), "./data.kdl");
    assert_eq!(segs.len(), 2);
    assert!(matches!(&segs[0], Seg::Field(f) if f == "foo"));
    assert!(matches!(&segs[1], Seg::Index(2)));
}

#[test]
fn file_reference_without_kdl() {
    assert_eq!(
        split_file_ref(&chars("./x.json")).unwrap_err(),
        "data file reference `./x.json` must reference a `.kdl` file"
    );
}

#[test]
fn file_keys_resolve_dots() {
    assert_eq!(resolve_file_key("", "./a.df"), "a.df");
    assert_eq!(resolve_file_key("texts", "../lib/x.df"), "lib/x.df");
    assert_eq!(resolve_file_key("a/b", "./c/../d.kdl"), "a/b/d.kdl");
    assert_eq!(resolve_file_key("", "../../x"), "x");
    assert_eq!(resolve_file_key("", "/abs//y"), "abs/y");
}

#[test]
fn routes_of_pages() {
    assert_eq!(page_route("index.df"), "index.html");
    assert_eq!(page_route("texts/blog.df"), "texts/blog.html");
    assert_eq!(page_route("notes.txt"), "notes.txt");
}

#[test]
fn labels_of_targets() {
    assert_eq!(target_label(&Target::Local("Card".to_string())), "#Card");
    assert_eq!(target_label(&Target::Var("logo".to_string())), "{logo}");
    assert_eq!(
        target_label(&Target::File { path: "./a.df".to_string(), section: Some("X".to_string()) }),
        "./a.df#X"
    );
    assert_eq!(target_label(&Target::File { path: "./a.css".to_string(), section: None }), "./a.css");
}

#[test]
fn braces_are_stripped_after_trimming() {
    assert_eq!(text(&strip_braces(&chars("  {item.name} "))), "item.name");
    assert_eq!(text(&strip_braces(&chars("plain"))), "plain");
}

#[test]
fn a_resolved_key_resolves_to_itself() {
    let r = resolve_file_key("texts/a", "../b/./c.df");
    assert_eq!(r, "texts/b/c.df");
    assert_eq!(resolve_file_key("", &r), r);
}
