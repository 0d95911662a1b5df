use dreamfish::parser::parse;
use dreamfish::project::{kept_parts, output_clash, OutputClash, PartKind};
use dreamfish::project::{is_template, key_of_path, skipped_dir, build_summary, find_collisions, ident_root, page_failure, strip_brackets, validate_collisions, ProjectFiles};

fn chars(s: &str) -> Vec<char> {
    s.chars().collect()
}

#[test]
fn brackets_are_removed() {
    let s: String = strip_brackets(&chars("item[2].name")).iter().collect();
    assert_eq!(s, "item.name");
    let s: String = strip_brackets(&chars("a]b[c[d]e]f")).iter().collect();
    assert_eq!(s, "abf");
}

#[test]
fn roots_of_expressions() {
    let mut out = Vec::new();
    ident_root("{item[2].name}", &mut out);
    ident_root("item.other", &mut out);
    ident_root("./data.kdl.x", &mut out);
    ident_root("  who  ", &mut out);
    assert_eq!(out, vec!["item", "who"]);
}

#[test]
fn collision_is_found_with_its_line() {
    let f = parse("main.df", "<:Widget\n#Widget\n<div > {item}\n#item\n<span > nope\n").unwrap();
    let c = find_collisions("main.df", &f);
    assert_eq!(c, vec![("Widget".to_string(), "item".to_string(), 3)]);
    assert_eq!(
        validate_collisions("main.df", &f).unwrap_err(),
        "main.df: prop/variable `{item}` used inside component `#Widget` collides with a section of the same name defined in this file"
    );
}

#[test]
fn no_collision_for_props() {
    let f = parse("main.df", "<:Card title=\"x\"\n#Card\n<h > {title}\n").unwrap();
    assert!(find_collisions("main.df", &f).is_empty());
    assert!(validate_collisions("main.df", &f).is_ok());
}

#[test]
fn empty_project_is_refused() {
    let p = ProjectFiles::new();
    assert_eq!(p.finish().err().unwrap(), "no `.df` files found");
}

#[test]
fn parse_errors_are_prefixed() {
    let mut p = ProjectFiles::new();
    let e = p.add_source("main.df", "<:else\n").unwrap_err();
    assert_eq!(e, "parse error: line 1: `<:else` without a matching `<:if`");
}

#[test]
fn summary_and_failure_lines() {
    assert_eq!(build_summary(3, 3, "out", false), "Complete: built 3 pages from 3 files into `out`");
    assert_eq!(build_summary(1, 1, "o", true), "\x1b[32mComplete\x1b[0m: built 1 page from 1 file into `o`");
    assert_eq!(page_failure("index.df", "boom"), "index.df: boom");
}

#[test]
fn which_files_make_a_project() {
    assert!(skipped_dir(".git"));
    assert!(skipped_dir("target"));
    assert!(skipped_dir("node_modules"));
    assert!(!skipped_dir("pages"));
    assert!(is_template("index.df"));
    assert!(!is_template("index.df.bak"));
    assert_eq!(key_of_path("texts\\blog.df"), "texts/blog.df");
}

#[test]
fn output_may_not_be_or_hold_the_input() {
    let v = |parts: &[&str]| parts.iter().map(|p| p.to_string()).collect::<Vec<String>>();
    assert_eq!(output_clash(&v(&["/", "site"]), &v(&["/", "site"])), Some(OutputClash::Same));
    assert_eq!(output_clash(&v(&["/", "site", "src"]), &v(&["/", "site"])), Some(OutputClash::Contains));
    assert_eq!(output_clash(&v(&["/", "site"]), &v(&["/", "site", "dist"])), None);
    assert_eq!(output_clash(&v(&["/", "site"]), &v(&["/", "sitex"])), None);
    assert_eq!(output_clash(&v(&["/", "site", "src"]), &v(&["/", "dist"])), None);
}

#[test]
fn dot_and_dotdot_are_resolved_by_position() {
    let k = vec![PartKind::Root, PartKind::Name, PartKind::Cur, PartKind::Name, PartKind::Parent, PartKind::Name];
    assert_eq!(kept_parts(&k), vec![0, 1, 5]);
    let k = vec![PartKind::Root, PartKind::Parent, PartKind::Name];
    assert_eq!(kept_parts(&k), vec![0, 2]);
    let k = vec![PartKind::Name, PartKind::Parent, PartKind::Parent, PartKind::Name];
    assert_eq!(kept_parts(&k), vec![3]);
}
