use dreamfish::compiler::page_route;
use dreamfish::project::ProjectFiles;
use dreamfish::render::{Compiler, FileText, Render, RenderError};

/// Builds every page from in-memory files, as the command does, giving
/// (route, html) pairs or the first error.
fn site(files: &[(&str, &str)]) -> Result<Vec<(String, String)>, String> {
    let mut project = ProjectFiles::new();
    for (rel, src) in files.iter().filter(|(k, _)| k.ends_with(".df")) {
        project.add_source(rel, src)?;
    }
    let (mut comp, pages): (Compiler, Vec<String>) = project.finish()?;
    let mut out = Vec::new();
    for key in &pages {
        loop {
            let result = {
                let mut render = Render::new(&comp);
                render.render_page(key)
            };
            match result {
                Ok(html) => {
                    out.push((page_route(key), html));
                    break;
                }
                Err(RenderError::Failed(e)) => return Err(format!("{key}: {e}")),
                Err(RenderError::NeedFile(k)) => {
                    let text = match files.iter().find(|(name, _)| *name == k) {
                        Some((_, t)) => FileText::Read(t.to_string()),
                        None => FileText::Unreadable("No such file or directory (os error 2)".to_string()),
                    };
                    comp.loaded.push((k, text));
                }
            }
        }
    }
    Ok(out)
}

fn extract<'a>(html: &'a str, open: &str, close: &str) -> &'a str {
    let start = html.find(open).map(|i| i + open.len()).unwrap_or(0);
    let end = html[start..].find(close).map(|i| start + i).unwrap_or(html.len());
    &html[start..end]
}

fn page(files: &[(&str, &str)], route: &str) -> String {
    let pages = site(files).unwrap_or_else(|e| panic!("build failed: {e}"));
    pages
        .into_iter()
        .find(|(r, _)| r == route)
        .map(|(_, h)| h)
        .unwrap_or_else(|| panic!("no page `{route}`"))
}

fn body(files: &[(&str, &str)]) -> String {
    let html = page(files, "index.html");
    extract(&html, "<body>", "</body>").trim().to_string()
}

#[test]
fn element_with_attributes_and_text() {
    let b = body(&[("index.df", "<div id=\"hero\" class=\"hero\"\n  <h > Hello, world!\n")]);
    assert_eq!(b, "<div id=\"hero\" class=\"hero\"><h>Hello, world!</h></div>");
}

#[test]
fn br_stands_alone() {
    let b = body(&[("index.df", "<p\n  before\n  <br\n  after\n")]);
    assert_eq!(b, "<p>before<br/>after</p>");
}

#[test]
fn whole_document_shape() {
    let html = page(&[("index.df", "<p > hi\n")], "index.html");
    assert_eq!(
        html,
        "<!DOCTYPE html>\n<html>\n<head>\n<meta charset=\"utf-8\">\n</head>\n<body>\n<p>hi</p>\n</body>\n</html>\n"
    );
}

#[test]
fn component_with_props() {
    let b = body(&[(
        "index.df",
        "<:Card title=\"First\" note=\"short\"\n<:Card title=\"Second\" note=\"longer text\"\n#Card\n<div class=\"card\"\n  <h > {title}\n  <p > {note}\n",
    )]);
    assert_eq!(
        b,
        "<div class=\"card\"><h>First</h><p>short</p></div><div class=\"card\"><h>Second</h><p>longer text</p></div>"
    );
}

#[test]
fn if_else_on_a_prop() {
    let b = body(&[(
        "index.df",
        "<:Badge on=true\n<:Badge on=false\n#Badge\n<:if {on}\n  <span > yes\n<:else\n  <span > no\n",
    )]);
    assert_eq!(b, "<span>yes</span><span>no</span>");
}

#[test]
fn duplicate_prop_is_refused() {
    let r = site(&[("index.df", "<:Card a=\"1\" a=\"2\"\n#Card\n<p > x\n")]);
    assert_eq!(r.unwrap_err(), "index.df: duplicate prop `a` on component `#Card`");
}

#[test]
fn invocation_with_children_is_refused() {
    let r = site(&[("index.df", "<:Card\n  <p > child\n#Card\n<p > x\n")]);
    assert_eq!(r.unwrap_err(), "index.df: component `#Card` does not accept child content");
}

#[test]
fn unknown_component_is_refused() {
    let r = site(&[("index.df", "<:Nope\n")]);
    assert_eq!(r.unwrap_err(), "index.df: unknown component `#Nope` in `index.df`");
}

#[test]
fn asset_sections_are_bundled_once() {
    let html = page(
        &[(
            "index.df",
            "<:Widget\n<:Widget\n#Widget\n<b > w\n#widget.css\n.widget { color: red; }\n#widget.js\nconsole.log(\"beep\");\n",
        )],
        "index.html",
    );
    let style = extract(&html, "<style>", "</style>");
    let script = extract(&html, "<script>", "</script>");
    assert_eq!(style.matches(".widget { color: red; }").count(), 1);
    assert_eq!(script.matches("console.log(\"beep\");").count(), 1);
    let s = html.find("<script>").unwrap();
    let e = html.find("</body>").unwrap();
    assert!(s < e);
}

#[test]
fn raw_css_file_is_read_from_disk() {
    let html = page(
        &[("index.df", "<:./site.css\n<p > x\n"), ("site.css", ".site { background: ivory; }")],
        "index.html",
    );
    assert!(extract(&html, "<style>", "</style>").contains(".site { background: ivory; }"));
}

#[test]
fn missing_raw_file_reports_the_read_error() {
    let r = site(&[("index.df", "<:./gone.css\n")]);
    assert_eq!(
        r.unwrap_err(),
        "index.df: cannot load asset `gone.css`: No such file or directory (os error 2)"
    );
}

#[test]
fn unsupported_raw_extension() {
    let r = site(&[("index.df", "<:./logo.png\n")]);
    assert_eq!(r.unwrap_err(), "index.df: cannot include raw asset `./logo.png`: unsupported extension");
}

#[test]
fn cross_file_component() {
    let b = body(&[
        ("index.df", "<:./lib/shared.df#Shared\n"),
        ("lib/shared.df", "#Shared\n<span class=\"shared\" > loaded from lib\n"),
    ]);
    assert_eq!(b, "<span class=\"shared\">loaded from lib</span>");
}

#[test]
fn file_reference_without_section() {
    let r = site(&[("index.df", "<:./lib.df\n"), ("lib.df", "#A\n<p > a\n")]);
    assert_eq!(r.unwrap_err(), "index.df: file reference `./lib.df` needs a `#section`");
}

#[test]
fn pages_map_to_routes() {
    // index.df -> index.html, contact.df -> contact.html,
    // texts/blog.df -> texts/blog.html (its data file is found next to it).
    let files = [
        ("index.df", "<p > Home page\n"),
        ("contact.df", "<p > Contact us\n"),
        ("texts/blog.df", "<h > {./posts.kdl.title}\n"),
        ("texts/posts.kdl", "post {\n  title \"First post\"\n}\n"),
    ];
    let pages = site(&files).unwrap_or_else(|e| panic!("build failed: {e}"));
    let mut routes: Vec<&str> = pages.iter().map(|(r, _)| r.as_str()).collect();
    routes.sort();
    assert_eq!(routes, vec!["contact.html", "index.html", "texts/blog.html"]);
    let html = |route: &str| pages.iter().find(|(r, _)| r == route).map(|(_, h)| h.clone()).unwrap();
    assert!(html("index.html").contains("Home page"));
    assert!(html("contact.html").contains("Contact us"));
    assert!(html("texts/blog.html").contains("First post"));
    let log = dreamfish::project::build_summary(pages.len(), 3, "out", false);
    assert!(log.contains("Complete: built 3 pages from 3 files"), "log:\n{log}");
    assert!(!log.contains("error"), "log:\n{log}");
}

#[test]
fn loop_over_data_file() {
    let b = body(&[
        ("index.df", "<ul\n  <:for item in {./data.kdl.row}\n    <li > {item.name}\n"),
        ("data.kdl", "rows {\n  row name=\"one\"\n  row name=\"two\"\n}\n"),
    ]);
    assert_eq!(b, "<ul><li>one</li><li>two</li></ul>");
}

#[test]
fn missing_data_file() {
    let r = site(&[("index.df", "<p > {./none.kdl.x}\n")]);
    assert_eq!(
        r.unwrap_err(),
        "index.df: cannot load data file `none.kdl`: No such file or directory (os error 2)"
    );
}

#[test]
fn reference_must_name_a_kdl_file() {
    let r = site(&[("index.df", "<p > {./data.json.x}\n")]);
    assert_eq!(
        r.unwrap_err(),
        "index.df: data file reference `./data.json.x` must reference a `.kdl` file"
    );
}

#[test]
fn alias_to_component_and_asset() {
    let html = page(
        &[
            ("index.df", "<:{Logo}\n<:{Drink}\n#Logo > ./logo.js\n#Drink > Coffee\n#Coffee\n<div class=\"coffee\" > espresso\n"),
            ("logo.js", "function logo(){ return \"svg\"; }"),
        ],
        "index.html",
    );
    assert!(html.contains("<div class=\"coffee\">espresso</div>"), "{html}");
    assert!(extract(&html, "<script>", "</script>").contains("function logo(){ return \"svg\"; }"));
}

#[test]
fn recursion_through_an_alias() {
    let r = site(&[("index.df", "<:{A}\n#A > {A}\n")]);
    let e = r.unwrap_err();
    assert!(e.contains("recursive component invocation detected: index.df#A > index.df#A"), "{e}");
}

#[test]
fn empty_reference() {
    let r = site(&[("index.df", "<p > {  }\n")]);
    assert_eq!(r.unwrap_err(), "index.df: empty reference expression");
}

#[test]
fn missing_field_and_index() {
    let data = ("d.kdl", "row name=\"a\"\n");
    let r = site(&[("index.df", "<p > {./d.kdl.nope}\n"), data]);
    assert_eq!(r.unwrap_err(), "index.df: reference `./d.kdl.nope`: no field `nope`");
    let r = site(&[("index.df", "<p > {./d.kdl[5]}\n"), data]);
    assert_eq!(r.unwrap_err(), "index.df: reference `./d.kdl[5]`: index `5` out of bounds");
    let r = site(&[("index.df", "<p > {./d.kdl[-9]}\n"), data]);
    assert_eq!(r.unwrap_err(), "index.df: reference `./d.kdl[-9]`: index `-9` out of bounds");
}

#[test]
fn field_and_index_of_data() {
    let data = ("d.kdl", "pkg {\n  version \"1.0.0\" \"1.1.0\" \"1.2.0\"\n  name \"dreamfish\"\n}\n");
    let b = body(&[("index.df", "<p > {./d.kdl.version[-1]} {./d.kdl.name}\n"), data]);
    assert_eq!(b, "<p>1.2.0 dreamfish</p>");
}

#[test]
fn unresolved_alias() {
    let r = site(&[("index.df", "<:{nothing}\n")]);
    assert_eq!(r.unwrap_err(), "index.df: unresolved alias `{nothing}` in `index.df`");
}

#[test]
fn broken_data_file() {
    let r = site(&[("index.df", "<p > {./d.kdl.x}\n"), ("d.kdl", "a {\n")]);
    assert_eq!(r.unwrap_err(), "index.df: error parsing `d.kdl`: unclosed `{{` in KDL node");
}

#[test]
fn else_inside_a_chain_reaches_the_renderer() {
    let r = site(&[("index.df", "<div > <:else\n")]);
    assert_eq!(r.unwrap_err(), "index.df: internal: unexpanded `<:else` node reached the renderer");
}

#[test]
fn unknown_page_and_files_asked_for() {
    let mut project = ProjectFiles::new();
    project.add_source("index.df", "<p > {./d.kdl.x}\n").unwrap();
    let (comp, _) = project.finish().unwrap();
    let mut render = Render::new(&comp);
    match render.render_page("nope.df") {
        Err(RenderError::Failed(m)) => assert_eq!(m, "page file `nope.df` not found"),
        other => panic!("unexpected {other:?}"),
    }
    let mut render = Render::new(&comp);
    match render.render_page("index.df") {
        Err(RenderError::NeedFile(k)) => assert_eq!(k, "d.kdl"),
        other => panic!("unexpected {other:?}"),
    }
}

#[test]
fn data_alias_is_traversed_and_looped() {
    let b = body(&[
        (
            "index.df",
            "<div class=\"site\" > {meta.title}\n<ul\n  <:for t in {meta.tag}\n    <li > {t}\n#meta > ./meta.kdl\n",
        ),
        ("meta.kdl", "site {\n  title \"dreamfish\"\n  tag \"rust\"\n  tag \"kdl\"\n}\n"),
    ]);
    assert_eq!(b, "<div class=\"site\">dreamfish</div><ul><li>rust</li><li>kdl</li></ul>");
}
