use dreamfish::compiler::page_route;
use dreamfish::project::ProjectFiles;
use dreamfish::render::{Compiler, FileText, Render, RenderError};

/// Builds every page from in-memory files, as the command does, giving
/// (route, html) pairs or the first error.
fn site(files: &[(&str, &str)]) -> Result<Vec<(String, String)>, String> {
    let mut project = ProjectFiles::new();
    for (rel, src) in files.iter().filter(|(k, _)| k.ends_with(".df")) {
        project.add_source(rel, src)?;
    }
    let (mut comp, pages): (Compiler, Vec<String>) = project.finish()?;
    let mut out = Vec::new();
    for key in &pages {
        loop {
            let result = {
                let mut render = Render::new(&comp);
                render.render_page(key)
            };
            match result {
                Ok(html) => {
                    out.push((page_route(key), html));
                    break;
                }
                Err(RenderError::Failed(e)) => return Err(format!("{key}: {e}")),
                Err(RenderError::NeedFile(k)) => {
                    let text = match files.iter().find(|(name, _)| *name == k) {
                        Some((_, t)) => FileText::Read(t.to_string()),
                        None => FileText::Unreadable("No such file or directory (os error 2)".to_string()),
                    };
                    comp.loaded.push((k, text));
                }
            }
        }
    }
    Ok(out)
}

fn extract<'a>(html: &'a str, open: &str, close: &str) -> &'a str {
    let start = html.find(open).map(|i| i + open.len()).unwrap_or(0);
    let end = html[start..].find(close).map(|i| start + i).unwrap_or(html.len());
    &html[start..end]
}

fn page(files: &[(&str, &str)], route: &str) -> String {
    let pages = site(files).unwrap_or_else(|e| panic!("build failed: {e}"));
    pages
        .into_iter()
        .find(|(r, _)| r == route)
        .map(|(_, h)| h)
        .unwrap_or_else(|| panic!("no page `{route}`"))
}

fn body(files: &[(&str, &str)]) -> String {
    let html = page(files, "index.html");
    extract(&html, "<body>", "</body>").trim().to_string()
}


fn count(haystack: &str, needle: &str) -> usize {
    haystack.matches(needle).count()
}

fn style(html: &str) -> String {
    extract(html, "<style>", "</style>").to_string()
}

fn script(html: &str) -> String {
    extract(html, "<script>", "</script>").to_string()
}

#[test]
fn elements_attrs_nesting_text_and_br() {
    let files = [(
        "index.df",
        "<div id=\"hero\" class=\"hero\"\n  <h > Hello, world!\n  <p class=\"sub\"\n    Some text here.\n    Another line.\n    <br\n    after the break.\n<footer\n  <p > Bye\n",
    )];
    assert_eq!(
        body(&files),
        "<div id=\"hero\" class=\"hero\"><h>Hello, world!</h>\
         <p class=\"sub\">Some text here.Another line.<br/>after the break.</p></div>\
         <footer><p>Bye</p></footer>"
    );
    assert!(!style(&page(&files, "index.html")).contains("none"));
}

#[test]
fn inline_chain_operator() {
    let files = [(
        "index.df",
        "<nav > <ul > <li > <a href=\"/home\" > Home\n<nav > <ul > <li > <a href=\"/about\" > About\n",
    )];
    assert_eq!(
        body(&files),
        "<nav><ul><li><a href=\"/home\">Home</a></li></ul></nav>\
         <nav><ul><li><a href=\"/about\">About</a></li></ul></nav>"
    );
}

#[test]
fn text_and_attr_interpolation_of_props() {
    let files = [(
        "index.df",
        "<:Greet user=\"Ada\" mood=\"friendly\"\n#Greet\n<p data-user={user} > Hello, {user}! {mood} as always.\n",
    )];
    let b = body(&files);
    assert!(b.contains("data-user=\"Ada\""), "{b}");
    assert!(b.contains("Hello, Ada! friendly as always."), "{b}");
}

#[test]
fn if_else_drives_both_branches() {
    let files = [(
        "index.df",
        "<:Card featured=true\n<:Card featured=false\n#Card\n<div class=\"card\"\n  <:if {featured}\n    <span class=\"badge\" > highlighted\n  <:else\n    <span class=\"plain\" > plain\n",
    )];
    assert_eq!(
        body(&files),
        "<div class=\"card\"><span class=\"badge\">highlighted</span></div>\
         <div class=\"card\"><span class=\"plain\">plain</span></div>"
    );
}

#[test]
fn for_loop_over_kdl_data() {
    let files = [
        (
            "index.df",
            "<ul\n  <:for item in {./data.kdl.row}\n    <li > {item.name}: {item.score}\n<:for item in {./data.kdl.row}\n  <div class=\"row\"\n    <a href=\"/{item.name}\"\n      <h > {item.name}\n      <p > {item.score}\n",
        ),
        ("data.kdl", "rows {\n  row name=\"one\" score=1\n  row name=\"two\" score=7.5\n}\n"),
    ];
    assert_eq!(
        body(&files),
        "<ul><li>one: 1</li><li>two: 7.5</li></ul>\
         <div class=\"row\"><a href=\"/one\"><h>one</h><p>1</p></a></div>\
         <div class=\"row\"><a href=\"/two\"><h>two</h><p>7.5</p></a></div>"
    );
}

#[test]
fn kdl_tree_traversal() {
    let files = [
        (
            "index.df",
            "<div > {./tree.kdl.dependencies.lodash}\n\
             <div > {./tree.kdl.versions[2]}\n\
             <div > {./tree.kdl.versions[-1]}\n\
             <ul\n  <:for v in {./tree.kdl.versions}\n    <li > {v}\n\
             <div > {./tree.kdl.versions[0]}\n\
             <div > {./tree.kdl.versions[-4]}\n\
             <div > {./tree.kdl.dependencies[\"lodash\"]}\n\
             <div > {./tree.kdl.scripts[build]}\n\
             <div > {./tree.kdl.flags.stable}\n\
             <div > {./tree.kdl.flags.beta}\n\
             <div > {./tree.kdl.channel}\n\
             <div > {./tree.kdl[\"versions\"][0]}\n",
        ),
        (
            "tree.kdl",
            "package {\n  dependencies {\n    lodash \"^4.17.21\"\n  }\n  versions \"1.0.0\" \"1.1.0\" \"1.2.0\" 2\n  scripts build=\"tsc\"\n  flags {\n    stable true\n    beta false\n  }\n  channel \"stable\"\n}\n",
        ),
    ];
    assert_eq!(
        body(&files),
        "<div>^4.17.21</div><div>1.2.0</div><div>2</div>\
         <ul><li>1.0.0</li><li>1.1.0</li><li>1.2.0</li><li>2</li></ul>\
         <div>1.0.0</div><div>1.0.0</div><div>^4.17.21</div>\
         <div>tsc</div><div>True</div><div>False</div>\
         <div>stable</div><div>1.0.0</div>"
    );
}

#[test]
fn kdl_simple_node_name_access() {
    let files = [
        ("index.df", "<div > {./simple.kdl.test}\n<div > {./simple.kdl.thing}\n"),
        ("simple.kdl", "test 1\nthing 2\n"),
    ];
    assert_eq!(body(&files), "<div>1</div><div>2</div>");
}

#[test]
fn kdl_multiple_top_level_nodes() {
    let files = [
        (
            "index.df",
            "<ul\n  <:for s in {./servers.kdl}\n    <li > {s.name} = {s.host} on {s.port}\n\
             <div > {./servers.kdl[1].host}\n\
             <div > {./servers.kdl[0].port}\n\
             <div > {./servers.kdl[-1].host}\n",
        ),
        (
            "servers.kdl",
            "server name=\"prod\" {\n    host \"example.com\"\n    port 443\n}\n\
             server name=\"staging\" {\n    host \"staging.example.com\"\n    port 80\n}\n",
        ),
    ];
    assert_eq!(
        body(&files),
        "<ul>\
         <li>prod = example.com on 443</li><li>staging = staging.example.com on 80</li>\
         </ul>\
         <div>staging.example.com</div><div>443</div><div>staging.example.com</div>"
    );
}

#[test]
fn local_components_with_props() {
    let files = [(
        "index.df",
        "<:Card title=\"First\" note=\"short\"\n<:Card title=\"Second\" note=\"longer text\"\n<:Footer\n\
         #Card\n<div class=\"card\"\n  <h > {title}\n  <p > {note}\n\
         #Footer\n<footer\n  <p > made with dreamfish\n",
    )];
    assert_eq!(
        body(&files),
        "<div class=\"card\"><h>First</h><p>short</p></div>\
         <div class=\"card\"><h>Second</h><p>longer text</p></div>\
         <footer><p>made with dreamfish</p></footer>"
    );
}

#[test]
fn cross_file_component_with_transitive_assets() {
    let files = [
        ("index.df", "<:./lib/shared.df#Shared\n<:./lib/shared.df#Shared\n"),
        (
            "lib/shared.df",
            "#Shared\n<span class=\"shared\" > loaded from lib\n#shared.css\n.shared { font-weight: bold; }\n#shared.js\nfunction announce(){ return 1; }\n",
        ),
    ];
    let pages = site(&files).unwrap();
    assert!(pages.iter().all(|(r, _)| r != "lib/shared.html"));
    let html = page(&files, "index.html");
    assert!(body(&files).contains(
        "<span class=\"shared\">loaded from lib</span>\
         <span class=\"shared\">loaded from lib</span>"
    ));
    assert_eq!(count(&style(&html), ".shared { font-weight: bold; }"), 1);
    assert_eq!(count(&script(&html), "function announce(){ return 1; }"), 1);
}

fn assets_site() -> Vec<(&'static str, &'static str)> {
    vec![
        (
            "index.df",
            "<:./site.css\n<:./site.js\n<:./extra.df#extra.js\n<:Widget\n<:Widget\n\
             #Widget\n<b > w\n#widget.css\n.widget { color: red; }\n#widget.js\nconsole.log(\"beep\");\n",
        ),
        ("site.css", ".site { background: ivory; }"),
        ("site.js", "window.siteReady = true;"),
        ("extra.df", "#extra.js\nwindow.extra = true;\n"),
    ]
}

#[test]
fn asset_bundling_dedup_and_external_files() {
    let files = assets_site();
    let html = page(&files, "index.html");
    let style = style(&html);
    let script = script(&html);
    assert_eq!(count(&style, ".widget { color: red; }"), 1);
    assert_eq!(count(&script, "console.log(\"beep\");"), 1);
    assert_eq!(count(&style, ".site { background: ivory; }"), 1);
    assert_eq!(count(&script, "window.siteReady = true;"), 1);
    assert_eq!(count(&script, "window.extra = true;"), 1);
}

#[test]
fn aliases_to_component_file_and_raw_asset() {
    let files = [
        (
            "index.df",
            "<:{Drink}\n<:{Loud}\n<:{Logo}\n<div class=\"site\" > {meta.title}\n<ul\n  <:for t in {meta.tag}\n    <li > {t}\n\
             #Drink > ./drinks.df#Coffee\n#Loud > Shout\n#Logo > ./logo.js\n#meta > ./meta.kdl\n\
             #Shout\n<strong > SHOUT\n",
        ),
        ("drinks.df", "#Coffee\n<div class=\"coffee\" > espresso\n"),
        ("logo.js", "function logo(){ return \"svg\"; }"),
        (
            "meta.kdl",
            "site {\n  title \"dreamfish \u{2014} an indentation-based static site generator (v0.1)\"\n  tag \"rust\"\n  tag \"kdl\"\n  tag \"dreamfish\"\n}\n",
        ),
    ];
    let html = page(&files, "index.html");
    let b = body(&files);
    assert!(b.contains("<div class=\"coffee\">espresso</div>"), "{b}");
    assert!(b.contains("<strong>SHOUT</strong>"), "{b}");
    assert!(b.contains(
        "<div class=\"site\">dreamfish \u{2014} an indentation-based static site generator (v0.1)</div>\
         <ul><li>rust</li><li>kdl</li><li>dreamfish</li></ul>"
    ), "{b}");
    assert!(script(&html).contains("function logo(){ return \"svg\"; }"));
}

#[test]
fn script_block_comes_before_closing_body_tag() {
    let files = assets_site();
    let html = page(&files, "index.html");
    let script_start = html.find("<script>").expect("script block present");
    let body_end = html.find("</body>").expect("body close present");
    assert!(script_start < body_end, "<script> must appear before `</body>`:\n{html}");
}
