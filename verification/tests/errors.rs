use dreamfish::project::ProjectFiles;
use dreamfish::render::{Compiler, FileText, Render, RenderError};

/// Builds a site from in-memory files the way the command does, and gives
/// the error it stops with.
fn build_error(files: &[(&str, &str)]) -> Option<String> {
    let mut project = ProjectFiles::new();
    for (rel, src) in files.iter().filter(|(k, _)| k.ends_with(".df")) {
        if let Err(e) = project.add_source(rel, src) {
            return Some(e);
        }
    }
    let (mut comp, pages): (Compiler, Vec<String>) = match project.finish() {
        Ok(x) => x,
        Err(e) => return Some(e),
    };
    for key in &pages {
        loop {
            let result = {
                let mut render = Render::new(&comp);
                render.render_page(key)
            };
            match result {
                Ok(_) => break,
                Err(RenderError::Failed(e)) => return Some(format!("{key}: {e}")),
                Err(RenderError::NeedFile(k)) => {
                    let text = match files.iter().find(|(name, _)| *name == k) {
                        Some((_, t)) => FileText::Read(t.to_string()),
                        None => FileText::Unreadable("No such file or directory (os error 2)".to_string()),
                    };
                    comp.loaded.push((k, text));
                }
            }
        }
    }
    None
}

fn expect_build_error(files: &[(&str, &str)], needle: &str) {
    match build_error(files) {
        None => panic!("site unexpectedly built without error"),
        Some(msg) => assert!(msg.contains(needle), "expected `{needle}` in:\n{msg}"),
    }
}

#[test]
fn recursion_guard() {
    expect_build_error(
        &[(
            "main.df",
            "<:A\n\
             #A\n\
             <div > <:B\n\
             #B\n\
             <span > <:A\n",
        )],
        "recursive component invocation detected",
    );
}

#[test]
fn prop_section_name_collision() {
    expect_build_error(
        &[(
            "main.df",
            "<:Widget\n\
             #Widget\n\
             <div > {item}\n\
             #item\n\
             <span > nope\n",
        )],
        "collides with a section",
    );
}

#[test]
fn duplicate_section_name() {
    expect_build_error(
        &[(
            "main.df",
            "#A\n\
             <div > a\n\
             #A\n\
             <span > b\n",
        )],
        "duplicate section name `#A`",
    );
}

#[test]
fn missing_referenced_df_file() {
    expect_build_error(&[("main.df", "<:./missing.df#Thing\n")], "does not exist");
}

#[test]
fn else_without_if() {
    expect_build_error(&[("main.df", "<:else\n")], "`<:else` without a matching `<:if`");
}

#[test]
fn inconsistent_indentation() {
    expect_build_error(
        &[("main.df", "<div\n   <p > two spaces\n  <span > one space\n")],
        "inconsistent indentation",
    );
}

#[test]
fn text_node_cannot_contain_children() {
    expect_build_error(
        &[("main.df", "hello\n <b > bold\n")],
        "text node cannot contain child elements",
    );
}

#[test]
fn unresolved_reference() {
    expect_build_error(
        &[(
            "main.df",
            "<:Widget\n\
             #Widget\n\
             <div > {missing}\n",
        )],
        "unresolved reference `missing`",
    );
}
