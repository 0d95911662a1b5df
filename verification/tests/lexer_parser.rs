use dreamfish::ast::{Chunk, Node, Section, Target};
use dreamfish::lexer::{lex, parse_chunks, tokenize_ws, Tok};
use dreamfish::parser::parse;

#[test]
fn tokens_keep_quoted_and_braced_parts_whole() {
    let t = tokenize_ws("div class=\"a b\" data={x y}  z").unwrap();
    assert_eq!(t, vec!["div", "class=\"a b\"", "data={x y}", "z"]);
}

#[test]
fn tokens_of_blank_text() {
    assert!(tokenize_ws("   ").unwrap().is_empty());
}

#[test]
fn chunks_split_text_and_references() {
    let c = parse_chunks("Hello, {name}! {  who }");
    assert_eq!(c.len(), 4);
    assert!(matches!(&c[0], Chunk::Lit(s) if s == "Hello, "));
    assert!(matches!(&c[1], Chunk::Ref(s) if s == "name"));
    assert!(matches!(&c[2], Chunk::Lit(s) if s == "! "));
    assert!(matches!(&c[3], Chunk::Ref(s) if s == "who"));
}

#[test]
fn chunks_with_nested_braces() {
    let c = parse_chunks("{a{b}c}");
    assert_eq!(c.len(), 1);
    assert!(matches!(&c[0], Chunk::Ref(s) if s == "a{b}c"));
}

#[test]
fn parse_builds_sections_by_name() {
    let f = parse("main.df", "<:B\n#B\n<p > b\n#A > ./x.df#Y\n").unwrap();
    let names: Vec<&str> = f.sections.iter().map(|(k, _)| k.as_str()).collect();
    assert_eq!(names, vec!["A", "B"]);
    assert!(matches!(&f.sections[0].1, Section::Alias(Target::File { path, section: Some(s) }) if path == "./x.df" && s == "Y"));
    assert!(matches!(&f.sections[1].1, Section::Component(body) if body.len() == 1));
    assert_eq!(f.main.len(), 1);
    assert!(matches!(&f.main[0], Node::Inv(_)));
}

#[test]
fn duplicate_section_is_refused() {
    let e = parse("main.df", "#A\n<div > a\n#A\n<span > b\n").unwrap_err();
    assert!(e.contains("duplicate section name `#A`"), "{e}");
}

#[test]
fn else_without_if_is_refused() {
    let e = parse("main.df", "<:else\n").unwrap_err();
    assert!(e.contains("`<:else` without a matching `<:if`"), "{e}");
}

#[test]
fn inconsistent_indentation_names_the_line() {
    let e = parse("main.df", "<div\n   <p > two spaces\n  <span > one space\n").unwrap_err();
    assert!(e.starts_with("main.df:3: inconsistent indentation"), "{e}");
}

#[test]
fn asset_section_keeps_raw_text() {
    let f = parse("main.df", "#style.css\n.a { b: c; }\n").unwrap();
    assert!(matches!(&f.sections[0].1, Section::Asset { ext, text, .. } if ext == "css" && text == ".a { b: c; }"));
}

#[test]
fn dump_tokens() {
    let src = "\
<:shortBtn label=\"Go\"
<:BigBlock title=\"Hello {name}\" show=truthy
<:for b in {./flags.kdl}
 <div class=\"flag\"
  <:if {b.bigThing}
   <span > BIG
  <:else
   <span > small
";
    let toks = dreamfish::lexer::lex(src).unwrap();
    for (i, t) in toks.iter().enumerate() {
        println!("[{i}] {:?}", t);
    }
}

#[test]
fn text_with_children_shows_the_nodes() {
    let e = parse("main.df", "hello\n <b > bold\n").unwrap_err();
    assert!(
        e.contains("text node cannot contain child elements (parent=Text(TextNode { line: 1, chunks: [Lit(\"hello\")] })"),
        "{e}"
    );
    assert!(e.contains("El(ElNode { line: 2, tag: \"b\", attrs: [], children: [Text(TextNode { line: 2, chunks: [Lit(\"bold\")] })] })"), "{e}");
}

#[test]
fn tokens_put_together_drop_only_separators() {
    let line = "a  \"b c\"\t{d e} f";
    let t = tokenize_ws(line).unwrap();
    assert_eq!(t.concat(), "a\"b c\"{d e}f");
}

#[test]
fn token_stream_opens_and_closes_levels() {
    let toks = lex("<div\n  <p\n    x\n<span\n#A\n<b\n  y\n").unwrap();
    let mut depth: i64 = 0;
    for (i, t) in toks.iter().enumerate() {
        match t {
            Tok::Indent => {
                depth += 1;
                assert!(matches!(toks[i + 1], Tok::Chain { .. }));
            }
            Tok::Dedent => depth -= 1,
            Tok::Section { .. } => assert_eq!(depth, 0),
            _ => {}
        }
        assert!(depth >= 0);
    }
    let lines: Vec<usize> = toks
        .iter()
        .filter_map(|t| if let Tok::Chain { line, .. } = t { Some(*line) } else { None })
        .collect();
    assert_eq!(lines, vec![1, 2, 3, 4, 6, 7]);
}
