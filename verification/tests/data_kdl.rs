use dreamfish::data::{parse_kdl, Value};

fn text(v: &Value) -> String {
    v.to_text()
}

#[test]
fn dump_flags() {
    let src = "bigThing true\notherThing false\n";
    let v = parse_kdl(src).unwrap();
    println!("flags -> {:?}", v);
    let rows = "row name=\"peter\" score=9\nrow name=\"anna\" score=7.5\n";
    println!("rows -> {:?}", parse_kdl(rows).unwrap());
}

#[test]
fn multiple_top_level_nodes() {
    let src = "server name=\"prod\" {\n    host \"example.com\"\n    port 443\n}\n\
               server name=\"staging\" {\n    host \"staging.example.com\"\n    port 80\n}\n";
    let v = parse_kdl(src).unwrap();
    assert!(matches!(v, Value::Rec(_)), "expected a record keyed by node name, got {v:?}");
    // ordered contents are preserved for `[n]` and iteration
    match v.get("_args") {
        Some(Value::Lst(items)) => {
            assert_eq!(items.len(), 2, "one entry per top-level node");
            for item in &items {
                assert!(matches!(item, Value::Rec(_)));
            }
        }
        other => panic!("expected `_args` with node contents, got {other:?}"),
    }
    // node names become addressable keys (last one wins on repeats)
    let server = v.get("server").unwrap().collapse_args();
    assert!(matches!(server, Value::Rec(_)), "expected server record, got {server:?}");
    let host = server.get("host").unwrap().collapse_args();
    assert!(matches!(&host, Value::Str(s) if s == "staging.example.com"));
    let name = server.get("name").unwrap().collapse_args();
    assert!(matches!(&name, Value::Str(s) if s == "staging"));
    // distinct names: each is reachable by its node name
    let v = parse_kdl("alpha \"x\"\nbeta \"y\"\n").unwrap();
    assert!(matches!(v, Value::Rec(_)), "expected a named record, got {v:?}");
    let a = v.get("alpha").unwrap().collapse_args();
    assert!(matches!(&a, Value::Str(s) if s == "x"));
    let b = v.get("beta").unwrap().collapse_args();
    assert!(matches!(&b, Value::Str(s) if s == "y"));
}

#[test]
fn single_node_with_one_argument_is_a_record_of_it() {
    let v = parse_kdl("test 1\n").unwrap();
    assert_eq!(text(&v.get("test").unwrap()), "1");
}

#[test]
fn numbers_print_as_written() {
    let v = parse_kdl("row name=\"anna\" score=7.5 rank=2\n").unwrap();
    assert_eq!(text(&v.get("score").unwrap()), "7.5");
    assert_eq!(text(&v.get("rank").unwrap()), "2");
    assert_eq!(text(&v.get("name").unwrap()), "anna");
}

#[test]
fn booleans_and_lists_as_text() {
    let v = parse_kdl("flags true false\n").unwrap();
    let flags = v.get("_args").unwrap();
    assert_eq!(text(&flags), "[True, False]");
    assert!(flags.truthy());
}

#[test]
fn negative_index_counts_from_the_end() {
    let v = parse_kdl("versions \"1.0.0\" \"1.1.0\" \"1.2.0\"\n").unwrap();
    let args = v.get("_args").unwrap();
    assert_eq!(text(&args.index_num(-1).unwrap()), "1.2.0");
    assert_eq!(text(&args.index_num(0).unwrap()), "1.0.0");
    assert!(args.index_num(3).is_none());
    assert!(args.index_num(-4).is_none());
}

#[test]
fn empty_source_is_an_empty_list() {
    let v = parse_kdl("").unwrap();
    assert!(matches!(&v, Value::Lst(l) if l.is_empty()));
    assert!(!v.truthy());
}

#[test]
fn unclosed_brace_is_an_error() {
    assert_eq!(parse_kdl("a {\n b 1\n").unwrap_err(), "unclosed `{{` in KDL node");
}

#[test]
fn children_are_grouped_by_name() {
    let v = parse_kdl("deps {\n  dep \"a\"\n  dep \"b\"\n  tool \"tsc\"\n}\n").unwrap();
    let dep = v.get("dep").unwrap();
    assert!(matches!(&dep, Value::Lst(l) if l.len() == 2));
    let tool = v.get("tool").unwrap().collapse_args();
    assert_eq!(text(&tool), "tsc");
}
