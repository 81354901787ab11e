use garden::ast::{decimal, item_to_source_string, ExprAst, SourceSpan};
use garden::cache::NodeCache;
use garden::env::Env;
use garden::eval::json_parse_result;
use garden::node::{Graph, Node, NodeId, NodeKind};
use garden::parser::{parse, ExprParser};
use garden::value::{
    checked_product, checked_sum, convert_json_value, results_agree, Error, JsonShape, Value,
};

fn id_of(kind: NodeKind, snippet: &str, child_ids: &Vec<NodeId>) -> NodeId {
    let children: Vec<usize> = (0..child_ids.len()).collect();
    *Node::new(kind, snippet.to_string(), children, child_ids, 1).id()
}

#[test]
fn equal_content_gives_equal_ids() {
    let a = id_of(NodeKind::Number(2), "2", &vec![]);
    let b = id_of(NodeKind::Number(2), "2", &vec![]);
    assert_eq!(a, b);
    let p = id_of(NodeKind::Addition, "(+ 2)", &vec![a]);
    let q = id_of(NodeKind::Addition, "(+ 2)", &vec![b]);
    assert_eq!(p, q);
}

#[test]
fn any_change_changes_the_id() {
    let leaf = id_of(NodeKind::Symbol("ab".to_string()), "ab", &vec![]);
    let other_leaf = id_of(NodeKind::Symbol("ac".to_string()), "ac", &vec![]);
    assert_ne!(leaf, other_leaf);
    let base = id_of(NodeKind::Addition, "(+ ab)", &vec![leaf]);
    assert_ne!(base, id_of(NodeKind::Addition, "(+ ac)", &vec![leaf]));
    assert_ne!(base, id_of(NodeKind::Multiplication, "(+ ab)", &vec![leaf]));
    assert_ne!(base, id_of(NodeKind::Addition, "(+ ab)", &vec![other_leaf]));
    assert_ne!(id_of(NodeKind::Number(1), "1", &vec![]), id_of(NodeKind::Number(2), "1", &vec![]));
    assert_ne!(
        id_of(NodeKind::String("x".to_string()), "\"x\"", &vec![]),
        id_of(NodeKind::Symbol("x".to_string()), "\"x\"", &vec![])
    );
}

#[test]
fn node_ids_are_blake3_digests_of_the_hashed_form() {
    let id = id_of(NodeKind::Number(1), "1", &vec![]);
    let mut bytes = vec![b'N'];
    bytes.extend_from_slice(&1i64.to_le_bytes());
    bytes.extend_from_slice(b"1");
    assert_eq!(id, *blake3::hash(&bytes).as_bytes());
}

#[test]
fn graph_keeps_children_before_parents() {
    let mut g = Graph::new();
    let leaf = g.add_node(NodeKind::Number(4), "4".to_string(), vec![], 1);
    let parent = g.add_node(NodeKind::Addition, "(+ 4)".to_string(), vec![leaf], 1);
    assert_eq!((leaf, parent), (0, 1));
    assert_eq!(g.len(), 2);
    assert_eq!(g.nodes[parent].children, vec![leaf]);
}

#[test]
fn cached_values_on_nodes() {
    let n = Node::new(NodeKind::Number(3), "3".to_string(), vec![], &vec![], 2);
    assert!(n.cached_value().is_none());
    let n = n.with_cached_value(Ok(Value::Number(3)));
    assert!(matches!(n.cached_value(), Some(Ok(Value::Number(3)))));
    assert_eq!(n.line, 2);
}

#[test]
fn parser_keeps_text_and_lines() {
    let asts = parse("; a comment\n(def x 2)\n  (+ x\n   -3) \"s t\" sym").unwrap();
    assert_eq!(asts.len(), 4);
    match &asts[0] {
        ExprAst::List(items, span) => {
            assert_eq!(span.line, 2);
            assert_eq!(span.text, "(def x 2)");
            assert_eq!(items.len(), 3);
        }
        _ => panic!("expected a list"),
    }
    match &asts[1] {
        ExprAst::List(items, span) => {
            assert_eq!(span.line, 3);
            assert_eq!(span.text, "(+ x\n   -3)");
            assert!(matches!(items[2], ExprAst::Number(-3, _)));
            assert_eq!(items[2].get_span().line, 4);
        }
        _ => panic!("expected a list"),
    }
    assert!(matches!(&asts[2], ExprAst::String(s, _) if s == "s t"));
    assert!(matches!(&asts[3], ExprAst::Symbol(s, _) if s == "sym"));
}

#[test]
fn parser_rejects_malformed_sources() {
    assert!(matches!(parse("(+ 1 2"), Err(Error::ParseError(_))));
    assert!(matches!(parse(")"), Err(Error::ParseError(_))));
    assert!(matches!(parse("\"open"), Err(Error::ParseError(_))));
    assert!(matches!(ExprParser::parse("99999999999999999999"), Err(Error::ParseError(_))));
    assert!(matches!(ExprParser::parse("-"), Ok(v) if matches!(&v[0], ExprAst::Symbol(s, _) if s == "-")));
}

#[test]
fn source_strings_are_rebuilt() {
    let span = |t: &str| SourceSpan { line: 1, text: t.to_string(), start: 0, end: t.chars().count() };
    let ast = ExprAst::List(
        vec![
            ExprAst::Symbol("+".to_string(), span("+")),
            ExprAst::Number(-12, span("-12")),
            ExprAst::String("a b".to_string(), span("\"a b\"")),
            ExprAst::List(vec![], span("()")),
        ],
        span("(+   -12 \"a b\" ())"),
    );
    assert_eq!(item_to_source_string(&ast), "(+ -12 \"a b\" ())");
}

#[test]
fn decimal_forms() {
    assert_eq!(decimal(0), "0");
    assert_eq!(decimal(407), "407");
    assert_eq!(decimal(-5), "-5");
    assert_eq!(decimal(i64::MIN), "-9223372036854775808");
    assert_eq!(decimal(i64::MAX), "9223372036854775807");
}

#[test]
fn json_shapes_convert() {
    assert!(matches!(convert_json_value(JsonShape::Number(Some(5))), Ok(Value::Number(5))));
    assert!(matches!(convert_json_value(JsonShape::Text("t".to_string())), Ok(Value::String(s)) if s == "t"));
    assert!(matches!(convert_json_value(JsonShape::Number(None)), Err(Error::EvalError(_))));
    assert!(matches!(convert_json_value(JsonShape::Bool(true)), Err(Error::EvalError(_))));
    assert!(matches!(convert_json_value(JsonShape::Null), Err(Error::EvalError(_))));
    assert!(matches!(convert_json_value(JsonShape::Array), Err(Error::EvalError(_))));
    assert!(matches!(convert_json_value(JsonShape::Object), Err(Error::EvalError(_))));
}

#[test]
fn exact_sums_and_products() {
    assert_eq!(checked_sum(&vec![]), Some(0));
    assert_eq!(checked_sum(&vec![i64::MAX, 1, -2]), Some(i64::MAX - 1));
    assert_eq!(checked_sum(&vec![i64::MIN, -1]), None);
    assert_eq!(checked_product(&vec![]), Some(1));
    assert_eq!(checked_product(&vec![3, -4, 5]), Some(-60));
    assert_eq!(checked_product(&vec![i64::MAX, 2]), None);
    assert_eq!(checked_product(&vec![i64::MIN, 1]), Some(i64::MIN));
}

#[test]
fn error_display_names_the_kind() {
    assert_eq!(Error::EvalError("m".to_string()).to_display_string(), "Evaluation Error: m");
    assert_eq!(Error::ParseError("m".to_string()).to_display_string(), "Parse Error: m");
    assert_eq!(Error::HttpError("m".to_string()).to_display_string(), "HTTP Error: m");
    assert_eq!(Error::JsonError("m".to_string()).to_display_string(), "JSON Error: m");
}

#[test]
fn results_agree_by_content() {
    assert!(results_agree(&Ok(Value::Number(1)), &Ok(Value::Number(1))));
    assert!(!results_agree(&Ok(Value::Number(1)), &Ok(Value::String("1".to_string()))));
    assert!(!results_agree(
        &Err(Error::EvalError("a".to_string())),
        &Err(Error::JsonError("a".to_string()))
    ));
}

#[test]
fn cache_marks_only_real_changes() {
    let mut cache = NodeCache::new();
    let id = [7u8; 32];
    cache.insert(id, Ok(Value::Number(1)));
    assert!(cache.was_changed(&id));
    cache.prepare_for_evaluation();
    assert!(!cache.was_changed(&id));
    cache.insert(id, Ok(Value::Number(1)));
    assert!(!cache.was_changed(&id));
    cache.insert(id, Ok(Value::Number(2)));
    assert!(cache.was_changed(&id));
    assert!(matches!(cache.get(&id), Some(Ok(Value::Number(2)))));
    assert_eq!(cache.len(), 1);
    let other = [9u8; 32];
    cache.mark_changed(other);
    assert!(cache.was_changed(&other));
    assert!(cache.get(&other).is_none());
}

#[test]
fn cache_records_round_trip_with_hex_ids() {
    let mut cache = NodeCache::new();
    let mut id = [0u8; 32];
    id[0] = 0xab;
    id[31] = 0x01;
    cache.insert(id, Err(Error::EvalError("bad".to_string())));
    let records = cache.records();
    assert_eq!(records.len(), 1);
    assert!(records[0].id_hex.starts_with("ab00"));
    assert!(records[0].id_hex.ends_with("01"));
    let reloaded = NodeCache::from_records(&records);
    assert!(matches!(reloaded.get(&id), Some(Err(Error::EvalError(m))) if m == "bad"));
    assert!(!reloaded.was_changed(&id));
}

#[test]
fn environments_resolve_innermost_first() {
    let mut env = Env::new();
    assert_eq!(env.resolve("a"), None);
    env.bind("a".to_string(), 1);
    env.bind("b".to_string(), 2);
    env.bind("a".to_string(), 3);
    assert_eq!(env.resolve("a"), Some(3));
    assert_eq!(env.resolve("b"), Some(2));
    env.unbind_last();
    assert_eq!(env.resolve("a"), Some(1));
    assert_eq!(env.len(), 2);
}

#[test]
fn parser_records_offsets_and_reads_escapes() {
    let asts = parse("  (f \"a\\\"b\\n\")").unwrap();
    assert_eq!(asts.len(), 1);
    let span = asts[0].get_span();
    assert_eq!((span.start, span.end), (2, 14));
    match &asts[0] {
        ExprAst::List(items, _) => {
            assert_eq!(items[0].get_span().start, 3);
            match &items[1] {
                ExprAst::String(s, sp) => {
                    assert_eq!(s, "a\"b\n");
                    assert_eq!(sp.text, "\"a\\\"b\\n\"");
                }
                _ => panic!("expected a string"),
            }
        }
        _ => panic!("expected a list"),
    }
    assert_eq!(parse("; only a comment\n").unwrap().len(), 0);
}

#[test]
fn malformed_cache_records_reset_the_cache() {
    let mut cache = NodeCache::new();
    cache.insert([1u8; 32], Ok(Value::Number(1)));
    let mut records = cache.records();
    assert_eq!(NodeCache::from_records(&records).len(), 1);
    records.push(garden::cache::CacheRecord {
        id_hex: "not-hex".to_string(),
        result: Ok(Value::Number(2)),
        timestamp: String::new(),
    });
    assert_eq!(NodeCache::from_records(&records).len(), 0);
    let upper = garden::cache::CacheRecord {
        id_hex: "AB".repeat(32),
        result: Ok(Value::Number(3)),
        timestamp: String::new(),
    };
    assert_eq!(NodeCache::from_records(&vec![upper]).len(), 0);
}

#[test]
fn json_parse_results_become_values_or_json_errors() {
    assert!(matches!(json_parse_result(Ok("[1]".to_string())), Ok(Value::Json(d)) if d == "[1]"));
    assert!(matches!(json_parse_result(Err("bad".to_string())), Err(Error::JsonError(m)) if m == "bad"));
}
