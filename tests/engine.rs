use garden::cache::NodeCache;
use garden::driver::{fetch_result, run_cycle, Cycle, CycleOutcome};
use garden::parser::parse;
use garden::report::{changed_records, Record};
use garden::value::{Error, EvalResult, Value};

/// Runs one cycle of a source against a cache; fetches are answered with `body`.
fn cycle_with(src: &str, cache: &mut NodeCache, body: &str) -> (Cycle, Vec<Record>, usize) {
    cache.prepare_for_evaluation();
    let asts = parse(src).expect("source parses");
    let mut fetches = 0;
    loop {
        match run_cycle(&asts, cache) {
            CycleOutcome::Complete(c) => {
                let records = changed_records(&c, cache);
                return (c, records, fetches);
            }
            CycleOutcome::Fetch(pending) => {
                fetches += 1;
                cache.insert(pending.id, fetch_result(Ok(body.to_string())));
            }
            CycleOutcome::TooLarge => panic!("source too large"),
        }
    }
}

fn cycle(src: &str, cache: &mut NodeCache) -> (Cycle, Vec<Record>) {
    let (c, r, _) = cycle_with(src, cache, "");
    (c, r)
}

fn number(r: &Option<EvalResult>) -> i64 {
    match r {
        Some(Ok(Value::Number(n))) => *n,
        other => panic!("expected a number, got {}", describe(other)),
    }
}

fn text(r: &Option<EvalResult>) -> String {
    match r {
        Some(Ok(Value::String(s))) => s.clone(),
        other => panic!("expected a text, got {}", describe(other)),
    }
}

fn describe(r: &Option<EvalResult>) -> String {
    match r {
        None => "nothing".to_string(),
        Some(Ok(Value::Number(n))) => format!("number {}", n),
        Some(Ok(Value::String(s))) => format!("text {}", s),
        Some(Ok(Value::Json(s))) => format!("json {}", s),
        Some(Err(e)) => e.to_display_string(),
    }
}

fn last_result(src: &str) -> EvalResult {
    let mut cache = NodeCache::new();
    let (c, _) = cycle(src, &mut cache);
    c.last.expect("at least one root")
}

#[test]
fn first_cycle_reports_every_root_then_nothing() {
    let mut cache = NodeCache::new();
    let src = "(def x 2) (def y (* x 3)) (+ x y)";
    let (_, records) = cycle(src, &mut cache);
    let values: Vec<i64> = records.iter().map(|r| number(&r.result)).collect();
    assert_eq!(values, vec![2, 6, 8]);
    let (_, again) = cycle(src, &mut cache);
    assert_eq!(again.len(), 0);
}

#[test]
fn editing_a_definition_reevaluates_its_users() {
    let mut cache = NodeCache::new();
    let (first, _) = cycle("(def x 2) (def y (* x 3)) (+ x y)", &mut cache);
    let (second, records) = cycle("(def x 3) (def y (* x 3)) (+ x y)", &mut cache);
    let values: Vec<i64> = records.iter().map(|r| number(&r.result)).collect();
    assert_eq!(values, vec![3, 9, 12]);
    // The `(def y (* x 3))` root has a new id, since its `x` names a new definition.
    let y1 = first.graph.nodes[first.roots[1]].id;
    let y2 = second.graph.nodes[second.roots[1]].id;
    assert_ne!(y1, y2);
}

#[test]
fn editing_one_line_reports_only_that_line() {
    let mut cache = NodeCache::new();
    let (_, records) = cycle("(def greet \"hi\")\n(str.upper greet)", &mut cache);
    assert_eq!(records.len(), 2);
    assert_eq!(text(&records[0].result), "hi");
    assert_eq!(text(&records[1].result), "HI");
    let old_prefix = records[1].id_prefix.clone();
    let (_, edited) = cycle("(def greet \"hi\")\n(str.upper \"hi\")", &mut cache);
    assert_eq!(edited.len(), 1);
    assert_eq!(edited[0].line, 2);
    assert_eq!(text(&edited[0].result), "HI");
    assert_ne!(edited[0].id_prefix, old_prefix);
    assert_eq!(edited[0].id_prefix.len(), 8);
}

#[test]
fn a_type_error_is_reported_and_the_cycle_completes() {
    let mut cache = NodeCache::new();
    let (c, records) = cycle("(+ 1 \"two\")", &mut cache);
    assert_eq!(records.len(), 1);
    assert!(matches!(records[0].result, Some(Err(Error::EvalError(_)))));
    assert_eq!(c.roots.len(), 1);
}

#[test]
fn fetched_bodies_are_cached_by_node() {
    let mut cache = NodeCache::new();
    let src = "(def u \"https://example/x\") (http.get u)";
    let (_, records, fetches) = cycle_with(src, &mut cache, "remote body");
    assert_eq!(fetches, 1);
    assert_eq!(records.len(), 2);
    assert_eq!(text(&records[1].result), "remote body");
    let (_, again, fetches) = cycle_with(src, &mut cache, "changed remotely");
    assert_eq!(fetches, 0);
    assert_eq!(again.len(), 0);
}

#[test]
fn nested_lets_shadow_and_leave_no_binding() {
    let mut cache = NodeCache::new();
    let (c, records) = cycle("(let a 1 (let a 2 (+ a a)))", &mut cache);
    assert_eq!(records.len(), 1);
    assert_eq!(number(&records[0].result), 4);
    assert_eq!(c.env.resolve("a"), None);
}

#[test]
fn empty_file_has_no_roots_and_no_changes() {
    let mut cache = NodeCache::new();
    let (c, records) = cycle("", &mut cache);
    assert_eq!(c.roots.len(), 0);
    assert!(c.last.is_none());
    assert_eq!(records.len(), 0);
    assert_eq!(cache.len(), 0);
}

#[test]
fn addition_without_arguments_fails() {
    assert!(matches!(last_result("(+ )"), Err(Error::EvalError(_))));
    assert!(matches!(last_result("(*)"), Err(Error::EvalError(_))));
}

#[test]
fn get_of_an_absent_key_names_the_key() {
    match last_result("(get (json.parse \"{\\\"a\\\": 1}\") \"missing_key\")") {
        Err(Error::EvalError(m)) => assert!(m.contains("missing_key")),
        other => panic!("unexpected {}", describe(&Some(other))),
    }
}

#[test]
fn get_projects_text_and_integers_only() {
    let doc = "(json.parse \"{\\\"n\\\": 7, \\\"s\\\": \\\"x\\\", \\\"b\\\": true, \\\"o\\\": {}}\")";
    assert!(matches!(last_result(&format!("(get {} \"n\")", doc)), Ok(Value::Number(7))));
    match last_result(&format!("(get {} \"s\")", doc)) {
        Ok(Value::String(s)) => assert_eq!(s, "x"),
        other => panic!("unexpected {}", describe(&Some(other))),
    }
    assert!(matches!(last_result(&format!("(get {} \"b\")", doc)), Err(Error::EvalError(_))));
    assert!(matches!(last_result(&format!("(get {} \"o\")", doc)), Err(Error::EvalError(_))));
}

#[test]
fn malformed_json_is_a_json_error() {
    assert!(matches!(last_result("(json.parse \"{not json\")"), Err(Error::JsonError(_))));
}

#[test]
fn json_documents_are_kept_in_compact_form() {
    match last_result("(json.parse \"{ \\\"a\\\" :  1 }\")") {
        Ok(Value::Json(d)) => assert_eq!(d, "{\"a\":1}"),
        other => panic!("unexpected {}", describe(&Some(other))),
    }
}

#[test]
fn a_symbol_before_its_definition_is_undefined() {
    let mut cache = NodeCache::new();
    let (c, records) = cycle("y (def y 1)", &mut cache);
    assert_eq!(c.roots.len(), 2);
    match &records[0].result {
        Some(Err(Error::EvalError(m))) => assert!(m.contains("Undefined symbol")),
        other => panic!("unexpected {}", describe(other)),
    }
}

#[test]
fn the_latest_definition_wins() {
    assert!(matches!(last_result("(def x 1) (def x 2) x"), Ok(Value::Number(2))));
    assert!(matches!(last_result("(def x 1) (def x (+ x 10)) (* x 2)"), Ok(Value::Number(22))));
}

#[test]
fn a_failed_definition_binds_nothing() {
    let mut cache = NodeCache::new();
    let (c, _) = cycle("(def x (+ 1 \"a\"))", &mut cache);
    assert_eq!(c.env.resolve("x"), None);
    let (c, _) = cycle("(def x 5)", &mut cache);
    assert!(c.env.resolve("x").is_some());
}

#[test]
fn definition_binds_the_value_node() {
    let mut cache = NodeCache::new();
    let (c, _) = cycle("(def x (+ 1 2))", &mut cache);
    let value_node = c.graph.nodes[c.roots[0]].children[2];
    assert_eq!(c.env.resolve("x"), Some(value_node));
}

#[test]
fn sums_and_products_ignore_order_and_grouping() {
    assert!(matches!(last_result("(+ 1 2)"), Ok(Value::Number(3))));
    assert!(matches!(last_result("(+ 2 1)"), Ok(Value::Number(3))));
    assert!(matches!(last_result("(+ (+ 1 2) 3)"), Ok(Value::Number(6))));
    assert!(matches!(last_result("(+ 1 (+ 2 3))"), Ok(Value::Number(6))));
    assert!(matches!(last_result("(* (* 2 3) 4)"), Ok(Value::Number(24))));
    assert!(matches!(last_result("(* 2 (* 3 4))"), Ok(Value::Number(24))));
    assert!(matches!(last_result("(* 4 3 2)"), Ok(Value::Number(24))));
}

#[test]
fn arithmetic_outside_i64_is_an_error() {
    assert!(matches!(last_result("(+ 9223372036854775807 1)"), Err(Error::EvalError(_))));
    assert!(matches!(
        last_result("(+ 9223372036854775807 1 -1)"),
        Ok(Value::Number(9223372036854775807))
    ));
    assert!(matches!(last_result("(* 4611686018427387904 2)"), Err(Error::EvalError(_))));
    assert!(matches!(
        last_result("(* 4611686018427387904 2 -1)"),
        Ok(Value::Number(i64::MIN))
    ));
    assert!(matches!(last_result("(* 9223372036854775807 9223372036854775807 0)"), Ok(Value::Number(0))));
}

#[test]
fn saved_and_reloaded_cache_reports_no_changes() {
    let mut cache = NodeCache::new();
    let src = "(def x 2) (def y (* x 3)) (+ x y) (str.upper \"abc\")";
    let (_, first) = cycle(src, &mut cache);
    assert_eq!(first.len(), 4);
    let records = cache.records();
    assert!(records.iter().all(|r| r.id_hex.len() == 64));
    let mut reloaded = NodeCache::from_records(&records);
    assert_eq!(reloaded.len(), cache.len());
    let (_, again) = cycle(src, &mut reloaded);
    assert_eq!(again.len(), 0);
}

#[test]
fn repeated_errors_are_not_reported_twice() {
    let mut cache = NodeCache::new();
    let (_, first) = cycle("(+ 1 \"two\") zzz", &mut cache);
    assert_eq!(first.len(), 2);
    let (_, again) = cycle("(+ 1 \"two\") zzz", &mut cache);
    assert_eq!(again.len(), 0);
}

#[test]
fn records_are_sorted_by_line() {
    let mut cache = NodeCache::new();
    let (_, records) = cycle("(+ 1 1)\n\n(+ 2 2)\n(+ 3 3)", &mut cache);
    let lines: Vec<usize> = records.iter().map(|r| r.line).collect();
    assert_eq!(lines, vec![1, 3, 4]);
}

#[test]
fn unknown_heads_and_empty_lists_fail() {
    match last_result("(frobnicate 1 2)") {
        Err(Error::EvalError(m)) => assert!(m.contains("frobnicate")),
        other => panic!("unexpected {}", describe(&Some(other))),
    }
    assert!(matches!(last_result("()"), Err(Error::EvalError(_))));
    assert!(matches!(last_result("((+ 1 2) 3)"), Err(Error::EvalError(_))));
}

#[test]
fn upper_case_follows_unicode() {
    match last_result("(str.upper \"straße\")") {
        Ok(Value::String(s)) => assert_eq!(s, "STRASSE"),
        other => panic!("unexpected {}", describe(&Some(other))),
    }
    assert!(matches!(last_result("(str.upper 5)"), Err(Error::EvalError(_))));
}

#[test]
fn http_get_needs_a_text_url() {
    assert!(matches!(last_result("(http.get 5)"), Err(Error::EvalError(_))));
    let mut cache = NodeCache::new();
    let asts = parse("(http.get \"http://h/\")").unwrap();
    match run_cycle(&asts, &mut cache) {
        CycleOutcome::Fetch(pending) => {
            assert_eq!(pending.url, "http://h/");
            assert_eq!(pending.cycle.roots.len(), 0);
        }
        _ => panic!("a fetch is needed first"),
    }
}

#[test]
fn a_failed_fetch_is_an_http_error() {
    let mut cache = NodeCache::new();
    let asts = parse("(http.get \"http://h/\")").unwrap();
    let id = match run_cycle(&asts, &mut cache) {
        CycleOutcome::Fetch(pending) => pending.id,
        _ => panic!("a fetch is needed first"),
    };
    cache.insert(id, fetch_result(Err("connection refused".to_string())));
    match run_cycle(&asts, &mut cache) {
        CycleOutcome::Complete(c) => match c.last {
            Some(Err(Error::HttpError(m))) => assert_eq!(m, "connection refused"),
            other => panic!("unexpected {}", describe(&other)),
        },
        _ => panic!("the cycle completes once the fetch is recorded"),
    }
}

#[test]
fn records_on_one_line_keep_source_order() {
    let mut cache = NodeCache::new();
    let (_, records) = cycle("(+ 1 1) (+ 2 2)\n(+ 3 3) (+ 4 4)", &mut cache);
    let values: Vec<i64> = records.iter().map(|r| number(&r.result)).collect();
    assert_eq!(values, vec![2, 4, 6, 8]);
    let roots: Vec<usize> = records.iter().map(|r| r.root).collect();
    assert_eq!(roots, vec![0, 1, 2, 3]);
}
