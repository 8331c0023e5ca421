use flatted::error::Error;
use flatted::flatten::{stringify_simple, to_json};
use flatted::graph::{Graph, Value};
use flatted::indent::{pretty_with_indent, remap_indent};
use flatted::json::{write_compact, write_string_literal, Json, Number};
use flatted::text::{parse_index, u64_decimal, usize_decimal};
use flatted::unflatten::{parse, parse_simple, parse_text};
use flatted::document::{flatten_text, unflatten_text};

fn doc(text: &str) -> Json {
    let v: serde_json::Value = serde_json::from_str(text).unwrap();
    convert(&v)
}

fn convert(v: &serde_json::Value) -> Json {
    match v {
        serde_json::Value::Null => Json::Null,
        serde_json::Value::Bool(b) => Json::Bool(*b),
        serde_json::Value::Number(n) => Json::Number(Number::from_text(n.to_string())),
        serde_json::Value::String(s) => Json::String(s.clone()),
        serde_json::Value::Array(items) => Json::Array(items.iter().map(convert).collect()),
        serde_json::Value::Object(m) => {
            Json::Object(m.iter().map(|(k, x)| (k.clone(), convert(x))).collect())
        }
    }
}

fn compact(j: &Json) -> String {
    let mut s = String::new();
    write_compact(j, &mut s).unwrap();
    s
}

fn obj(g: &mut Graph, entries: &[(&str, Value)]) -> Value {
    g.object(entries.iter().map(|(k, v)| ((*k).to_owned(), v.clone())).collect())
}

#[test]
fn flatten_then_unflatten_keeps_the_graph() {
    let mut g = Graph::new();
    let shared = obj(&mut g, &[("x", Value::from_str("s"))]);
    let list = g.array(vec![shared.clone(), shared.clone(), Value::from_i64(-7)]);
    let root = obj(&mut g, &[("list", list.clone()), ("again", shared.clone())]);
    g.insert(&shared, "up".into(), root.clone());

    let first = stringify_simple(&g, &root).unwrap();
    let (g2, back) = parse_simple(&doc(&first)).unwrap();
    let second = stringify_simple(&g2, &back).unwrap();
    assert_eq!(first, second);

    let l = g2.get_key(&back, "list").unwrap();
    let s0 = g2.get(&l, 0).unwrap();
    let s1 = g2.get(&l, 1).unwrap();
    let again = g2.get_key(&back, "again").unwrap();
    assert!(s0.ptr_eq(&s1));
    assert!(s0.ptr_eq(&again));
    let up = g2.get_key(&s0, "up").unwrap();
    assert!(up.ptr_eq(&back));
    assert_eq!(g2.get(&l, 2), Some(Value::from_i64(-7)));
}

#[test]
fn equal_strings_share_one_entry() {
    let mut g = Graph::new();
    let a = g.array(vec![Value::from_str("x"), Value::from_str("x"), Value::from_str("y")]);
    assert_eq!(stringify_simple(&g, &a).unwrap(), r#"[["1","1","2"],"x","y"]"#);
}

#[test]
fn tree_round_trip() {
    let text = r#"{"a":[1,true,null,{"b":"c"}],"d":{},"e":[],"f":-2.5}"#;
    let mut g = Graph::new();
    let v = Value::from_json(&mut g, &doc(text));
    let back = v.to_serde_json(&g);
    assert_eq!(compact(&back), text);
}

#[test]
fn cycles_unfold_to_null() {
    let mut g = Graph::new();
    let o = obj(&mut g, &[("n", Value::from_i64(1))]);
    g.insert(&o, "me".into(), o.clone());
    let shared = g.array(vec![]);
    let outer = g.array(vec![o.clone(), shared.clone(), shared.clone()]);
    let tree = outer.to_serde_json(&g);
    assert_eq!(compact(&tree), r#"[{"n":1,"me":null},[],[]]"#);
}

#[test]
fn not_an_array_is_refused() {
    match parse_simple(&doc(r#"{"a":1}"#)) {
        Err(Error::ExpectedArray) => {}
        other => panic!("unexpected: {:?}", other.map(|p| p.1)),
    }
    assert_eq!(
        Error::ExpectedArray.message(),
        "flatted input must be a JSON array"
    );
}

#[test]
fn bad_indexes_are_refused() {
    match parse_simple(&doc(r#"[["5"]]"#)) {
        Err(Error::InvalidIndex(s)) => assert_eq!(s, "5"),
        other => panic!("unexpected: {:?}", other.map(|p| p.1)),
    }
    match parse_simple(&doc(r#"[{"a":"x"}]"#)) {
        Err(Error::InvalidIndex(s)) => assert_eq!(s, "x"),
        other => panic!("unexpected: {:?}", other.map(|p| p.1)),
    }
    match parse_simple(&doc(r#"[[[1]]]"#)) {
        Err(Error::InvalidIndex(s)) => assert_eq!(s, "nested container without index"),
        other => panic!("unexpected: {:?}", other.map(|p| p.1)),
    }
    assert_eq!(
        Error::InvalidIndex("7".into()).message(),
        "invalid flatted index: 7"
    );
}

#[test]
fn empty_document_gives_null() {
    let (_g, v) = parse_simple(&doc("[]")).unwrap();
    assert_eq!(v, Value::Null);
}

#[test]
fn reviver_sees_keys_innermost_first() {
    let mut seen: Vec<String> = Vec::new();
    let (g, root) = parse(
        &doc(r#"[{"a":"1","b":2},["2"],"x"]"#),
        Some(|k: String, v: Value| {
            seen.push(k);
            match v {
                Value::Number(_) => Value::from_i64(0),
                other => other,
            }
        }),
    )
    .unwrap();
    assert_eq!(seen, vec!["0", "a", "b", ""]);
    assert_eq!(g.get_key(&root, "b"), Some(Value::from_i64(0)));
}

#[test]
fn replacer_skips_other_keys_everywhere() {
    let mut g = Graph::new();
    let inner = obj(&mut g, &[("keep", Value::from_i64(1)), ("drop", Value::from_i64(2))]);
    let o = obj(&mut g, &[("keep", inner), ("drop", Value::from_str("gone"))]);
    let s = flatted::flatten::stringify(&g, &o, Some(&["keep"][..]), None).unwrap();
    assert_eq!(s, r#"[{"keep":"1"},{"keep":1}]"#);
}

#[test]
fn tab_indentation() {
    let mut g = Graph::new();
    let list = g.array(vec![Value::from_i64(1)]);
    let o = obj(&mut g, &[("a", list)]);
    assert_eq!(
        flatted::flatten::stringify(&g, &o, None, Some("\t")).unwrap(),
        "[{\n\t\"a\": \"1\"\n},[\n\t1\n]]"
    );
}

#[test]
fn pretty_empty_containers() {
    assert_eq!(pretty_with_indent(&doc("[]"), "  ").unwrap(), "[]");
    assert_eq!(pretty_with_indent(&doc("{}"), "  ").unwrap(), "{}");
    assert_eq!(
        pretty_with_indent(&doc(r#"{"a":[]}"#), "    ").unwrap(),
        "{\n    \"a\": []\n}"
    );
}

#[test]
fn remap_indent_replaces_leading_runs() {
    assert_eq!(
        remap_indent("{\n  \"a\": [\n    1\n  ]\n}", "  ", "\t"),
        "{\n\t\"a\": [\n\t\t1\n\t]\n}"
    );
    assert_eq!(remap_indent("   x", "  ", "-"), "- x");
    assert_eq!(remap_indent("a\r\nb\n", "  ", "-"), "a\nb");
}

#[test]
fn strings_are_escaped() {
    let mut out = String::from("x");
    write_string_literal("a\"b\n\u{1}", &mut out).unwrap();
    assert_eq!(out, "x\"a\\\"b\\n\\u0001\"");
    let g = Graph::new();
    assert_eq!(
        stringify_simple(&g, &Value::from_str("q\"\\")).unwrap(),
        r#"["q\"\\"]"#
    );
}

#[test]
fn index_text() {
    assert_eq!(parse_index("12"), Some(12));
    assert_eq!(parse_index("+3"), Some(3));
    assert_eq!(parse_index("007"), Some(7));
    assert_eq!(parse_index(""), None);
    assert_eq!(parse_index("-1"), None);
    assert_eq!(parse_index("1a"), None);
    assert_eq!(parse_index("99999999999999999999999"), None);
    assert_eq!(usize_decimal(0), "0");
    assert_eq!(u64_decimal(18446744073709551615), "18446744073709551615");
}

#[test]
fn numbers_keep_their_text() {
    assert_eq!(Number::from_i64(-42).text, "-42");
    assert_eq!(Number::from_u64(7).text, "7");
    let g = Graph::new();
    let v = Value::Number(Number::from_text("1e300".to_string()));
    assert_eq!(stringify_simple(&g, &v).unwrap(), "[1e300]");
}

#[test]
fn to_json_is_the_flat_array() {
    let mut g = Graph::new();
    let a = g.array(vec![Value::from_str("z"), Value::Null]);
    let flat = to_json(&g, &a).unwrap();
    assert_eq!(compact(&flat), r#"[["1",null],"z"]"#);
}

#[test]
fn object_insert_keeps_first_place() {
    let mut g = Graph::new();
    let o = g.object(vec![
        ("k".to_string(), Value::from_i64(1)),
        ("m".to_string(), Value::from_i64(2)),
        ("k".to_string(), Value::from_i64(3)),
    ]);
    assert_eq!(stringify_simple(&g, &o).unwrap(), r#"[{"k":3,"m":2}]"#);
    assert_eq!(g.len(&o), Some(2));
}

#[test]
fn syntax_errors_keep_their_message() {
    let e = serde_json::from_str::<serde_json::Value>("[1,").unwrap_err();
    let expected = e.to_string();
    let err = Error::from(e);
    assert_eq!(err.message(), expected);
}

#[test]
fn to_json_matches_the_text() {
    let mut g = Graph::new();
    let o = obj(&mut g, &[("k", Value::from_str("v")), ("n", Value::from_u64(3))]);
    let a = g.array(vec![o.clone(), o.clone(), Value::from_str("v")]);
    g.insert(&o, "back".into(), a.clone());
    let flat = to_json(&g, &a).unwrap();
    assert_eq!(compact(&flat), stringify_simple(&g, &a).unwrap());
    assert_eq!(compact(&flat), r#"[["1","1","2"],{"k":"2","n":3,"back":"0"},"v"]"#);
}

#[test]
fn reviver_on_a_cycle_ends() {
    let (g, root) = parse(&doc(r#"[["0"]]"#), Some(|_k: String, v: Value| v)).unwrap();
    let first = g.get(&root, 0).unwrap();
    assert!(first.ptr_eq(&root));
    assert_eq!(g.len(&root), Some(1));
}

#[test]
fn shared_object_is_revived_once() {
    let (g, root) = parse(
        &doc(r#"[["1","1"],{"n":1}]"#),
        Some(|_k: String, v: Value| match v {
            Value::Number(n) if n.text == "1" => Value::from_i64(2),
            Value::Number(n) if n.text == "2" => Value::from_i64(3),
            other => other,
        }),
    )
    .unwrap();
    let a = g.get(&root, 0).unwrap();
    let b = g.get(&root, 1).unwrap();
    assert!(a.ptr_eq(&b));
    assert_eq!(g.get_key(&a, "n"), Some(Value::from_i64(2)));
}

#[test]
fn reviver_may_answer_with_another_node() {
    let (g, root) = parse(
        &doc(r#"[{"a":"1","b":"2"},{"x":1},[]]"#),
        Some(|k: String, v: Value| if k == "b" { Value::Object(1) } else { v }),
    )
    .unwrap();
    let a = g.get_key(&root, "a").unwrap();
    let b = g.get_key(&root, "b").unwrap();
    assert!(a.ptr_eq(&b));
}

#[test]
fn text_that_is_not_json_is_refused() {
    match parse_text("[1,", None::<fn(String, Value) -> Value>) {
        Err(Error::Json(_)) => {}
        other => panic!("unexpected: {:?}", other.map(|p| p.1)),
    }
    match flatten_text("{") {
        Err(Error::Json(_)) => {}
        other => panic!("unexpected: {:?}", other),
    }
    match unflatten_text("nope") {
        Err(Error::Json(_)) => {}
        other => panic!("unexpected: {:?}", other),
    }
    match unflatten_text(r#"{"a":1}"#) {
        Err(Error::ExpectedArray) => {}
        other => panic!("unexpected: {:?}", other),
    }
}

#[test]
fn text_in_text_out() {
    assert_eq!(flatten_text(r#"{"a":"b","c":[1,"b"]}"#).unwrap(), r#"[{"a":"1","c":"2"},"b",[1,"1"]]"#);
    assert_eq!(unflatten_text(r#"[{"a":"1"},"b"]"#).unwrap(), "{\n  \"a\": \"b\"\n}");
    assert_eq!(unflatten_text(r#"[["0",1]]"#).unwrap(), "[\n  null,\n  1\n]");
    let (g, root) = parse_text(r#"[{"o":"0"}]"#, None::<fn(String, Value) -> Value>).unwrap();
    let inner = g.get_key(&root, "o").unwrap();
    assert!(inner.ptr_eq(&root));
}

#[test]
fn empty_and_long_indents() {
    let mut g = Graph::new();
    let o = obj(&mut g, &[("a", Value::from_i64(1))]);
    assert_eq!(flatted::flatten::stringify(&g, &o, None, Some("")).unwrap(), r#"[{"a":1}]"#);
    assert_eq!(
        flatted::flatten::stringify(&g, &o, None, Some("abcdefghijkl")).unwrap(),
        "[{\nabcdefghij\"a\": 1\n}]"
    );
    assert_eq!(pretty_with_indent(&doc(r#"{"a":[1]}"#), "").unwrap(), r#"{"a":[1]}"#);
}

#[test]
fn values_describe_themselves() {
    let mut g = Graph::new();
    let a = g.array(vec![Value::Null, Value::from(true)]);
    let o = obj(&mut g, &[("k", Value::from_str("x\"y"))]);
    assert_eq!(a.describe(&g), "Array(len=2)");
    assert_eq!(o.describe(&g), "Object(len=1)");
    assert_eq!(Value::Null.describe(&g), "Null");
    assert_eq!(Value::from(true).describe(&g), "Bool(true)");
    assert_eq!(Value::from_i64(-3).describe(&g), "Number(Number(-3))");
    assert_eq!(Value::from_str("x\"y").describe(&g), "String(\"x\\\"y\")");
}

#[test]
fn remap_there_and_back() {
    let text = "{\n  \"a\": [\n    1,\n    \"  x\"\n  ]\n}";
    let there = remap_indent(text, "  ", "\t");
    assert_eq!(there, "{\n\t\"a\": [\n\t\t1,\n\t\t\"  x\"\n\t]\n}");
    assert_eq!(remap_indent(&there, "\t", "  "), text);
}

#[test]
fn reviver_call_order() {
    let mut calls: Vec<(String, String)> = Vec::new();
    let (g, root) = parse(
        &doc(r#"[{"b":1,"a":"1"},[true]]"#),
        Some(|k: String, v: Value| {
            let shown = match &v {
                Value::Number(n) => n.text.clone(),
                Value::Bool(b) => b.to_string(),
                Value::Array(id) => format!("array {id}"),
                Value::Object(id) => format!("object {id}"),
                _ => String::from("other"),
            };
            calls.push((k, shown));
            v
        }),
    )
    .unwrap();
    let expected: Vec<(String, String)> = vec![
        ("b".into(), "1".into()),
        ("0".into(), "true".into()),
        ("a".into(), "array 1".into()),
        ("".into(), "object 0".into()),
    ];
    assert_eq!(calls, expected);
    assert_eq!(root, Value::Object(0));
    assert_eq!(g.get_key(&root, "b"), Some(Value::from_i64(1)));
}

#[test]
fn from_json_rereads_its_text() {
    let mut deep = Json::Array(vec![]);
    for _ in 0..200 {
        deep = Json::Array(vec![deep]);
    }
    match flatted::unflatten::from_json(&deep) {
        Err(Error::Json(_)) => {}
        other => panic!("unexpected: {:?}", other.map(|p| p.1)),
    }
    match flatted::unflatten::from_json(&doc(r#"{"a":1}"#)) {
        Err(Error::ExpectedArray) => {}
        other => panic!("unexpected: {:?}", other.map(|p| p.1)),
    }
}

#[test]
fn error_messages() {
    assert_eq!(Error::TooLarge.message(), "document holds too many arrays and objects");
}
