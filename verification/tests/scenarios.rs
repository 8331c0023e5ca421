use flatted::flatten::{stringify_simple, to_json};
use flatted::graph::{Graph, Value};
use flatted::json::{Json, Number};
use flatted::unflatten::{from_json, parse, parse_simple};

/// Reads JSON text into the library's JSON value.
fn doc(text: &str) -> Json {
    let v: serde_json::Value = serde_json::from_str(text).unwrap();
    convert(&v)
}

fn convert(v: &serde_json::Value) -> Json {
    match v {
        serde_json::Value::Null => Json::Null,
        serde_json::Value::Bool(b) => Json::Bool(*b),
        serde_json::Value::Number(n) => Json::Number(Number::from_text(n.to_string())),
        serde_json::Value::String(s) => Json::String(s.clone()),
        serde_json::Value::Array(items) => Json::Array(items.iter().map(convert).collect()),
        serde_json::Value::Object(m) => {
            Json::Object(m.iter().map(|(k, x)| (k.clone(), convert(x))).collect())
        }
    }
}

fn obj(g: &mut Graph, entries: &[(&str, Value)]) -> Value {
    g.object(entries.iter().map(|(k, v)| ((*k).to_owned(), v.clone())).collect())
}

fn arr(g: &mut Graph, items: Vec<Value>) -> Value {
    g.array(items)
}

fn num(n: i64) -> Value {
    Value::from_i64(n)
}

fn text(s: &str) -> Value {
    Value::from_str(s)
}

#[test]
fn multiple_nulls() {
    let mut g = Graph::new();
    let a = arr(&mut g, vec![Value::Null, Value::Null]);
    assert_eq!(stringify_simple(&g, &a).unwrap(), "[[null,null]]");
}

#[test]
fn empty_collections() {
    let mut g = Graph::new();
    let a = arr(&mut g, vec![]);
    let o = obj(&mut g, &[]);
    assert_eq!(stringify_simple(&g, &a).unwrap(), "[[]]");
    assert_eq!(stringify_simple(&g, &o).unwrap(), "[{}]");
}

#[test]
fn recursive_array() {
    let mut g = Graph::new();
    let a = arr(&mut g, vec![]);
    g.push(&a, a.clone());
    assert_eq!(stringify_simple(&g, &a).unwrap(), r#"[["0"]]"#);

    let (g2, back) = parse_simple(&doc(r#"[["0"]]"#)).unwrap();
    let first = g2.get(&back, 0).unwrap();
    assert!(back.ptr_eq(&first));
}

#[test]
fn recursive_object() {
    let mut g = Graph::new();
    let o = obj(&mut g, &[]);
    g.insert(&o, "o".into(), o.clone());
    assert_eq!(stringify_simple(&g, &o).unwrap(), r#"[{"o":"0"}]"#);

    let (g2, back) = parse_simple(&doc(r#"[{"o":"0"}]"#)).unwrap();
    let inner = g2.get_key(&back, "o").unwrap();
    assert!(back.ptr_eq(&inner));
}

#[test]
fn values_in_array_and_object() {
    let mut g = Graph::new();
    let a = arr(&mut g, vec![]);
    g.push(&a, a.clone());
    g.push(&a, num(1));
    g.push(&a, text("two"));
    g.push(&a, Value::from(true));
    assert_eq!(stringify_simple(&g, &a).unwrap(), r#"[["0",1,"1",true],"two"]"#);

    let o = obj(&mut g, &[]);
    g.insert(&o, "o".into(), o.clone());
    g.insert(&o, "one".into(), num(1));
    g.insert(&o, "two".into(), text("two"));
    g.insert(&o, "three".into(), Value::from(true));
    assert_eq!(
        stringify_simple(&g, &o).unwrap(),
        r#"[{"o":"0","one":1,"two":"1","three":true},"two"]"#
    );
}

#[test]
fn object_in_array_and_array_in_object() {
    let mut g = Graph::new();
    let a = arr(&mut g, vec![]);
    let o = obj(&mut g, &[]);

    g.push(&a, a.clone());
    g.push(&a, num(1));
    g.push(&a, text("two"));
    g.push(&a, Value::from(true));
    g.push(&a, o.clone());

    g.insert(&o, "o".into(), o.clone());
    g.insert(&o, "one".into(), num(1));
    g.insert(&o, "two".into(), text("two"));
    g.insert(&o, "three".into(), Value::from(true));
    g.insert(&o, "a".into(), a.clone());

    assert_eq!(
        stringify_simple(&g, &a).unwrap(),
        r#"[["0",1,"1",true,"2"],"two",{"o":"2","one":1,"two":"1","three":true,"a":"0"}]"#
    );
    assert_eq!(
        stringify_simple(&g, &o).unwrap(),
        r#"[{"o":"0","one":1,"two":"1","three":true,"a":"2"},"two",["2",1,"1",true,"0"]]"#
    );
}

#[test]
fn objects_in_array_js_identity() {
    // Equal but distinct objects stay separate entries.
    let mut g = Graph::new();
    let a = arr(&mut g, vec![]);
    let o = obj(&mut g, &[]);

    for v in [a.clone(), num(1), text("two"), Value::from(true), o.clone()] {
        g.push(&a, v);
    }
    g.insert(&o, "o".into(), o.clone());
    g.insert(&o, "one".into(), num(1));
    g.insert(&o, "two".into(), text("two"));
    g.insert(&o, "three".into(), Value::from(true));
    g.insert(&o, "a".into(), a.clone());

    let test_a = obj(&mut g, &[("test", text("OK"))]);
    let array_a = arr(&mut g, vec![num(1), num(2), num(3)]);
    let test_o = obj(&mut g, &[("test", text("OK"))]);
    let array_o = arr(&mut g, vec![num(1), num(2), num(3)]);

    g.push(&a, test_a);
    g.push(&a, array_a);
    g.insert(&o, "test".into(), test_o);
    g.insert(&o, "array".into(), array_o);

    assert_eq!(
        stringify_simple(&g, &a).unwrap(),
        r#"[["0",1,"1",true,"2","3","4"],"two",{"o":"2","one":1,"two":"1","three":true,"a":"0","test":"5","array":"6"},{"test":"7"},[1,2,3],{"test":"7"},[1,2,3],"OK"]"#
    );
    assert_eq!(
        stringify_simple(&g, &o).unwrap(),
        r#"[{"o":"0","one":1,"two":"1","three":true,"a":"2","test":"3","array":"4"},"two",["2",1,"1",true,"0","5","6"],{"test":"7"},[1,2,3],{"test":"7"},[1,2,3],"OK"]"#
    );
}

#[test]
fn roundtrip_primitives() {
    let g = Graph::new();
    for value in [num(1), Value::from(false), Value::Null, text("test")] {
        let text = stringify_simple(&g, &value).unwrap();
        let (_g2, back) = parse_simple(&doc(&text)).unwrap();
        assert_eq!(back, value);
    }
}

#[test]
fn readme_circular_example() {
    // const a = [{}]; a[0].a = a; a.push(a);
    let mut g = Graph::new();
    let inner = obj(&mut g, &[]);
    let a = arr(&mut g, vec![inner]);
    let first = g.get(&a, 0).unwrap();
    g.insert(&first, "a".into(), a.clone());
    g.push(&a, a.clone());
    assert_eq!(stringify_simple(&g, &a).unwrap(), r#"[["1","0"],{"a":"0"}]"#);
}

#[test]
fn special_strings() {
    let special = r"\x7e";
    let mut g = Graph::new();
    let o = obj(&mut g, &[("a", text(special))]);
    let (g2, back) = parse_simple(&doc(&stringify_simple(&g, &o).unwrap())).unwrap();
    assert_eq!(g2.get_key(&back, "a"), Some(text(special)));
}

#[test]
fn replacer_whitelist() {
    let mut g = Graph::new();
    let o = obj(&mut g, &[("a", num(1)), ("b", num(2))]);
    let s = flatted::flatten::stringify(&g, &o, Some(&["b"][..]), None).unwrap();
    assert_eq!(s, r#"[{"b":2}]"#);
}

#[test]
fn indentation_js_style() {
    let mut g = Graph::new();
    let o = obj(&mut g, &[("a", num(1))]);
    // Each record is indented as JSON.stringify(record, null, 2) indents it.
    assert_eq!(
        flatted::flatten::stringify(&g, &o, None, Some("  ")).unwrap(),
        "[{\n  \"a\": 1\n}]"
    );
}

#[test]
fn to_from_json() {
    let mut g = Graph::new();
    let inner = obj(&mut g, &[]);
    let a = arr(&mut g, vec![inner]);
    let first = g.get(&a, 0).unwrap();
    g.insert(&first, "a".into(), a.clone());

    let flat = to_json(&g, &a).unwrap();
    let (g2, back) = from_json(&flat).unwrap();
    let m = g2.get(&back, 0).unwrap();
    let self_ref = g2.get_key(&m, "a").unwrap();
    assert!(back.ptr_eq(&self_ref));
}

#[test]
fn complex_shared_structure() {
    let mut g = Graph::new();
    let unique = obj(&mut g, &[("a", text("sup"))]);
    let value_123 = obj(&mut g, &[("value", num(123))]);
    let empty = obj(&mut g, &[]);
    let z_b = obj(&mut g, &[("r", num(4)), ("u", unique.clone()), ("c", num(5))]);
    let z = obj(
        &mut g,
        &[("g", num(2)), ("a", unique.clone()), ("b", z_b), ("f", num(6))],
    );
    let deep = obj(
        &mut g,
        &[
            ("a", num(1)),
            ("d", num(2)),
            ("c", unique.clone()),
            ("z", z),
            ("h", num(1)),
        ],
    );
    let b_list = arr(&mut g, vec![deep]);
    let with_b = obj(&mut g, &[("b", b_list)]);
    let a_list = arr(&mut g, vec![empty, with_b]);
    let b_obj = obj(&mut g, &[("e", text("f")), ("t", unique.clone()), ("p", num(4))]);
    let nested = obj(&mut g, &[("prop", value_123), ("a", a_list), ("b", b_obj)]);

    let text = stringify_simple(&g, &nested).unwrap();
    let (p, root) = parse_simple(&doc(&text)).unwrap();

    let b = p.get_key(&root, "b").unwrap();
    let res_b_t = p.get_key(&b, "t").unwrap();

    let a = p.get_key(&root, "a").unwrap();
    let second = p.get(&a, 1).unwrap();
    let b2 = p.get_key(&second, "b").unwrap();
    let first = p.get(&b2, 0).unwrap();
    let res_a_c = p.get_key(&first, "c").unwrap();

    assert!(res_b_t.ptr_eq(&res_a_c));
}

#[test]
fn empty_keys_circular() {
    let mut g = Graph::new();
    let inner = obj(&mut g, &[("d", num(1))]);
    let empty_key_map = obj(&mut g, &[("c", inner)]);
    let b_map = obj(&mut g, &[("", empty_key_map.clone())]);
    let a = obj(&mut g, &[("b", b_map), ("_circular", empty_key_map)]);

    let (p, back) = parse_simple(&doc(&stringify_simple(&g, &a).unwrap())).unwrap();
    let circular = p.get_key(&back, "_circular").unwrap();
    let b = p.get_key(&back, "b").unwrap();
    let via_empty = p.get_key(&b, "").unwrap();
    assert!(circular.ptr_eq(&via_empty));
}

#[test]
fn deep_chain() {
    let amount = 1500;
    let mut g = Graph::new();
    let mut chain = arr(&mut g, vec![text("leaf")]);
    for _ in 0..amount {
        chain = arr(&mut g, vec![chain]);
    }
    let text_out = stringify_simple(&g, &chain).unwrap();
    let (p, mut parsed) = parse_simple(&doc(&text_out)).unwrap();
    for _ in 0..amount {
        let next = p.get(&parsed, 0).unwrap();
        parsed = next;
    }
    // The innermost value is the `["leaf"]` array.
    assert_eq!(p.get(&parsed, 0).unwrap(), text("leaf"));
}

#[test]
fn specs_examples() {
    let mut g = Graph::new();
    assert_eq!(stringify_simple(&g, &text("a")).unwrap(), r#"["a"]"#);
    let one = arr(&mut g, vec![text("a")]);
    assert_eq!(stringify_simple(&g, &one).unwrap(), r#"[["1"],"a"]"#);
    let three = arr(&mut g, vec![text("a"), num(1), text("b")]);
    assert_eq!(stringify_simple(&g, &three).unwrap(), r#"[["1",1,"2"],"a","b"]"#);
    let o1 = obj(&mut g, &[("a", text("a"))]);
    assert_eq!(stringify_simple(&g, &o1).unwrap(), r#"[{"a":"1"},"a"]"#);
    let o3 = obj(&mut g, &[("a", text("a")), ("n", num(1)), ("b", text("b"))]);
    assert_eq!(
        stringify_simple(&g, &o3).unwrap(),
        r#"[{"a":"1","n":1,"b":"2"},"a","b"]"#
    );
}

#[test]
fn reviver_transforms_root() {
    let g = Graph::new();
    let text = stringify_simple(&g, &num(1)).unwrap();
    let (_g2, back) = parse(
        &doc(&text),
        Some(|_k: String, v: Value| match v {
            Value::Number(n) if n.text == "1" => Value::from_i64(42),
            other => other,
        }),
    )
    .unwrap();
    assert_eq!(back, num(42));
}

#[test]
fn from_json_value_conversion() {
    let mut g = Graph::new();
    let v = Value::from_json(&mut g, &doc(r#"{"a": [1, true, null]}"#));
    let text = stringify_simple(&g, &v).unwrap();
    let (p, back) = parse_simple(&doc(&text)).unwrap();
    let a = p.get_key(&back, "a").unwrap();
    assert_eq!(p.len(&a), Some(3));
}
