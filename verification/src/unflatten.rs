//! Reading a flatted array back into a value graph.
//!
//! Every array or object record of the flatted array becomes a node, in the
//! order of the records; a string inside such a record is the decimal
//! position of the entry it stands for.
use vstd::prelude::*;
use crate::text::{index_value, parse_index, append_str, decimal};
use crate::json::{Json, JsonTree, Number, json_of_text, read_json, compact, write_compact};
use crate::graph::{Graph, Value, Val, NodeV, val_in, graph_wf, inserted_all, node_of, node_values, node_in};
use crate::object::{has_key, key_position, member_insert};
use crate::text::usize_decimal;
use crate::object::{members, keys_distinct, object_new, object_insert, lemma_member_insert_distinct};
use crate::graph::lemma_member_insert_values;
use crate::error::Error;
use crate::tree::{off_path, lemma_off_path_update};

verus! {

/// Whether a record is an array or an object.
pub open spec fn is_container(t: JsonTree) -> bool {
    t is Array || t is Object
}

/// The number of arrays and objects among the first `n` records.
pub open spec fn containers_before(flat: Seq<JsonTree>, n: int) -> nat
    decreases n,
{
    if n <= 0 || n > flat.len() {
        0
    } else if is_container(flat[n - 1]) {
        containers_before(flat, n - 1) + 1
    } else {
        containers_before(flat, n - 1)
    }
}

/// The value record `i` stands for: its node if it is an array or object,
/// the record itself otherwise.
pub open spec fn shell(flat: Seq<JsonTree>, i: int) -> Val {
    match flat[i] {
        JsonTree::Array(_) => Val::Array(containers_before(flat, i)),
        JsonTree::Object(_) => Val::Object(containers_before(flat, i)),
        JsonTree::Null => Val::Null,
        JsonTree::Bool(b) => Val::Bool(b),
        JsonTree::Number(n) => Val::Number(n),
        JsonTree::String(s) => Val::Str(s),
    }
}

/// The values every record stands for.
pub open spec fn shells(flat: Seq<JsonTree>) -> Seq<Val> {
    Seq::new(flat.len(), |i: int| shell(flat, i))
}

/// The message for an array or object nested inside a record.
pub open spec fn nested_message() -> Seq<char> {
    "nested container without index"@
}

/// What an item inside a record stands for: a string is the position of an
/// entry, a null, boolean or number is itself; otherwise the text of the
/// `InvalidIndex` error.
pub open spec fn resolve(sh: Seq<Val>, item: JsonTree) -> Result<Val, Seq<char>> {
    match item {
        JsonTree::String(s) => match index_value(s) {
            Some(n) => if n < sh.len() {
                Ok(sh[n as int])
            } else {
                Err(s)
            },
            None => Err(s),
        },
        JsonTree::Null => Ok(Val::Null),
        JsonTree::Bool(b) => Ok(Val::Bool(b)),
        JsonTree::Number(n) => Ok(Val::Number(n)),
        _ => Err(nested_message()),
    }
}

/// The items of an array record or the member values of an object record.
pub open spec fn record_items(t: JsonTree) -> Seq<JsonTree> {
    match t {
        JsonTree::Array(items) => items,
        JsonTree::Object(es) => es.map_values(|e: (Seq<char>, JsonTree)| e.1),
        _ => Seq::empty(),
    }
}

/// The error of the first of the first `n` items that does not resolve.
pub open spec fn items_failure(sh: Seq<Val>, items: Seq<JsonTree>, n: int) -> Option<Seq<char>>
    decreases n,
{
    if n <= 0 || n > items.len() {
        None
    } else {
        match items_failure(sh, items, n - 1) {
            Some(m) => Some(m),
            None => match resolve(sh, items[n - 1]) {
                Err(m) => Some(m),
                Ok(_) => None,
            },
        }
    }
}

/// The error of the first item, among the first `n` records, that does not
/// resolve.
pub open spec fn records_failure(flat: Seq<JsonTree>, n: int) -> Option<Seq<char>>
    decreases n,
{
    if n <= 0 || n > flat.len() {
        None
    } else {
        match records_failure(flat, n - 1) {
            Some(m) => Some(m),
            None => {
                let items = record_items(flat[n - 1]);
                items_failure(shells(flat), items, items.len() as int)
            },
        }
    }
}

/// The node an array or object record describes.
pub open spec fn node_for(flat: Seq<JsonTree>, t: JsonTree) -> NodeV {
    match t {
        JsonTree::Object(es) => NodeV::Object(
            inserted_all(es.map_values(|e: (Seq<char>, JsonTree)| (e.0, resolve(shells(flat), e.1)->Ok_0))),
        ),
        _ => NodeV::Array(record_items(t).map_values(|it: JsonTree| resolve(shells(flat), it)->Ok_0)),
    }
}

/// The nodes of the array and object records among the first `n` records.
pub open spec fn nodes_upto(flat: Seq<JsonTree>, n: int) -> Seq<NodeV>
    decreases n,
{
    if n <= 0 || n > flat.len() {
        Seq::empty()
    } else if is_container(flat[n - 1]) {
        nodes_upto(flat, n - 1).push(node_for(flat, flat[n - 1]))
    } else {
        nodes_upto(flat, n - 1)
    }
}

/// The graph a flatted array describes.
pub open spec fn unflattened(flat: Seq<JsonTree>) -> Seq<NodeV> {
    nodes_upto(flat, flat.len() as int)
}

/// The root a flatted array describes: its first entry, or null when empty.
pub open spec fn root_of(flat: Seq<JsonTree>) -> Val {
    if flat.len() == 0 {
        Val::Null
    } else {
        shell(flat, 0)
    }
}

/// An empty node of the kind of record `t`.
pub open spec fn empty_node(t: JsonTree) -> NodeV {
    if t is Object {
        NodeV::Object(Seq::empty())
    } else {
        NodeV::Array(Seq::empty())
    }
}

/// The empty nodes of the array and object records among the first `n`.
pub open spec fn empty_nodes_upto(flat: Seq<JsonTree>, n: int) -> Seq<NodeV>
    decreases n,
{
    if n <= 0 || n > flat.len() {
        Seq::empty()
    } else if is_container(flat[n - 1]) {
        empty_nodes_upto(flat, n - 1).push(empty_node(flat[n - 1]))
    } else {
        empty_nodes_upto(flat, n - 1)
    }
}

/// Counting containers record by record.
pub proof fn lemma_nodes_upto(flat: Seq<JsonTree>, n: int)
    requires
        0 <= n <= flat.len(),
    ensures
        nodes_upto(flat, n).len() == containers_before(flat, n),
        containers_before(flat, n) <= n,
        empty_nodes_upto(flat, n).len() == containers_before(flat, n),
        forall|i: int|
            #![trigger containers_before(flat, i)]
            0 <= i < n && is_container(flat[i]) ==> containers_before(flat, i) < containers_before(flat, n)
                && nodes_upto(flat, n)[containers_before(flat, i) as int] == node_for(flat, flat[i])
                && empty_nodes_upto(flat, n)[containers_before(flat, i) as int] == empty_node(flat[i]),
        forall|k: int| 0 <= k < containers_before(flat, n) ==> (#[trigger] nodes_upto(flat, n)[k] is Array)
            == (empty_nodes_upto(flat, n)[k] is Array),
        forall|k: int| 0 <= k < containers_before(flat, n) ==> #[trigger] empty_nodes_upto(flat, n)[k] == (if empty_nodes_upto(flat, n)[k] is Object {
                NodeV::Object(Seq::empty())
            } else {
                NodeV::Array(Seq::empty())
            }),
    decreases n,
{
    if n > 0 {
        lemma_nodes_upto(flat, n - 1);
        assert forall|i: int|
            #![trigger containers_before(flat, i)]
            0 <= i < n && is_container(flat[i]) implies containers_before(flat, i) < containers_before(flat, n)
                && nodes_upto(flat, n)[containers_before(flat, i) as int] == node_for(flat, flat[i])
                && empty_nodes_upto(flat, n)[containers_before(flat, i) as int] == empty_node(flat[i]) by {
            if i < n - 1 {
                assert(containers_before(flat, i) < containers_before(flat, n - 1));
            }
        }
        assert forall|k: int| 0 <= k < containers_before(flat, n) implies (#[trigger] nodes_upto(flat, n)[k] is Array)
            == (empty_nodes_upto(flat, n)[k] is Array) by {
            if k < containers_before(flat, n - 1) {
            } else {
                let t = flat[n - 1];
                assert(node_for(flat, t) is Array == empty_node(t) is Array);
            }
        }
    }
}

/// Reads the value an item inside a record stands for.
fn resolve_ref(item: &Json, input: &Vec<Value>) -> (r: Result<Value, Error>)
    ensures
        match resolve(input@.map_values(|v: Value| v@), item@) {
            Ok(v) => r matches Ok(x) && x@ == v,
            Err(m) => r matches Err(Error::InvalidIndex(s)) && s@ == m,
        },
{
    let ghost sh = input@.map_values(|v: Value| v@);
    match item {
        Json::String(s) => {
            match parse_index(s.as_str()) {
                Some(idx) => {
                    if idx < input.len() {
                        Ok(input[idx].clone())
                    } else {
                        Err(Error::InvalidIndex(s.clone()))
                    }
                },
                None => Err(Error::InvalidIndex(s.clone())),
            }
        },
        Json::Null => Ok(Value::Null),
        Json::Bool(b) => Ok(Value::Bool(*b)),
        Json::Number(n) => Ok(Value::Number(n.copy())),
        _ => {
            let mut m = String::new();
            append_str(&mut m, "nested container without index");
            proof {
                reveal_strlit("nested container without index");
            }
            Err(Error::InvalidIndex(m))
        },
    }
}

/// Once an item fails, the first failure stays.
pub proof fn lemma_items_failure_stays(sh: Seq<Val>, items: Seq<JsonTree>, a: int, b: int)
    requires
        0 <= a <= b <= items.len(),
        items_failure(sh, items, a) is Some,
    ensures
        items_failure(sh, items, b) == items_failure(sh, items, a),
    decreases b - a,
{
    if a < b {
        lemma_items_failure_stays(sh, items, a, b - 1);
    }
}

/// Once a record fails, the first failure stays.
pub proof fn lemma_records_failure_stays(flat: Seq<JsonTree>, a: int, b: int)
    requires
        0 <= a <= b <= flat.len(),
        records_failure(flat, a) is Some,
    ensures
        records_failure(flat, b) == records_failure(flat, a),
    decreases b - a,
{
    if a < b {
        lemma_records_failure_stays(flat, a, b - 1);
    }
}

/// The records of a flatted document held as a JSON array.
pub open spec fn flat_of(items: Seq<Json>) -> Seq<JsonTree> {
    items.map_values(|j: Json| j@)
}

/// A value a record stands for lies in a graph whose nodes have the kinds of
/// the records.
proof fn lemma_shell_in(flat: Seq<JsonTree>, g: Seq<NodeV>, n: int)
    requires
        0 <= n < flat.len(),
        g.len() == containers_before(flat, flat.len() as int),
        forall|k: int| 0 <= k < g.len() ==> (#[trigger] g[k] is Array) == (empty_nodes_upto(flat, flat.len() as int)[k] is Array),
    ensures
        val_in(g, shell(flat, n)),
{
    lemma_nodes_upto(flat, flat.len() as int);
    if is_container(flat[n]) {
        let k = containers_before(flat, n) as int;
        assert(empty_nodes_upto(flat, flat.len() as int)[k] == empty_node(flat[n]));
    }
}

/// Reads a flatted array, given as a JSON value, back into a fresh graph and
/// its root.
fn unflatten(doc: &Json) -> (r: Result<(Graph, Value), Error>)
    ensures
        match doc@ {
            JsonTree::Array(flat) => match records_failure(flat, flat.len() as int) {
                Some(m) => r matches Err(Error::InvalidIndex(s)) && s@ == m,
                None => r matches Ok((g, v)) && g.wf() && g@ == unflattened(flat) && v@ == root_of(flat)
                    && val_in(g@, v@),
            },
            _ => r matches Err(Error::ExpectedArray),
        },
{
    let flat = match doc {
        Json::Array(items) => items,
        _ => {
            return Err(Error::ExpectedArray);
        },
    };
    let ghost ft = doc@->Array_0;
    assert(ft =~= flat_of(flat@));
    let len = flat.len();
    // Phase 1: an empty node for every array and object record.
    let mut g = Graph::new();
    let mut input: Vec<Value> = Vec::new();
    let mut i: usize = 0;
    assert(empty_nodes_upto(ft, 0) =~= g@);
    while i < len
        invariant
            i <= len,
            len == flat.len(),
            ft == flat_of(flat@),
            g.wf(),
            g@ == empty_nodes_upto(ft, i as int),
            g@.len() == containers_before(ft, i as int),
            g@.len() <= i,
            input.len() == i,
            forall|n: int| 0 <= n < i ==> (#[trigger] input@[n])@ == shell(ft, n),
            doc@ == JsonTree::Array(ft),
        decreases len - i,
    {
        assert(ft[i as int] == flat@[i as int]@);
        let v = match &flat[i] {
            Json::Array(_) => Value::empty_array(&mut g),
            Json::Object(_) => Value::empty_object(&mut g),
            Json::Null => Value::Null,
            Json::Bool(b) => Value::Bool(*b),
            Json::Number(n) => Value::Number(n.copy()),
            Json::String(s) => Value::String(s.clone()),
        };
        input.push(v);
        i += 1;
        assert(g@ =~= empty_nodes_upto(ft, i as int));
    }
    let ghost sh = shells(ft);
    assert(input@.map_values(|v: Value| v@) =~= sh);
    let ghost total = containers_before(ft, len as int);
    proof {
        lemma_nodes_upto(ft, len as int);
    }
    // Phase 2: fill every node with the values its record's items stand for.
    let mut i: usize = 0;
    let mut k: usize = 0;
    while i < len
        invariant
            i <= len,
            len == flat.len(),
            ft == flat_of(flat@),
            sh == shells(ft),
            input@.map_values(|v: Value| v@) == sh,
            total == containers_before(ft, len as int),
            g.wf(),
            g@.len() == total,
            k == containers_before(ft, i as int),
            k <= total,
            forall|q: int| 0 <= q < k ==> #[trigger] g@[q] == unflattened(ft)[q],
            forall|q: int| k <= q < total ==> #[trigger] g@[q] == empty_nodes_upto(ft, len as int)[q],
            forall|q: int| 0 <= q < total ==> (#[trigger] g@[q] is Array) == (empty_nodes_upto(ft, len as int)[q] is Array),
            records_failure(ft, i as int) is None,
            doc@ == JsonTree::Array(ft),
        decreases len - i,
    {
        let ghost t = ft[i as int];
        assert(t == flat@[i as int]@);
        proof {
            lemma_nodes_upto(ft, len as int);
            lemma_nodes_upto(ft, i + 1);
            lemma_nodes_upto(ft, i as int);
        }
        match &flat[i] {
            Json::Array(items) => {
                let ghost its = t->Array_0;
                assert(record_items(t) == its);
                let mut vals: Vec<Value> = Vec::new();
                let mut m: usize = 0;
                while m < items.len()
                    invariant
                        m <= items.len(),
                        its.len() == items.len(),
                        forall|q: int| 0 <= q < items.len() ==> its[q] == (#[trigger] items@[q])@,
                        input@.map_values(|v: Value| v@) == sh,
                        items_failure(sh, its, m as int) is None,
                        vals.len() == m,
                        forall|q: int| 0 <= q < m ==> Ok::<Val, Seq<char>>((#[trigger] vals@[q])@) == resolve(sh, its[q]),
                        i < len,
                        len == flat.len(),
                        ft == flat_of(flat@),
                        sh == shells(ft),
                        its == record_items(ft[i as int]),
                        records_failure(ft, i as int) is None,
                        doc@ == JsonTree::Array(ft),
                    decreases items.len() - m,
                {
                    match resolve_ref(&items[m], &input) {
                        Ok(v) => {
                            vals.push(v);
                        },
                        Err(e) => {
                            proof {
                                assert(items@[m as int]@ == its[m as int]);
                                assert(items_failure(sh, its, m + 1) == Some(resolve(sh, its[m as int])->Err_0));
                                lemma_items_failure_stays(sh, its, m + 1, its.len() as int);
                                assert(records_failure(ft, i + 1) == items_failure(sh, its, its.len() as int));
                                lemma_records_failure_stays(ft, i + 1, len as int);
                            }
                            return Err(e);
                        },
                    }
                    m += 1;
                }
                proof {
                    assert(its.take(its.len() as int) =~= its);
                    assert forall|q: int| 0 <= q < vals.len() implies val_in(g@, #[trigger] vals@[q]@) by {
                        assert(Ok::<Val, Seq<char>>(vals@[q]@) == resolve(sh, its[q]));
                        assert(sh.len() == ft.len());
                        match its[q] {
                            JsonTree::String(s) => {
                                let n = index_value(s)->0 as int;
                                lemma_shell_in(ft, g@, n);
                            },
                            _ => {},
                        }
                    }
                    assert(containers_before(ft, i as int) == k);
                }
                g.set_array(k, vals);
                proof {
                    assert(g@[k as int] == unflattened(ft)[k as int]) by {
                        assert(vals@.map_values(|v: Value| v@) =~= its.map_values(|it: JsonTree| resolve(sh, it)->Ok_0)) by {
                            assert forall|q: int| 0 <= q < its.len() implies vals@[q]@ == resolve(sh, its[q])->Ok_0 by {
                                assert(Ok::<Val, Seq<char>>(vals@[q]@) == resolve(sh, its[q]));
                            }
                        }
                    }
                }
                k += 1;
            },
            Json::Object(entries) => {
                let ghost es = t->Object_0;
                let ghost mapped = es.map_values(|e: (Seq<char>, JsonTree)| (e.0, resolve(sh, e.1)->Ok_0));
                let ghost its = record_items(t);
                let mut obj = object_new();
                let mut m: usize = 0;
                assert(inserted_all(mapped.take(0)) =~= members(obj));
                while m < entries.len()
                    invariant
                        m <= entries.len(),
                        es.len() == entries.len(),
                        forall|q: int| 0 <= q < entries.len() ==> es[q] == ((#[trigger] entries@[q]).0@, entries@[q].1@),
                        its == es.map_values(|e: (Seq<char>, JsonTree)| e.1),
                        mapped == es.map_values(|e: (Seq<char>, JsonTree)| (e.0, resolve(sh, e.1)->Ok_0)),
                        input@.map_values(|v: Value| v@) == sh,
                        items_failure(sh, its, m as int) is None,
                        members(obj) == inserted_all(mapped.take(m as int)),
                        keys_distinct(members(obj)),
                        forall|q: int| 0 <= q < members(obj).len() ==> val_in(g@, #[trigger] members(obj)[q].1),
                        g.wf(),
                        g@.len() == total,
                        total == containers_before(ft, len as int),
                        forall|q: int| 0 <= q < total ==> (#[trigger] g@[q] is Array) == (empty_nodes_upto(ft, len as int)[q] is Array),
                        sh == shells(ft),
                        i < len,
                        len == flat.len(),
                        ft == flat_of(flat@),
                        its == record_items(ft[i as int]),
                        es == ft[i as int]->Object_0,
                        records_failure(ft, i as int) is None,
                        doc@ == JsonTree::Array(ft),
                    decreases entries.len() - m,
                {
                    assert(its[m as int] == entries@[m as int].1@);
                    match resolve_ref(&entries[m].1, &input) {
                        Ok(v) => {
                            proof {
                                assert(resolve(sh, its[m as int]) is Ok);
                                assert(sh.len() == ft.len());
                                match its[m as int] {
                                    JsonTree::String(s) => {
                                        let n = index_value(s)->0 as int;
                                        lemma_shell_in(ft, g@, n);
                                    },
                                    _ => {},
                                }
                                lemma_member_insert_distinct(members(obj), entries@[m as int].0@, v@);
                                lemma_member_insert_values(members(obj), entries@[m as int].0@, v@);
                                assert(mapped.take(m + 1).drop_last() =~= mapped.take(m as int));
                                assert(mapped.take(m + 1).last() == (entries@[m as int].0@, v@));
                            }
                            object_insert(&mut obj, entries[m].0.clone(), v);
                        },
                        Err(e) => {
                            proof {
                                assert(items_failure(sh, its, m + 1) == Some(resolve(sh, its[m as int])->Err_0));
                                lemma_items_failure_stays(sh, its, m + 1, its.len() as int);
                                assert(records_failure(ft, i + 1) == items_failure(sh, its, its.len() as int));
                                lemma_records_failure_stays(ft, i + 1, len as int);
                            }
                            return Err(e);
                        },
                    }
                    m += 1;
                }
                assert(mapped.take(mapped.len() as int) =~= mapped);
                assert(containers_before(ft, i as int) == k);
                g.set_object(k, obj);
                assert(g@[k as int] == unflattened(ft)[k as int]);
                k += 1;
            },
            _ => {},
        }
        i += 1;
    }
    proof {
        lemma_nodes_upto(ft, len as int);
        assert(g@ =~= unflattened(ft));
    }
    let root = if len == 0 {
        Value::Null
    } else {
        input[0].clone()
    };
    proof {
        if len > 0 {
            lemma_shell_in(ft, g@, 0);
        }
    }
    Ok((g, root))
}

// ---- reviving ----

/// The same nodes, of the same kinds, with the same numbers of items and the
/// same keys in the same order.
pub open spec fn same_shape(a: Seq<NodeV>, b: Seq<NodeV>) -> bool {
    &&& a.len() == b.len()
    &&& forall|id: int| 0 <= id < a.len() ==> match (#[trigger] a[id], b[id]) {
        (NodeV::Array(p), NodeV::Array(q)) => p.len() == q.len(),
        (NodeV::Object(p), NodeV::Object(q)) => p.len() == q.len() && forall|i: int|
            0 <= i < p.len() ==> #[trigger] p[i].0 == q[i].0,
        _ => false,
    }
}

/// Node `a` of `g` holds a reference to node `b`.
pub open spec fn holds_node(g: Seq<NodeV>, a: nat, b: nat) -> bool {
    &&& a < g.len()
    &&& exists|m: int| 0 <= m < node_values(g[a as int]).len() && #[trigger] node_of(node_values(g[a as int])[m]) == Some(b)
}

/// Step `i` of the path `p` follows a reference.
pub open spec fn path_step(g: Seq<NodeV>, p: Seq<nat>, i: int) -> bool {
    holds_node(g, p[i], p[i + 1])
}

/// `p` is a path of references through `g`.
pub open spec fn node_path(g: Seq<NodeV>, p: Seq<nat>) -> bool {
    &&& p.len() > 0
    &&& forall|i: int| 0 <= i < p.len() - 1 ==> #[trigger] path_step(g, p, i)
}

/// Node `b` can be reached from node `a` by following references (every
/// node reaches itself).
pub open spec fn reaches(g: Seq<NodeV>, a: nat, b: nat) -> bool {
    exists|p: Seq<nat>| #[trigger] node_path(g, p) && p[0] == a && p.last() == b
}

/// The key a value held by a node is revived under: an item's index as
/// decimal text, a member's key.
pub open spec fn item_key(n: NodeV, m: int) -> Seq<char> {
    match n {
        NodeV::Array(_) => decimal(m as nat),
        NodeV::Object(es) => es[m].0,
    }
}

/// Every node reaches itself.
pub proof fn lemma_reaches_self(g: Seq<NodeV>, a: nat)
    ensures
        reaches(g, a, a),
{
    let p = seq![a];
    assert(node_path(g, p));
}

/// A reference followed by a path is a path.
pub proof fn lemma_reaches_prepend(g: Seq<NodeV>, a: nat, c: nat, n: nat)
    requires
        holds_node(g, a, c),
        reaches(g, c, n),
    ensures
        reaches(g, a, n),
{
    let p = choose|p: Seq<nat>| #[trigger] node_path(g, p) && p[0] == c && p.last() == n;
    let q = seq![a] + p;
    assert forall|i: int| 0 <= i < q.len() - 1 implies #[trigger] path_step(g, q, i) by {
        if i > 0 {
            assert(path_step(g, p, i - 1));
            assert(q[i] == p[i - 1] && q[i + 1] == p[i]);
        }
    }
    assert(node_path(g, q));
}

/// The reviver accepts every key and value.
pub open spec fn accepts_all<F: FnMut(String, Value) -> Value>(f: F) -> bool {
    forall|k: String, v: Value| call_requires(f, (k, v))
}

/// `now` is an answer of the reviver to `before` under key `k`.
pub open spec fn revived_as<F: FnMut(String, Value) -> Value>(f: F, k: Seq<char>, before: Val, now: Val) -> bool {
    exists|ks: String, w: Value, r: Value|
        #[trigger] call_ensures(f, (ks, w), r) && ks@ == k && w@ == before && r@ == now
}

/// Every value node `n` holds in `g` is the reviver's answer, under its index
/// or key, to the value the node held in `g0`.
pub open spec fn node_revived<F: FnMut(String, Value) -> Value>(f: F, g0: Seq<NodeV>, g: Seq<NodeV>, n: nat) -> bool {
    forall|m: int|
        0 <= m < node_values(g0[n as int]).len() ==> revived_as(
            f,
            item_key(g0[n as int], m),
            node_values(g0[n as int])[m],
            #[trigger] node_values(g[n as int])[m],
        )
}

/// Every array or object that node `n` holds in `g0` is marked in `vis`.
pub open spec fn children_marked(g0: Seq<NodeV>, vis: Seq<bool>, n: nat) -> bool {
    forall|m: int|
        0 <= m < node_values(g0[n as int]).len() ==> (node_of(#[trigger] node_values(g0[n as int])[m]) matches Some(c)
            ==> c < vis.len() && vis[c as int])
}

/// Marking more nodes leaves no more nodes unmarked.
proof fn lemma_off_path_mono(a: Seq<bool>, b: Seq<bool>)
    requires
        a.len() == b.len(),
        forall|i: int| 0 <= i < a.len() && a[i] ==> b[i],
    ensures
        off_path(b) <= off_path(a),
    decreases a.len(),
{
    if a.len() > 0 {
        lemma_off_path_mono(a.drop_last(), b.drop_last());
        assert(a.last() ==> b.last());
    }
}

/// Once the marked nodes hold every array or object they refer to, what a
/// marked node reaches is marked.
proof fn lemma_marked_closed(g0: Seq<NodeV>, vis: Seq<bool>, a: nat, n: nat)
    requires
        graph_wf(g0),
        vis.len() == g0.len(),
        a < g0.len(),
        vis[a as int],
        forall|k: int| 0 <= k < g0.len() && #[trigger] vis[k] ==> children_marked(g0, vis, k as nat),
        reaches(g0, a, n),
    ensures
        vis[n as int],
{
    let p = choose|p: Seq<nat>| #[trigger] node_path(g0, p) && p[0] == a && p.last() == n;
    lemma_marked_along(g0, vis, p, p.len() - 1);
}

/// Along a path from a marked node, in a graph whose marked nodes hold only
/// marked arrays and objects, every node is marked.
proof fn lemma_marked_along(g0: Seq<NodeV>, vis: Seq<bool>, p: Seq<nat>, i: int)
    requires
        graph_wf(g0),
        vis.len() == g0.len(),
        node_path(g0, p),
        p[0] < g0.len(),
        vis[p[0] as int],
        forall|k: int| 0 <= k < g0.len() && #[trigger] vis[k] ==> children_marked(g0, vis, k as nat),
        0 <= i < p.len(),
    ensures
        p[i] < g0.len(),
        vis[p[i] as int],
    decreases i,
{
    if i > 0 {
        lemma_marked_along(g0, vis, p, i - 1);
        assert(path_step(g0, p, i - 1));
        let u = p[i - 1];
        let m = choose|m: int| 0 <= m < node_values(g0[u as int]).len() && #[trigger] node_of(node_values(g0[u as int])[m]) == Some(p[i]);
        assert(children_marked(g0, vis, u));
        assert(node_of(node_values(g0[u as int])[m]) == Some(p[i]));
    }
}

/// The number of values node `id` holds.
fn slot_count(g: &Graph, id: usize, is_array: bool) -> (n: usize)
    requires
        id < g@.len(),
        (g@[id as int] is Array) == is_array,
    ensures
        n == node_values(g@[id as int]).len(),
{
    if is_array {
        g.array_len(id)
    } else {
        g.object_size(id)
    }
}

/// Value `i` of node `id`, with the key it is revived under.
fn slot_entry(g: &Graph, id: usize, i: usize, is_array: bool) -> (r: (String, Value))
    requires
        id < g@.len(),
        (g@[id as int] is Array) == is_array,
        i < node_values(g@[id as int]).len(),
    ensures
        r.0@ == item_key(g@[id as int], i as int),
        r.1@ == node_values(g@[id as int])[i as int],
{
    if is_array {
        (usize_decimal(i), g.array_item(id, i).clone())
    } else {
        let (k, v) = g.object_member(id, i);
        (k.clone(), v.clone())
    }
}

/// The values revived, as (node, position), when `v` is revived with the
/// nodes marked in `vis` already entered, and the marks after: an array or
/// object not yet marked is marked and entered, and the values it holds are
/// revived in their order, what each holds before the value itself. `fuel`
/// bounds the depth.
pub open spec fn revive_order(g: Seq<NodeV>, vis: Seq<bool>, v: Val, fuel: nat) -> (Seq<(nat, int)>, Seq<bool>)
    decreases fuel, 0nat,
{
    if node_of(v) is Some && node_of(v)->0 < vis.len() && !vis[node_of(v)->0 as int] && fuel > 0 {
        let id = node_of(v)->0;
        slots_order(g, vis.update(id as int, true), id, node_values(g[id as int]).len(), (fuel - 1) as nat)
    } else {
        (Seq::empty(), vis)
    }
}

/// The values revived when the first `m` values of node `id` are revived in
/// turn, and the marks after.
pub open spec fn slots_order(g: Seq<NodeV>, vis: Seq<bool>, id: nat, m: nat, fuel: nat) -> (Seq<(nat, int)>, Seq<bool>)
    decreases fuel, m + 1,
{
    if m == 0 || m > node_values(g[id as int]).len() {
        (Seq::empty(), vis)
    } else {
        let (a, v1) = slots_order(g, vis, id, (m - 1) as nat, fuel);
        let (b, v2) = revive_order(g, v1, node_values(g[id as int])[m - 1], fuel);
        (a + b.push((id, m - 1)), v2)
    }
}

/// One call of the reviver, for value `s.1` of node `s.0`: it was given the
/// value's key and the value it held in `g0`, and answered what the value
/// holds in `g`.
pub open spec fn logged<F: FnMut(String, Value) -> Value>(
    f: F,
    g0: Seq<NodeV>,
    g: Seq<NodeV>,
    s: (nat, int),
    e: (String, Value, Value),
) -> bool {
    &&& s.0 < g0.len()
    &&& 0 <= s.1 < node_values(g0[s.0 as int]).len()
    &&& call_ensures(f, (e.0, e.1), e.2)
    &&& e.0@ == item_key(g0[s.0 as int], s.1)
    &&& e.1@ == node_values(g0[s.0 as int])[s.1]
    &&& e.2@ == node_values(g[s.0 as int])[s.1]
}

/// `log` holds one call for each value of `ord`, in order, each of a node
/// marked in `vis` but not in `vis0`.
pub open spec fn log_ok<F: FnMut(String, Value) -> Value>(
    f: F,
    g0: Seq<NodeV>,
    g: Seq<NodeV>,
    vis: Seq<bool>,
    vis0: Seq<bool>,
    ord: Seq<(nat, int)>,
    log: Seq<(String, Value, Value)>,
) -> bool {
    &&& log.len() == ord.len()
    &&& forall|j: int|
        0 <= j < ord.len() ==> logged(f, g0, g, ord[j], #[trigger] log[j]) && vis[ord[j].0 as int] && !vis0[
            ord[j].0 as int
        ]
}

/// The log grows by a value's own calls and then its call.
proof fn lemma_log_step<F: FnMut(String, Value) -> Value>(
    f: F,
    g0: Seq<NodeV>,
    g1: Seq<NodeV>,
    g2: Seq<NodeV>,
    g3: Seq<NodeV>,
    vis_in: Seq<bool>,
    v1: Seq<bool>,
    v2: Seq<bool>,
    id: nat,
    i: int,
    ord: Seq<(nat, int)>,
    log: Seq<(String, Value, Value)>,
    cord: Seq<(nat, int)>,
    clog: Seq<(String, Value, Value)>,
    entry: (String, Value, Value),
)
    requires
        log_ok(f, g0, g1, v1, vis_in, ord, log),
        forall|j: int| 0 <= j < ord.len() && ord[j].0 == id ==> ord[j].1 < i,
        log_ok(f, g0, g2, v2, v1, cord, clog),
        vis_in.len() == g0.len(),
        v1.len() == g0.len(),
        v2.len() == g0.len(),
        g1.len() == g0.len(),
        g2.len() == g0.len(),
        g3.len() == g0.len(),
        id < g0.len(),
        v1[id as int],
        !vis_in[id as int],
        v2[id as int],
        forall|k: int| 0 <= k < g0.len() && vis_in[k] ==> #[trigger] v1[k],
        forall|k: int| 0 <= k < g0.len() && v1[k] ==> #[trigger] v2[k],
        forall|k: int| 0 <= k < g0.len() && #[trigger] v1[k] ==> g2[k] == g1[k],
        forall|k: int| 0 <= k < g0.len() && k != id ==> #[trigger] g3[k] == g2[k],
        forall|m: int| 0 <= m < node_values(g2[id as int]).len() && m != i ==> #[trigger] node_values(g3[id as int])[m] == node_values(g2[id as int])[m],
        node_values(g3[id as int]).len() == node_values(g2[id as int]).len(),
        node_values(g2[id as int]).len() == node_values(g0[id as int]).len(),
        logged(f, g0, g3, (id, i), entry),
    ensures
        log_ok(f, g0, g3, v2, vis_in, ord + cord.push((id, i)), (log + clog).push(entry)),
        forall|j: int| 0 <= j < (ord + cord.push((id, i))).len() && (ord + cord.push((id, i)))[j].0 == id ==> (ord + cord.push((id, i)))[j].1 < i + 1,
{
    let no = ord + cord.push((id, i));
    let nl = (log + clog).push(entry);
    assert forall|j: int| 0 <= j < no.len() implies logged(f, g0, g3, no[j], #[trigger] nl[j]) && v2[no[j].0 as int] && !vis_in[no[j].0 as int] by {
        if j < ord.len() {
            assert(no[j] == ord[j] && nl[j] == log[j]);
            assert(logged(f, g0, g1, ord[j], log[j]) && v1[ord[j].0 as int] && !vis_in[ord[j].0 as int]);
            let n = ord[j].0 as int;
            assert(v1[n]);
            assert(g2[n] == g1[n]);
            if n == id {
                assert(ord[j].1 < i);
                assert(node_values(g3[n])[ord[j].1] == node_values(g2[n])[ord[j].1]);
            } else {
                assert(g3[n] == g2[n]);
            }
            assert(v2[n]);
        } else if j < ord.len() + cord.len() {
            let q = j - ord.len();
            assert(no[j] == cord[q] && nl[j] == clog[q]);
            assert(logged(f, g0, g2, cord[q], clog[q]) && v2[cord[q].0 as int] && !v1[cord[q].0 as int]);
            let n = cord[q].0 as int;
            assert(0 <= n < g0.len());
            assert(!v1[n]);
            assert(n != id);
            assert(g3[n] == g2[n]);
            if vis_in[n] {
                assert(v1[n]);
            }
        } else {
            assert(no[j] == (id, i) && nl[j] == entry);
        }
    }
    assert forall|j: int| 0 <= j < no.len() && no[j].0 == id implies no[j].1 < i + 1 by {
        if j < ord.len() {
            assert(no[j] == ord[j]);
        } else if j < ord.len() + cord.len() {
            let q = j - ord.len();
            assert(no[j] == cord[q]);
            let e = clog[q];
            assert(logged(f, g0, g2, cord[q], e) && !v1[cord[q].0 as int]);
        }
    }
}

/// Unmarked nodes number at most the marks.
proof fn lemma_off_path_len(s: Seq<bool>)
    ensures
        off_path(s) <= s.len(),
    decreases s.len(),
{
    if s.len() > 0 {
        lemma_off_path_len(s.drop_last());
    }
}

/// Revives `value` under `key`, marking in `vis` the nodes it revives. An
/// array or object not yet marked is marked, then each value it holds is
/// revived in turn under its index or key and replaced by the answer; last,
/// the reviver answers for `value` itself. A marked node is not entered again,
/// so each value of each node is revived once, and cycles end.
fn apply_reviver<F: FnMut(String, Value) -> Value>(
    revive: &mut F,
    g: &mut Graph,
    vis: &mut Vec<bool>,
    key: String,
    value: Value,
    Ghost(g0): Ghost<Seq<NodeV>>,
    Ghost(fuel): Ghost<nat>,
) -> (res: (Value, Ghost<Seq<(String, Value, Value)>>))
    requires
        off_path(old(vis)@) <= fuel,
        graph_wf(g0),
        val_in(g0, value@),
        old(vis)@.len() == g0.len(),
        same_shape(g0, old(g)@),
        forall|n: int| 0 <= n < g0.len() && !old(vis)@[n] ==> #[trigger] old(g)@[n] == g0[n],
        accepts_all(*old(revive)),
    ensures
        final(vis)@.len() == g0.len(),
        same_shape(g0, final(g)@),
        forall|n: int| 0 <= n < g0.len() && #[trigger] old(vis)@[n] ==> final(vis)@[n] && final(g)@[n] == old(g)@[n],
        forall|n: int| 0 <= n < g0.len() && !final(vis)@[n] ==> #[trigger] final(g)@[n] == g0[n],
        forall|n: int|
            0 <= n < g0.len() && #[trigger] final(vis)@[n] && !old(vis)@[n] ==> node_revived(*old(revive), g0, final(g)@, n as nat)
                && children_marked(g0, final(vis)@, n as nat) && (node_of(value@) matches Some(v) && reaches(g0, v, n as nat)),
        node_of(value@) matches Some(v) ==> final(vis)@[v as int],
        *final(revive) == *old(revive),
        call_ensures(*old(revive), (key, value), res.0),
        final(vis)@ == revive_order(g0, old(vis)@, value@, fuel).1,
        res.1@.len() == revive_order(g0, old(vis)@, value@, fuel).0.len() + 1,
        log_ok(
            *old(revive),
            g0,
            final(g)@,
            final(vis)@,
            old(vis)@,
            revive_order(g0, old(vis)@, value@, fuel).0,
            res.1@.drop_last(),
        ),
        res.1@.last() == (key, value, res.0),
    decreases fuel,
{
    let ghost f = *revive;
    let ghost vis_in = vis@;
    let ghost gin = g@;
    let ghost mut log: Seq<(String, Value, Value)> = Seq::empty();
    let ghost kv = key;
    let ghost vv = value;
    let node = value.identity();
    if let Some(id) = node {
        if !vis[id] {
            let is_array = match &value {
                Value::Array(_) => true,
                _ => false,
            };
            proof {
                lemma_off_path_update(vis_in, id as int);
                assert(node_in(g0, g0[id as int]));
                assert(fuel > 0);
            }
            vis.set(id, true);
            let ghost vis1 = vis@;
            assert(slots_order(g0, vis1, id as nat, 0, (fuel - 1) as nat).0 =~= Seq::<(nat, int)>::empty());
            let n = slot_count(g, id, is_array);
            let mut i: usize = 0;
            while i < n
                invariant
                    graph_wf(g0),
                    node_in(g0, g0[id as int]),
                    value@ == (if is_array { Val::Array(id as nat) } else { Val::Object(id as nat) }),
                    id < g0.len(),
                    (g0[id as int] is Array) == is_array,
                    n == node_values(g0[id as int]).len(),
                    i <= n,
                    vis@.len() == g0.len(),
                    vis@[id as int],
                    !vis_in[id as int],
                    vis_in.len() == g0.len(),
                    vis1 == vis_in.update(id as int, true),
                    vis_in == old(vis)@,
                    gin.len() == g0.len(),
                    forall|k: int| 0 <= k < g0.len() && vis1[k] ==> #[trigger] vis@[k],
                    off_path(vis1) < off_path(vis_in),
                    same_shape(g0, g@),
                    forall|k: int| 0 <= k < g0.len() && #[trigger] vis_in[k] ==> g@[k] == gin[k],
                    forall|k: int| 0 <= k < g0.len() && !vis@[k] ==> #[trigger] g@[k] == g0[k],
                    forall|k: int|
                        0 <= k < g0.len() && #[trigger] vis@[k] && !vis_in[k] && k != id ==> node_revived(f, g0, g@, k as nat)
                            && children_marked(g0, vis@, k as nat) && reaches(g0, id as nat, k as nat),
                    forall|m: int| i <= m < n ==> #[trigger] node_values(g@[id as int])[m] == node_values(g0[id as int])[m],
                    forall|m: int|
                        0 <= m < i ==> revived_as(
                            f,
                            item_key(g0[id as int], m),
                            node_values(g0[id as int])[m],
                            #[trigger] node_values(g@[id as int])[m],
                        ),
                    forall|m: int|
                        0 <= m < i ==> (node_of(#[trigger] node_values(g0[id as int])[m]) matches Some(c) ==> c < vis@.len()
                            && vis@[c as int]),
                    *revive == f,
                    accepts_all(f),
                    fuel > 0,
                    off_path(vis_in) <= fuel,
                    slots_order(g0, vis1, id as nat, i as nat, (fuel - 1) as nat).1 == vis@,
                    log_ok(f, g0, g@, vis@, vis_in, slots_order(g0, vis1, id as nat, i as nat, (fuel - 1) as nat).0, log),
                    forall|j: int|
                        #![trigger slots_order(g0, vis1, id as nat, i as nat, (fuel - 1) as nat).0[j]]
                        0 <= j < slots_order(g0, vis1, id as nat, i as nat, (fuel - 1) as nat).0.len() && (slots_order(
                            g0,
                            vis1,
                            id as nat,
                            i as nat,
                            (fuel - 1) as nat,
                        ).0[j]).0 == id ==> (slots_order(g0, vis1, id as nat, i as nat, (fuel - 1) as nat).0[j]).1 < i,
                decreases n - i,
            {
                proof {
                    lemma_same_shape_kind(g0, g@, id as int);
                }
                let (k, child) = slot_entry(g, id, i, is_array);
                let ghost kg = k;
                let ghost cg = child;
                let ghost g1 = g@;
                let ghost v1 = vis@;
                proof {
                    assert(node_values(g@[id as int])[i as int] == node_values(g0[id as int])[i as int]);
                    assert(val_in(g0, node_values(g0[id as int])[i as int]));
                    assert(item_key(g@[id as int], i as int) == item_key(g0[id as int], i as int));
                    lemma_off_path_mono(vis1, v1);
                }
                let kc = k.clone();
                let ghost so_i = slots_order(g0, vis1, id as nat, i as nat, (fuel - 1) as nat).0;
                let (r, Ghost(clog)) = apply_reviver(revive, g, vis, kc, child, Ghost(g0), Ghost((fuel - 1) as nat));
                let ghost g2 = g@;
                let ghost v2 = vis@;
                let ghost cord = revive_order(g0, v1, cg@, (fuel - 1) as nat).0;
                proof {
                    assert(v1[id as int]);
                    assert(g2[id as int] == g1[id as int]);
                    assert(call_ensures(f, (kc, cg), r));
                    assert(kc@ == kg@);
                    lemma_same_shape_kind(g0, g2, id as int);
                    if !is_array {
                        let es0 = g0[id as int]->Object_0;
                        let es2 = g2[id as int]->Object_0;
                        assert forall|a: int, b: int| 0 <= a < b < es2.len() implies es2[a].0 != es2[b].0 by {
                            assert(es0[a].0 != es0[b].0);
                        }
                    }
                }
                g.set_slot(id, i, k, r);
                proof {
                    let g3 = g@;
                    lemma_same_shape_kind(g0, g3, id as int);
                    assert(same_shape(g0, g3)) by {
                        assert forall|x: int| 0 <= x < g0.len() implies match (#[trigger] g0[x], g3[x]) {
                            (NodeV::Array(p), NodeV::Array(q)) => p.len() == q.len(),
                            (NodeV::Object(p), NodeV::Object(q)) => p.len() == q.len() && forall|j: int|
                                0 <= j < p.len() ==> #[trigger] p[j].0 == q[j].0,
                            _ => false,
                        } by {
                            if x == id {
                                match (g0[x], g2[x]) {
                                    (NodeV::Object(p), NodeV::Object(q)) => {
                                        assert forall|j: int| 0 <= j < p.len() implies #[trigger] p[j].0 == g3[x]->Object_0[j].0 by {
                                            assert(p[j].0 == q[j].0);
                                        }
                                    },
                                    _ => {},
                                }
                            } else {
                                assert(g3[x] == g2[x]);
                            }
                        }
                    }
                    assert(node_values(g3[id as int]) =~= node_values(g2[id as int]).update(i as int, r@));
                    assert(revived_as(f, item_key(g0[id as int], i as int), node_values(g0[id as int])[i as int], r@));
                    assert forall|k2: int|
                        0 <= k2 < g0.len() && #[trigger] vis@[k2] && !vis_in[k2] && k2 != id implies node_revived(f, g0, g3, k2 as nat)
                            && children_marked(g0, vis@, k2 as nat) && reaches(g0, id as nat, k2 as nat) by {
                        assert(g3[k2] == g2[k2]);
                        if v1[k2] {
                            assert(g2[k2] == g1[k2]);
                            assert(node_revived(f, g0, g1, k2 as nat));
                            assert forall|m: int| 0 <= m < node_values(g0[k2]).len() implies (node_of(
                                #[trigger] node_values(g0[k2])[m],
                            ) matches Some(c) ==> c < vis@.len() && vis@[c as int]) by {
                                assert(children_marked(g0, v1, k2 as nat));
                                if let Some(c) = node_of(node_values(g0[k2])[m]) {
                                    assert(v1[c as int]);
                                }
                            }
                        } else {
                            let c = node_of(cg@)->0;
                            assert(node_of(cg@) is Some);
                            assert(reaches(g0, c, k2 as nat));
                            assert(node_of(node_values(g0[id as int])[i as int]) == Some(c));
                            assert(holds_node(g0, id as nat, c));
                            lemma_reaches_prepend(g0, id as nat, c, k2 as nat);
                        }
                    }
                    assert forall|m: int|
                        0 <= m < i + 1 implies (node_of(#[trigger] node_values(g0[id as int])[m]) matches Some(c) ==> c < vis@.len()
                            && vis@[c as int]) by {
                        if m < i {
                            if let Some(c) = node_of(node_values(g0[id as int])[m]) {
                                assert(v1[c as int]);
                            }
                        }
                    }
                    assert forall|m: int|
                        0 <= m < i + 1 implies revived_as(
                            f,
                            item_key(g0[id as int], m),
                            node_values(g0[id as int])[m],
                            #[trigger] node_values(g3[id as int])[m],
                        ) by {
                        if m < i {
                            assert(node_values(g3[id as int])[m] == node_values(g1[id as int])[m]);
                        }
                    }
                    assert forall|k2: int| 0 <= k2 < g0.len() && vis1[k2] implies #[trigger] vis@[k2] by {
                        assert(v1[k2]);
                    }
                    assert forall|k2: int| 0 <= k2 < g0.len() && #[trigger] vis_in[k2] implies g3[k2] == gin[k2] by {
                        assert(v1[k2]);
                        assert(g2[k2] == g1[k2]);
                    }
                    assert(clog.last() == (kc, cg, r));
                    assert(logged(f, g0, g3, (id as nat, i as int), clog.last()));
                    assert forall|k2: int| 0 <= k2 < g0.len() && vis_in[k2] implies #[trigger] v1[k2] by {
                        assert(vis1[k2]);
                    }
                    assert forall|k2: int| 0 <= k2 < g0.len() && #[trigger] v1[k2] implies g2[k2] == g1[k2] by {}
                    assert forall|m: int| 0 <= m < node_values(g2[id as int]).len() && m != i implies #[trigger] node_values(g3[id as int])[m] == node_values(g2[id as int])[m] by {}
                    lemma_log_step(
                        f, g0, g1, g2, g3, vis_in, v1, v2, id as nat, i as int, so_i, log, cord, clog.drop_last(), clog.last(),
                    );
                    assert((log + clog.drop_last()).push(clog.last()) =~= log + clog);
                    log = log + clog;
                    assert(slots_order(g0, vis1, id as nat, (i + 1) as nat, (fuel - 1) as nat) == (so_i + cord.push((id as nat, i as int)), v2));
                }
                i += 1;
            }
            proof {
                lemma_reaches_self(g0, id as nat);
                assert(revive_order(g0, vis_in, value@, fuel) == slots_order(g0, vis1, id as nat, n as nat, (fuel - 1) as nat));
            }
        }
    }
    let r = revive(key, value);
    proof {
        assert(log.push((kv, vv, r)).drop_last() =~= log);
        log = log.push((kv, vv, r));
    }
    (r, Ghost(log))
}

/// Nodes of the same shape are of the same kind.
proof fn lemma_same_shape_kind(a: Seq<NodeV>, b: Seq<NodeV>, id: int)
    requires
        same_shape(a, b),
        0 <= id < a.len(),
    ensures
        (a[id] is Array) == (b[id] is Array),
        node_values(a[id]).len() == node_values(b[id]).len(),
        forall|m: int| 0 <= m < node_values(a[id]).len() ==> #[trigger] item_key(b[id], m) == item_key(a[id], m),
{
    match (a[id], b[id]) {
        (NodeV::Object(p), NodeV::Object(q)) => {
            assert forall|m: int| 0 <= m < node_values(a[id]).len() implies #[trigger] item_key(b[id], m) == item_key(a[id], m) by {
                assert(p[m].0 == q[m].0);
            }
        },
        _ => {},
    }
}

/// Whether node `n` of the graph read from `flat` can be reached from its root.
pub open spec fn reached(flat: Seq<JsonTree>, n: nat) -> bool {
    node_of(root_of(flat)) matches Some(rid) && reaches(unflattened(flat), rid, n)
}


/// What reading the flatted array `doc` gives, without a reviver: the graph
/// and root it describes, the first bad index, or that it is not an array.
pub open spec fn parsed(doc: JsonTree, r: Result<(Graph, Value), Error>) -> bool {
    match doc {
        JsonTree::Array(flat) => match records_failure(flat, flat.len() as int) {
            Some(m) => r matches Err(Error::InvalidIndex(s)) && s@ == m,
            None => r matches Ok((g, v)) && g.wf() && g@ == unflattened(flat) && v@ == root_of(flat) && val_in(g@, v@),
        },
        _ => r matches Err(Error::ExpectedArray),
    }
}

/// What reading the flatted array `flat` with the reviver `f` gives when
/// every index is good: the graph of `flat` in which each value of each node
/// the root reaches is the reviver's answer to it under its index or key,
/// every other node as it was, and as root the reviver's answer for the root
/// under the empty key.
pub open spec fn revived_graph<F: FnMut(String, Value) -> Value>(f: F, flat: Seq<JsonTree>, g: Seq<NodeV>, v: Value) -> bool {
    let u = unflattened(flat);
    &&& same_shape(u, g)
    &&& forall|n: int|
        #![trigger g[n]]
        0 <= n < u.len() ==> if reached(flat, n as nat) {
            node_revived(f, u, g, n as nat)
        } else {
            g[n] == u[n]
        }
    &&& exists|k: String, w: Value|
        #[trigger] call_ensures(f, (k, w), v) && k@ == Seq::<char>::empty() && w@ == root_of(flat)
    &&& exists|log: Seq<(String, Value, Value)>| #[trigger] calls_logged(f, flat, g, v, log)
}

/// `log` lists the reviver's calls in the order `revive_order` gives from the
/// root, with no node marked at first: one call for each value of each node
/// entered, what a value holds revived before the value itself, the values of
/// a node in their order; and last the call for the root under the empty key.
/// Each call was given the value's key and the value it held, and answered
/// what the value now holds.
pub open spec fn calls_logged<F: FnMut(String, Value) -> Value>(
    f: F,
    flat: Seq<JsonTree>,
    g: Seq<NodeV>,
    v: Value,
    log: Seq<(String, Value, Value)>,
) -> bool {
    let u = unflattened(flat);
    let ord = revive_order(u, Seq::new(u.len(), |i: int| false), root_of(flat), u.len()).0;
    &&& log.len() == ord.len() + 1
    &&& forall|j: int| 0 <= j < ord.len() ==> logged(f, u, g, ord[j], #[trigger] log[j])
    &&& call_ensures(f, (log.last().0, log.last().1), log.last().2)
    &&& log.last().0@ == Seq::<char>::empty()
    &&& log.last().1@ == root_of(flat)
    &&& log.last().2 == v
}

/// What `parse` gives for the flatted array `doc`: without a reviver, what
/// `parsed` says; with one, the first bad index, or that the document is not
/// an array, or else the revived graph and root.
pub open spec fn parse_result<F: FnMut(String, Value) -> Value>(
    doc: JsonTree,
    reviver: Option<F>,
    r: Result<(Graph, Value), Error>,
) -> bool {
    match reviver {
        None => parsed(doc, r),
        Some(f) => match doc {
            JsonTree::Array(flat) => match records_failure(flat, flat.len() as int) {
                Some(m) => r matches Err(Error::InvalidIndex(s)) && s@ == m,
                None => r matches Ok((g, v)) && revived_graph(f, flat, g@, v) && (answers_in(f, unflattened(flat))
                    ==> g.wf()),
            },
            _ => r matches Err(Error::ExpectedArray),
        },
    }
}

/// Every answer of the reviver is a primitive or a string, or an array or
/// object of `g`.
pub open spec fn answers_in<F: FnMut(String, Value) -> Value>(f: F, g: Seq<NodeV>) -> bool {
    forall|k: String, w: Value, a: Value| #[trigger] call_ensures(f, (k, w), a) ==> val_in(g, a@)
}

/// A revived graph is well formed when every answer lies in the graph read.
proof fn lemma_revived_wf<F: FnMut(String, Value) -> Value>(f: F, flat: Seq<JsonTree>, g: Seq<NodeV>)
    requires
        graph_wf(unflattened(flat)),
        answers_in(f, unflattened(flat)),
        same_shape(unflattened(flat), g),
        forall|n: int|
            #![trigger g[n]]
            0 <= n < unflattened(flat).len() ==> if reached(flat, n as nat) {
                node_revived(f, unflattened(flat), g, n as nat)
            } else {
                g[n] == unflattened(flat)[n]
            },
    ensures
        graph_wf(g),
{
    let u = unflattened(flat);
    assert forall|x: Val| val_in(u, x) implies val_in(g, x) by {
        match x {
            Val::Array(id) => lemma_same_shape_kind(u, g, id as int),
            Val::Object(id) => lemma_same_shape_kind(u, g, id as int),
            _ => {},
        }
    }
    assert forall|n: int| 0 <= n < g.len() implies node_in(g, #[trigger] g[n]) by {
        assert(node_in(u, u[n]));
        lemma_same_shape_kind(u, g, n);
        assert forall|m: int| 0 <= m < node_values(g[n]).len() implies val_in(g, #[trigger] node_values(g[n])[m]) by {
            if reached(flat, n as nat) {
                assert(node_revived(f, u, g, n as nat));
                assert(revived_as(f, item_key(u[n], m), node_values(u[n])[m], node_values(g[n])[m]));
                let (ks, w, a) = choose|ks: String, w: Value, a: Value|
                    #[trigger] call_ensures(f, (ks, w), a) && ks@ == item_key(u[n], m) && w@ == node_values(u[n])[m]
                        && a@ == node_values(g[n])[m];
                assert(val_in(u, a@));
            } else {
                assert(g[n] == u[n]);
                match u[n] {
                    NodeV::Array(items) => assert(val_in(u, items[m])),
                    NodeV::Object(es) => assert(val_in(u, es[m].1)),
                }
            }
        }
        match (u[n], g[n]) {
            (NodeV::Array(p), NodeV::Array(q)) => {
                assert forall|i: int| 0 <= i < q.len() implies val_in(g, #[trigger] q[i]) by {
                    assert(node_values(g[n])[i] == q[i]);
                }
            },
            (NodeV::Object(p), NodeV::Object(q)) => {
                assert forall|i: int, j: int| 0 <= i < j < q.len() implies q[i].0 != q[j].0 by {
                    assert(p[i].0 != p[j].0);
                }
                assert forall|i: int| 0 <= i < q.len() implies val_in(g, #[trigger] q[i].1) by {
                    assert(node_values(g[n])[i] == q[i].1);
                }
            },
            _ => {},
        }
    }
}

/// Converts a flatted array, given as a JSON value, back into a value graph.
///
/// `reviver`, when set, is called as `reviver(key, value)` for each item and
/// member, innermost first, and last for the root with key `""`, as
/// `JSON.parse` does; each answer replaces the value it was given. Each array
/// and object is entered once, so a value shared by several places or lying on
/// a cycle has its own items and members revived once; in the result each
/// value of each node the root reaches is the reviver's answer to the value it
/// held, under its index or key, and what the root does not reach is as the
/// flatted array describes it.
pub fn parse<F: FnMut(String, Value) -> Value>(doc: &Json, reviver: Option<F>) -> (r: Result<(Graph, Value), Error>)
    requires
        reviver matches Some(f) ==> accepts_all(f),
    ensures
        parse_result(doc@, reviver, r),
{
    let (mut g, root) = match unflatten(doc) {
        Ok(p) => p,
        Err(e) => {
            return Err(e);
        },
    };
    match reviver {
        None => Ok((g, root)),
        Some(mut revive) => {
            let ghost flat = doc@->Array_0;
            let ghost g0 = g@;
            let count = g.node_count();
            let mut vis: Vec<bool> = Vec::new();
            while vis.len() < count
                invariant
                    vis.len() <= count,
                    count == g0.len(),
                    forall|k: int| 0 <= k < vis.len() ==> !vis@[k],
                decreases count - vis.len(),
            {
                vis.push(false);
            }
            let ghost vis0 = vis@;
            let ghost f = revive;
            assert(same_shape(g0, g0));
            let key = String::new();
            let ghost k = key;
            let ghost root_v = root;
            proof {
                lemma_off_path_len(vis0);
                assert(vis0 =~= Seq::new(g0.len(), |i: int| false));
            }
            let (v, Ghost(log)) = apply_reviver(&mut revive, &mut g, &mut vis, key, root, Ghost(g0), Ghost(g0.len() as nat));
            proof {
                assert(calls_logged(f, flat, g@, v, log)) by {
                    let ord = revive_order(g0, vis0, root_v@, g0.len() as nat).0;
                    assert forall|j: int| 0 <= j < ord.len() implies logged(f, g0, g@, ord[j], #[trigger] log[j]) by {
                        assert(log.drop_last()[j] == log[j]);
                    }
                }
                assert(call_ensures(f, (k, root_v), v));
                assert forall|n: int| 0 <= n < g0.len() implies if reached(flat, n as nat) {
                    node_revived(f, g0, g@, n as nat)
                } else {
                    #[trigger] g@[n] == g0[n]
                } by {
                    if reached(flat, n as nat) {
                        let rid = node_of(root_v@)->0;
                        assert forall|x: int| 0 <= x < g0.len() && #[trigger] vis@[x] implies children_marked(g0, vis@, x as nat) by {
                            assert(!vis0[x]);
                        }
                        lemma_marked_closed(g0, vis@, rid, n as nat);
                        assert(!vis0[n]);
                    } else if vis@[n] {
                        assert(!vis0[n]);
                    }
                }
                if answers_in(f, g0) {
                    lemma_revived_wf(f, flat, g@);
                }
            }
            Ok((g, v))
        },
    }
}

/// Reads flatted text back into a value graph: text that is not JSON is
/// refused with the JSON error; otherwise as `parse` on the JSON value read.
pub fn parse_text<F: FnMut(String, Value) -> Value>(text: &str, reviver: Option<F>) -> (r: Result<(Graph, Value), Error>)
    requires
        reviver matches Some(f) ==> accepts_all(f),
    ensures
        json_of_text(text@) is None ==> r matches Err(Error::Json(_)),
        json_of_text(text@) matches Some(t) ==> parse_result(t, reviver, r),
{
    match read_json(text) {
        Ok(doc) => parse(&doc, reviver),
        Err(e) => Err(Error::Json(e)),
    }
}

/// Converts a flatted array, given as a JSON value, back into a value graph,
/// without a reviver.
pub fn parse_simple(doc: &Json) -> (r: Result<(Graph, Value), Error>)
    ensures
        parsed(doc@, r),
{
    unflatten(doc)
}

/// Converts a previously flattened JSON array back into a value graph: the
/// value is written as compact JSON text and that text is read back, as
/// `parse_simple` on text would read it.
pub fn from_json(value: &Json) -> (r: Result<(Graph, Value), Error>)
    ensures
        json_of_text(compact(value@)) is None ==> r matches Err(Error::Json(_)),
        json_of_text(compact(value@)) matches Some(t) ==> parsed(t, r),
{
    let mut text = String::new();
    match write_compact(value, &mut text) {
        Ok(()) => {},
        Err(e) => {
            return Err(Error::Json(e));
        },
    }
    assert(text@ =~= compact(value@));
    match read_json(text.as_str()) {
        Ok(doc) => parse_simple(&doc),
        Err(e) => Err(Error::Json(e)),
    }
}

} // verus!
