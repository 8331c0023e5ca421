//! Values and the graph of arrays and objects they point into.
//!
//! Arrays and objects live in a `Graph`; a `Value` refers to one of them by
//! its node number, so several values may share a node and a node may refer
//! back to itself. Two values are the same array or object exactly when they
//! carry the same node number.
use vstd::prelude::*;
use indexmap::IndexMap;
use crate::json::Number;
use crate::object::{
    members, keys_distinct, has_key, key_position, member_insert, object_new, object_len,
    object_get_index, object_get, object_insert, lemma_member_insert_distinct,
};

verus! {

/// JSON-compatible value; arrays and objects are nodes of a `Graph`.
#[derive(Debug)]
pub enum Value {
    Null,
    Bool(bool),
    Number(Number),
    String(String),
    Array(usize),
    Object(usize),
}

/// The mathematical form of a value.
pub ghost enum Val {
    Null,
    Bool(bool),
    Number(Seq<char>),
    Str(Seq<char>),
    Array(nat),
    Object(nat),
}

impl View for Value {
    type V = Val;

    open spec fn view(&self) -> Val {
        match self {
            Value::Null => Val::Null,
            Value::Bool(b) => Val::Bool(*b),
            Value::Number(n) => Val::Number(n@),
            Value::String(s) => Val::Str(s@),
            Value::Array(id) => Val::Array(*id as nat),
            Value::Object(id) => Val::Object(*id as nat),
        }
    }
}

impl Clone for Value {
    fn clone(&self) -> (r: Value)
        ensures
            r@ == self@,
    {
        match self {
            Value::Null => Value::Null,
            Value::Bool(b) => Value::Bool(*b),
            Value::Number(n) => Value::Number(n.copy()),
            Value::String(s) => Value::String(s.clone()),
            Value::Array(id) => Value::Array(*id),
            Value::Object(id) => Value::Object(*id),
        }
    }
}

impl PartialEq for Value {
    /// Primitives compare by content, arrays and objects by identity.
    fn eq(&self, other: &Value) -> (r: bool) {
        match (self, other) {
            (Value::Null, Value::Null) => true,
            (Value::Bool(a), Value::Bool(b)) => *a == *b,
            (Value::Number(a), Value::Number(b)) => a.text == b.text,
            (Value::String(a), Value::String(b)) => *a == *b,
            (Value::Array(a), Value::Array(b)) => *a == *b,
            (Value::Object(a), Value::Object(b)) => *a == *b,
            _ => false,
        }
    }
}

impl vstd::std_specs::cmp::PartialEqSpecImpl for Value {
    open spec fn obeys_eq_spec() -> bool {
        true
    }

    open spec fn eq_spec(&self, other: &Value) -> bool {
        self@ == other@
    }
}

impl From<()> for Value {
    fn from(v: ()) -> (r: Value) {
        Value::Null
    }
}

impl vstd::std_specs::convert::FromSpecImpl<()> for Value {
    open spec fn obeys_from_spec() -> bool {
        true
    }

    open spec fn from_spec(v: ()) -> Value {
        Value::Null
    }
}

impl From<bool> for Value {
    fn from(b: bool) -> (r: Value) {
        Value::Bool(b)
    }
}

impl vstd::std_specs::convert::FromSpecImpl<bool> for Value {
    open spec fn obeys_from_spec() -> bool {
        true
    }

    open spec fn from_spec(b: bool) -> Value {
        Value::Bool(b)
    }
}

impl From<String> for Value {
    fn from(s: String) -> (r: Value) {
        Value::String(s)
    }
}

impl vstd::std_specs::convert::FromSpecImpl<String> for Value {
    open spec fn obeys_from_spec() -> bool {
        true
    }

    open spec fn from_spec(s: String) -> Value {
        Value::String(s)
    }
}

impl Value {
    /// The value of an integer.
    pub fn from_i64(n: i64) -> (r: Value)
        ensures
            r@ == Val::Number(crate::json::int_text(n as int)),
    {
        Value::Number(Number::from_i64(n))
    }

    /// The value of an unsigned integer.
    pub fn from_u64(n: u64) -> (r: Value)
        ensures
            r@ == Val::Number(crate::json::int_text(n as int)),
    {
        Value::Number(Number::from_u64(n))
    }

    /// The value of a string slice.
    pub fn from_str(s: &str) -> (r: Value)
        ensures
            r@ == Val::Str(s@),
    {
        Value::String(s.to_owned())
    }

    /// Returns `true` when both values refer to the same array or object.
    pub fn ptr_eq(&self, other: &Value) -> (r: bool)
        ensures
            r == (match (self@, other@) {
                (Val::Array(a), Val::Array(b)) => a == b,
                (Val::Object(a), Val::Object(b)) => a == b,
                _ => false,
            }),
    {
        match (self, other) {
            (Value::Array(a), Value::Array(b)) => *a == *b,
            (Value::Object(a), Value::Object(b)) => *a == *b,
            _ => false,
        }
    }

    /// The node of the array this value is, if it is an array.
    pub fn as_array(&self) -> (r: Option<usize>)
        ensures
            match self@ {
                Val::Array(id) => r == Some(id as usize),
                _ => r is None,
            },
    {
        match self {
            Value::Array(a) => Some(*a),
            _ => None,
        }
    }

    /// The node of the object this value is, if it is an object.
    pub fn as_object(&self) -> (r: Option<usize>)
        ensures
            match self@ {
                Val::Object(id) => r == Some(id as usize),
                _ => r is None,
            },
    {
        match self {
            Value::Object(o) => Some(*o),
            _ => None,
        }
    }

    /// The node this value shares, if it is an array or an object.
    pub fn identity(&self) -> (r: Option<usize>)
        ensures
            match node_of(self@) {
                Some(id) => r == Some(id as usize),
                None => r is None,
            },
    {
        match self {
            Value::Array(a) => Some(*a),
            Value::Object(o) => Some(*o),
            _ => None,
        }
    }

    /// Creates an empty array.
    pub fn empty_array(g: &mut Graph) -> (v: Value)
        requires
            old(g).wf(),
            old(g)@.len() < usize::MAX,
        ensures
            final(g).wf(),
            final(g)@ == old(g)@.push(NodeV::Array(Seq::empty())),
            v@ == Val::Array(old(g)@.len()),
    {
        let items: Vec<Value> = Vec::new();
        assert(items@.map_values(|v: Value| v@) =~= Seq::<Val>::empty());
        g.add_array(items)
    }

    /// Creates an empty object.
    pub fn empty_object(g: &mut Graph) -> (v: Value)
        requires
            old(g).wf(),
            old(g)@.len() < usize::MAX,
        ensures
            final(g).wf(),
            final(g)@ == old(g)@.push(NodeV::Object(Seq::empty())),
            v@ == Val::Object(old(g)@.len()),
    {
        g.add_object(object_new())
    }
}

/// The mathematical form of a list of key-value entries.
pub open spec fn entries_view(es: Seq<(String, Value)>) -> Seq<(Seq<char>, Val)> {
    es.map_values(|e: (String, Value)| (e.0@, e.1@))
}

/// The members of a map into which the entries `es` were inserted in order.
pub open spec fn inserted_all(es: Seq<(Seq<char>, Val)>) -> Seq<(Seq<char>, Val)>
    decreases es.len(),
{
    if es.len() == 0 {
        Seq::empty()
    } else {
        member_insert(inserted_all(es.drop_last()), es.last().0, es.last().1)
    }
}

/// Every value of `member_insert(es, k, v)` is `v` or a value of `es`.
pub proof fn lemma_member_insert_values(es: Seq<(Seq<char>, Val)>, k: Seq<char>, v: Val)
    ensures
        forall|i: int| 0 <= i < member_insert(es, k, v).len() ==> {
            ||| #[trigger] member_insert(es, k, v)[i].1 == v
            ||| (i < es.len() && member_insert(es, k, v)[i].1 == es[i].1)
        },
{
}

/// The node a value refers to, if it is an array or an object.
pub open spec fn node_of(v: Val) -> Option<nat> {
    match v {
        Val::Array(id) => Some(id),
        Val::Object(id) => Some(id),
        _ => None,
    }
}

/// An array or an object, as stored in a graph.
enum Node {
    Array(Vec<Value>),
    Object(IndexMap<String, Value>),
}

/// The mathematical form of a node: an array's items or an object's members.
pub ghost enum NodeV {
    Array(Seq<Val>),
    Object(Seq<(Seq<char>, Val)>),
}

/// The mathematical form of a node.
spec fn node_view(n: Node) -> NodeV {
    match n {
        Node::Array(items) => NodeV::Array(items@.map_values(|v: Value| v@)),
        Node::Object(m) => NodeV::Object(members(m)),
    }
}

/// Every array and object of a value graph.
pub struct Graph {
    nodes: Vec<Node>,
}

impl View for Graph {
    type V = Seq<NodeV>;

    closed spec fn view(&self) -> Seq<NodeV> {
        self.nodes@.map_values(|n: Node| node_view(n))
    }
}

/// `v` is a primitive, or an array or object node of `g` of its own kind.
pub open spec fn val_in(g: Seq<NodeV>, v: Val) -> bool {
    match v {
        Val::Array(id) => id < g.len() && g[id as int] is Array,
        Val::Object(id) => id < g.len() && g[id as int] is Object,
        _ => true,
    }
}

/// The values a node holds.
pub open spec fn node_values(n: NodeV) -> Seq<Val> {
    match n {
        NodeV::Array(items) => items,
        NodeV::Object(es) => es.map_values(|e: (Seq<char>, Val)| e.1),
    }
}

/// Node `n` with its value at position `m` replaced by `v`; an object member
/// keeps its key.
pub open spec fn replace_slot(n: NodeV, m: int, v: Val) -> NodeV {
    match n {
        NodeV::Array(items) => NodeV::Array(items.update(m, v)),
        NodeV::Object(es) => NodeV::Object(es.update(m, (es[m].0, v))),
    }
}

/// A node whose values all lie in `g` and whose keys are distinct.
pub open spec fn node_in(g: Seq<NodeV>, n: NodeV) -> bool {
    match n {
        NodeV::Array(items) => forall|i: int| 0 <= i < items.len() ==> val_in(g, #[trigger] items[i]),
        NodeV::Object(es) => keys_distinct(es) && forall|i: int|
            0 <= i < es.len() ==> val_in(g, #[trigger] es[i].1),
    }
}

/// Every node of `g` refers only to nodes of `g`, each of the kind the
/// reference says, and no object repeats a key.
pub open spec fn graph_wf(g: Seq<NodeV>) -> bool {
    forall|id: int| 0 <= id < g.len() ==> node_in(g, #[trigger] g[id])
}

impl Graph {
    /// The graph is well formed.
    pub open spec fn wf(&self) -> bool {
        graph_wf(self@)
    }

    /// An empty graph.
    pub fn new() -> (g: Graph)
        ensures
            g.wf(),
            g@ == Seq::<NodeV>::empty(),
    {
        let g = Graph { nodes: Vec::new() };
        assert(g@ =~= Seq::<NodeV>::empty());
        g
    }

    /// The number of nodes.
    pub fn node_count(&self) -> (n: usize)
        ensures
            n == self@.len(),
    {
        self.nodes.len()
    }

    proof fn lemma_push(&self, n: Node, h: Seq<NodeV>)
        requires
            self.wf(),
            h == self@.push(node_view(n)),
            node_in(h, node_view(n)),
        ensures
            graph_wf(h),
    {
        assert forall|id: int| 0 <= id < h.len() implies node_in(h, #[trigger] h[id]) by {
            if id < self@.len() {
                let m = self@[id];
                assert(h[id] == m);
                assert(node_in(self@, m));
                match m {
                    NodeV::Array(items) => {
                        assert forall|i: int| 0 <= i < items.len() implies val_in(h, #[trigger] items[i]) by {
                            assert(val_in(self@, items[i]));
                        }
                    },
                    NodeV::Object(es) => {
                        assert forall|i: int| 0 <= i < es.len() implies val_in(h, #[trigger] es[i].1) by {
                            assert(val_in(self@, es[i].1));
                        }
                    },
                }
            }
        }
    }

    /// Adds an array node holding `items`.
    pub fn add_array(&mut self, items: Vec<Value>) -> (v: Value)
        requires
            old(self).wf(),
            old(self)@.len() < usize::MAX,
            forall|i: int| 0 <= i < items.len() ==> val_in(old(self)@, #[trigger] items@[i]@),
        ensures
            final(self).wf(),
            final(self)@ == old(self)@.push(NodeV::Array(items@.map_values(|v: Value| v@))),
            v@ == Val::Array(old(self)@.len()),
    {
        let id = self.nodes.len();
        let ghost n = Node::Array(items);
        let ghost h = self@.push(node_view(n));
        proof {
            let iv = items@.map_values(|v: Value| v@);
            assert forall|i: int| 0 <= i < iv.len() implies val_in(h, #[trigger] iv[i]) by {
                assert(val_in(self@, items@[i]@));
            }
            self.lemma_push(n, h);
        }
        self.nodes.push(Node::Array(items));
        assert(self@ =~= h);
        Value::Array(id)
    }

    /// Adds an object node holding the members of `m`.
    pub(crate) fn add_object(&mut self, m: IndexMap<String, Value>) -> (v: Value)
        requires
            old(self).wf(),
            old(self)@.len() < usize::MAX,
            keys_distinct(members(m)),
            forall|i: int| 0 <= i < members(m).len() ==> val_in(old(self)@, #[trigger] members(m)[i].1),
        ensures
            final(self).wf(),
            final(self)@ == old(self)@.push(NodeV::Object(members(m))),
            v@ == Val::Object(old(self)@.len()),
    {
        let id = self.nodes.len();
        let ghost n = Node::Object(m);
        let ghost h = self@.push(node_view(n));
        proof {
            let es = members(m);
            assert forall|i: int| 0 <= i < es.len() implies val_in(h, #[trigger] es[i].1) by {
                assert(val_in(self@, es[i].1));
            }
            self.lemma_push(n, h);
        }
        self.nodes.push(Node::Object(m));
        assert(self@ =~= h);
        Value::Object(id)
    }

    /// Creates an array holding `items`.
    pub fn array(&mut self, items: Vec<Value>) -> (v: Value)
        requires
            old(self).wf(),
            old(self)@.len() < usize::MAX,
            forall|i: int| 0 <= i < items.len() ==> val_in(old(self)@, #[trigger] items@[i]@),
        ensures
            final(self).wf(),
            final(self)@ == old(self)@.push(NodeV::Array(items@.map_values(|v: Value| v@))),
            v@ == Val::Array(old(self)@.len()),
    {
        self.add_array(items)
    }

    /// Creates an object holding `entries`, inserted in order: a repeated key
    /// keeps its first place and its last value.
    pub fn object(&mut self, entries: Vec<(String, Value)>) -> (v: Value)
        requires
            old(self).wf(),
            old(self)@.len() < usize::MAX,
            forall|i: int| 0 <= i < entries.len() ==> val_in(old(self)@, (#[trigger] entries@[i]).1@),
        ensures
            final(self).wf(),
            final(self)@ == old(self)@.push(NodeV::Object(inserted_all(entries_view(entries@)))),
            v@ == Val::Object(old(self)@.len()),
    {
        let mut m = object_new();
        let ghost ev = entries_view(entries@);
        let n = entries.len();
        let mut i: usize = 0;
        assert(inserted_all(ev.take(0)) =~= members(m));
        while i < n
            invariant
                i <= n,
                n == entries.len(),
                ev == entries_view(entries@),
                members(m) == inserted_all(ev.take(i as int)),
                keys_distinct(members(m)),
                forall|k: int| 0 <= k < members(m).len() ==> val_in(old(self)@, #[trigger] members(m)[k].1),
                forall|k: int| 0 <= k < n ==> val_in(old(self)@, (#[trigger] entries@[k]).1@),
                self@ == old(self)@,
                self.wf(),
            decreases n - i,
        {
            let key = entries[i].0.clone();
            let value = entries[i].1.clone();
            assert(val_in(old(self)@, entries@[i as int].1@));
            proof {
                lemma_member_insert_distinct(members(m), key@, value@);
                lemma_member_insert_values(members(m), key@, value@);
            }
            object_insert(&mut m, key, value);
            i += 1;
            assert(ev.take(i as int).drop_last() =~= ev.take(i - 1));
        }
        assert(ev.take(n as int) =~= ev);
        self.add_object(m)
    }
}

impl Graph {
    /// The number of items of array node `id`.
    pub fn array_len(&self, id: usize) -> (n: usize)
        requires
            id < self@.len(),
            self@[id as int] is Array,
        ensures
            n == self@[id as int]->Array_0.len(),
    {
        match &self.nodes[id] {
            Node::Array(items) => items.len(),
            Node::Object(_) => vstd::pervasive::unreached(),
        }
    }

    /// Item `i` of array node `id`.
    pub fn array_item(&self, id: usize, i: usize) -> (v: &Value)
        requires
            id < self@.len(),
            self@[id as int] is Array,
            i < self@[id as int]->Array_0.len(),
        ensures
            v@ == self@[id as int]->Array_0[i as int],
    {
        match &self.nodes[id] {
            Node::Array(items) => &items[i],
            Node::Object(_) => vstd::pervasive::unreached(),
        }
    }

    /// The number of members of object node `id`.
    pub fn object_size(&self, id: usize) -> (n: usize)
        requires
            id < self@.len(),
            self@[id as int] is Object,
        ensures
            n == self@[id as int]->Object_0.len(),
    {
        match &self.nodes[id] {
            Node::Object(m) => object_len(m),
            Node::Array(_) => vstd::pervasive::unreached(),
        }
    }

    /// Member `i` of object node `id`: its key and its value.
    pub fn object_member(&self, id: usize, i: usize) -> (r: (&String, &Value))
        requires
            id < self@.len(),
            self@[id as int] is Object,
            i < self@[id as int]->Object_0.len(),
        ensures
            (r.0@, r.1@) == self@[id as int]->Object_0[i as int],
    {
        match &self.nodes[id] {
            Node::Object(m) => match object_get_index(m, i) {
                Some(p) => p,
                None => vstd::pervasive::unreached(),
            },
            Node::Array(_) => vstd::pervasive::unreached(),
        }
    }

    /// The number of items of an array or members of an object; `None` for
    /// other values.
    pub fn len(&self, container: &Value) -> (r: Option<usize>)
        requires
            self.wf(),
            val_in(self@, container@),
        ensures
            match container@ {
                Val::Array(id) => r == Some(self@[id as int]->Array_0.len() as usize),
                Val::Object(id) => r == Some(self@[id as int]->Object_0.len() as usize),
                _ => r is None,
            },
    {
        match container {
            Value::Array(id) => Some(self.array_len(*id)),
            Value::Object(id) => Some(self.object_size(*id)),
            _ => None,
        }
    }

    /// Item `i` of an array; `None` when `i` is past its end or the value is
    /// not an array.
    pub fn get(&self, array: &Value, i: usize) -> (r: Option<Value>)
        requires
            self.wf(),
            val_in(self@, array@),
        ensures
            match array@ {
                Val::Array(id) => if i < self@[id as int]->Array_0.len() {
                    r is Some && r->0@ == self@[id as int]->Array_0[i as int]
                } else {
                    r is None
                },
                _ => r is None,
            },
    {
        match array {
            Value::Array(id) => {
                if i < self.array_len(*id) {
                    Some(self.array_item(*id, i).clone())
                } else {
                    None
                }
            },
            _ => None,
        }
    }

    /// The value under `key` in an object; `None` when the key is absent or
    /// the value is not an object.
    pub fn get_key(&self, object: &Value, key: &str) -> (r: Option<Value>)
        requires
            self.wf(),
            val_in(self@, object@),
        ensures
            match object@ {
                Val::Object(id) => if has_key(self@[id as int]->Object_0, key@) {
                    r is Some && r->0@ == self@[id as int]->Object_0[key_position(
                        self@[id as int]->Object_0,
                        key@,
                    )].1
                } else {
                    r is None
                },
                _ => r is None,
            },
    {
        match object {
            Value::Object(id) => {
                match &self.nodes[*id] {
                    Node::Object(m) => match object_get(m, key) {
                        Some(v) => Some(v.clone()),
                        None => None,
                    },
                    Node::Array(_) => vstd::pervasive::unreached(),
                }
            },
            _ => None,
        }
    }

    /// Appends `item` to an array.
    pub fn push(&mut self, array: &Value, item: Value)
        requires
            old(self).wf(),
            old(self)@.len() > 0,
            array@ is Array,
            val_in(old(self)@, array@),
            val_in(old(self)@, item@),
        ensures
            final(self).wf(),
            final(self)@ == old(self)@.update(
                array@->Array_0 as int,
                NodeV::Array(old(self)@[array@->Array_0 as int]->Array_0.push(item@)),
            ),
    {
        let id = match array {
            Value::Array(id) => *id,
            _ => vstd::pervasive::unreached(),
        };
        let ghost h = self@.update(id as int, NodeV::Array(self@[id as int]->Array_0.push(item@)));
        proof {
            self.lemma_replace(id as int, h);
        }
        let ghost iv = item@;
        match &mut self.nodes[id] {
            Node::Array(items) => {
                let ghost before = items@;
                items.push(item);
                assert(items@.map_values(|v: Value| v@) =~= before.map_values(|v: Value| v@).push(iv));
            },
            Node::Object(_) => {},
        }
        assert(self@ =~= h);
    }

    /// Sets `key` of an object to `item`, as `IndexMap::insert` does.
    pub fn insert(&mut self, object: &Value, key: String, item: Value)
        requires
            old(self).wf(),
            object@ is Object,
            val_in(old(self)@, object@),
            val_in(old(self)@, item@),
        ensures
            final(self).wf(),
            final(self)@ == old(self)@.update(
                object@->Object_0 as int,
                NodeV::Object(
                    member_insert(old(self)@[object@->Object_0 as int]->Object_0, key@, item@),
                ),
            ),
    {
        let id = match object {
            Value::Object(id) => *id,
            _ => vstd::pervasive::unreached(),
        };
        let ghost es = self@[id as int]->Object_0;
        let ghost h = self@.update(id as int, NodeV::Object(member_insert(es, key@, item@)));
        proof {
            assert(node_in(self@, self@[id as int]));
            lemma_member_insert_distinct(es, key@, item@);
            lemma_member_insert_values(es, key@, item@);
            self.lemma_replace(id as int, h);
        }
        match &mut self.nodes[id] {
            Node::Object(m) => {
                object_insert(m, key, item);
            },
            Node::Array(_) => {},
        }
        assert(self@ =~= h);
    }

    /// Replacing a node by one of the same kind whose values lie in the graph
    /// keeps the graph well formed.
    proof fn lemma_replace(&self, id: int, h: Seq<NodeV>)
        requires
            self.wf(),
            0 <= id < self@.len(),
            h.len() == self@.len(),
            forall|k: int| 0 <= k < h.len() && k != id ==> h[k] == self@[k],
            (h[id] is Array) == (self@[id] is Array),
            node_in(self@, h[id]),
        ensures
            graph_wf(h),
    {
        assert forall|k: int| 0 <= k < h.len() implies node_in(h, #[trigger] h[k]) by {
            let m = h[k];
            assert(node_in(self@, m)) by {
                if k != id {
                    assert(m == self@[k]);
                }
            }
            assert forall|v: Val| val_in(self@, v) implies val_in(h, v) by {
                match v {
                    Val::Array(n) => { assert(h[n as int] is Array == self@[n as int] is Array); },
                    Val::Object(n) => { assert(h[n as int] is Array == self@[n as int] is Array); },
                    _ => {},
                }
            }
            match m {
                NodeV::Array(items) => {
                    assert forall|i: int| 0 <= i < items.len() implies val_in(h, #[trigger] items[i]) by {
                        assert(val_in(self@, items[i]));
                    }
                },
                NodeV::Object(es) => {
                    assert forall|i: int| 0 <= i < es.len() implies val_in(h, #[trigger] es[i].1) by {
                        assert(val_in(self@, es[i].1));
                    }
                },
            }
        }
    }
}

impl Graph {
    /// Replaces the items of array node `id`.
    pub fn set_array(&mut self, id: usize, items: Vec<Value>)
        requires
            old(self).wf(),
            id < old(self)@.len(),
            old(self)@[id as int] is Array,
            forall|i: int| 0 <= i < items.len() ==> val_in(old(self)@, #[trigger] items@[i]@),
        ensures
            final(self).wf(),
            final(self)@ == old(self)@.update(id as int, NodeV::Array(items@.map_values(|v: Value| v@))),
    {
        let ghost h = self@.update(id as int, NodeV::Array(items@.map_values(|v: Value| v@)));
        proof {
            let iv = items@.map_values(|v: Value| v@);
            assert forall|i: int| 0 <= i < iv.len() implies val_in(self@, #[trigger] iv[i]) by {
                assert(val_in(self@, items@[i]@));
            }
            self.lemma_replace(id as int, h);
        }
        self.nodes.set(id, Node::Array(items));
        assert(self@ =~= h);
    }

    /// Replaces the members of object node `id`.
    pub(crate) fn set_object(&mut self, id: usize, m: IndexMap<String, Value>)
        requires
            old(self).wf(),
            id < old(self)@.len(),
            old(self)@[id as int] is Object,
            keys_distinct(members(m)),
            forall|i: int| 0 <= i < members(m).len() ==> val_in(old(self)@, #[trigger] members(m)[i].1),
        ensures
            final(self).wf(),
            final(self)@ == old(self)@.update(id as int, NodeV::Object(members(m))),
    {
        let ghost h = self@.update(id as int, NodeV::Object(members(m)));
        proof {
            self.lemma_replace(id as int, h);
        }
        self.nodes.set(id, Node::Object(m));
        assert(self@ =~= h);
    }
}

impl Graph {
    /// Replaces item `i` of an array.
    pub fn set_item(&mut self, array: &Value, i: usize, item: Value)
        requires
            old(self).wf(),
            array@ is Array,
            val_in(old(self)@, array@),
            i < old(self)@[array@->Array_0 as int]->Array_0.len(),
            val_in(old(self)@, item@),
        ensures
            final(self).wf(),
            final(self)@ == old(self)@.update(
                array@->Array_0 as int,
                NodeV::Array(old(self)@[array@->Array_0 as int]->Array_0.update(i as int, item@)),
            ),
    {
        let id = match array {
            Value::Array(id) => *id,
            _ => vstd::pervasive::unreached(),
        };
        let ghost h = self@.update(id as int, NodeV::Array(self@[id as int]->Array_0.update(i as int, item@)));
        proof {
            self.lemma_replace(id as int, h);
        }
        let ghost iv = item@;
        match &mut self.nodes[id] {
            Node::Array(items) => {
                let ghost before = items@;
                items.set(i, item);
                assert(items@.map_values(|v: Value| v@) =~= before.map_values(|v: Value| v@).update(i as int, iv));
            },
            Node::Object(_) => {},
        }
        assert(self@ =~= h);
    }
}

impl Graph {
    /// Replaces value `i` of node `id` by `item`; `key` is that member's key
    /// when the node is an object. The graph need not be well formed.
    pub(crate) fn set_slot(&mut self, id: usize, i: usize, key: String, item: Value)
        requires
            id < old(self)@.len(),
            i < node_values(old(self)@[id as int]).len(),
            old(self)@[id as int] is Object ==> keys_distinct(old(self)@[id as int]->Object_0) && key@
                == old(self)@[id as int]->Object_0[i as int].0,
        ensures
            final(self)@ == old(self)@.update(id as int, replace_slot(old(self)@[id as int], i as int, item@)),
    {
        let ghost h = self@.update(id as int, replace_slot(self@[id as int], i as int, item@));
        let ghost iv = item@;
        let ghost kv = key@;
        match &mut self.nodes[id] {
            Node::Array(items) => {
                let ghost before = items@;
                items.set(i, item);
                assert(items@.map_values(|v: Value| v@) =~= before.map_values(|v: Value| v@).update(i as int, iv));
            },
            Node::Object(m) => {
                let ghost es = members(*m);
                proof {
                    assert(has_key(es, kv)) by {
                        assert(es[i as int].0 == kv);
                    }
                    let p = key_position(es, kv);
                    if p != i {
                        assert(es[p].0 == es[i as int].0);
                    }
                }
                object_insert(m, key, item);
            },
        }
        assert(self@ =~= h);
    }
}

/// `format!("{:?}", s)`: a string as Rust's `Debug` writes it, quoted and
/// escaped. Nothing is claimed of the text.
#[verifier::external_body]
fn debug_text(s: &str) -> String {
    format!("{s:?}")
}

/// What `describe` writes for a value that is not a string or a number.
pub open spec fn described(g: Seq<NodeV>, v: Val) -> Seq<char> {
    match v {
        Val::Null => "Null"@,
        Val::Bool(b) => if b { "Bool(true)"@ } else { "Bool(false)"@ },
        Val::Array(id) => "Array(len="@ + crate::text::decimal(g[id as int]->Array_0.len()) + ")"@,
        Val::Object(id) => "Object(len="@ + crate::text::decimal(g[id as int]->Object_0.len()) + ")"@,
        _ => Seq::empty(),
    }
}

impl Value {
    /// A short description of the value for debugging: its kind, with a
    /// boolean, number or string shown and an array or object by its length.
    pub fn describe(&self, g: &Graph) -> (r: String)
        requires
            g.wf(),
            val_in(g@, self@),
        ensures
            !(self@ is Str) && !(self@ is Number) ==> r@ == described(g@, self@),
            self@ matches Val::Number(n) ==> r@ == "Number(Number("@ + n + "))"@,
    {
        let mut out = String::new();
        match self {
            Value::Null => {
                crate::text::append_str(&mut out, "Null");
                proof { reveal_strlit("Null"); }
            },
            Value::Bool(b) => {
                if *b {
                    crate::text::append_str(&mut out, "Bool(true)");
                } else {
                    crate::text::append_str(&mut out, "Bool(false)");
                }
            },
            Value::Number(n) => {
                crate::text::append_str(&mut out, "Number(Number(");
                crate::text::append_str(&mut out, n.text.as_str());
                crate::text::append_str(&mut out, "))");
            },
            Value::String(s) => {
                crate::text::append_str(&mut out, "String(");
                let d = debug_text(s.as_str());
                crate::text::append_str(&mut out, d.as_str());
                crate::text::append_str(&mut out, ")");
            },
            Value::Array(id) => {
                let n = g.array_len(*id);
                crate::text::append_str(&mut out, "Array(len=");
                let d = crate::text::usize_decimal(n);
                crate::text::append_str(&mut out, d.as_str());
                crate::text::append_str(&mut out, ")");
            },
            Value::Object(id) => {
                let n = g.object_size(*id);
                crate::text::append_str(&mut out, "Object(len=");
                let d = crate::text::usize_decimal(n);
                crate::text::append_str(&mut out, d.as_str());
                crate::text::append_str(&mut out, ")");
            },
        }
        out
    }
}

} // verus!
