//! Plain JSON trees and value graphs: building a graph from a tree, and
//! unfolding a graph back into a tree.
use vstd::prelude::*;
use crate::json::{Json, JsonTree};
use crate::graph::{Graph, Value, Val, NodeV, val_in, node_in, inserted_all, lemma_member_insert_values};
use crate::object::{members, keys_distinct, object_new, object_insert, lemma_member_insert_distinct};

verus! {

/// The number of arrays and objects in a JSON value.
pub open spec fn containers_in(t: JsonTree) -> nat
    decreases t, 0nat,
{
    match t {
        JsonTree::Array(items) => containers_items(items, items.len()) + 1,
        JsonTree::Object(es) => containers_members(es, es.len()) + 1,
        _ => 0,
    }
}

/// The number of arrays and objects in the first `n` items.
pub open spec fn containers_items(items: Seq<JsonTree>, n: nat) -> nat
    decreases items, n,
{
    if n == 0 || n > items.len() {
        0
    } else {
        containers_items(items, (n - 1) as nat) + containers_in(items[n - 1])
    }
}

/// The number of arrays and objects in the values of the first `n` members.
pub open spec fn containers_members(es: Seq<(Seq<char>, JsonTree)>, n: nat) -> nat
    decreases es, n,
{
    if n == 0 || n > es.len() {
        0
    } else {
        containers_members(es, (n - 1) as nat) + containers_in(es[n - 1].1)
    }
}

/// Keys paired with values.
pub open spec fn paired(es: Seq<(Seq<char>, JsonTree)>, vs: Seq<Val>) -> Seq<(Seq<char>, Val)> {
    Seq::new(es.len(), |i: int| (es[i].0, vs[i]))
}

/// The value that stands for `t` once its containers are given the nodes
/// from `lo` onwards: each array or object gets the node after those of what
/// it holds.
pub open spec fn tree_val(t: JsonTree, lo: nat) -> Val {
    match t {
        JsonTree::Null => Val::Null,
        JsonTree::Bool(b) => Val::Bool(b),
        JsonTree::Number(n) => Val::Number(n),
        JsonTree::String(s) => Val::Str(s),
        JsonTree::Array(items) => Val::Array(lo + containers_items(items, items.len())),
        JsonTree::Object(es) => Val::Object(lo + containers_members(es, es.len())),
    }
}

/// The values that stand for the items of an array whose nodes start at `lo`.
pub open spec fn item_vals(items: Seq<JsonTree>, lo: nat) -> Seq<Val> {
    Seq::new(items.len(), |k: int| tree_val(items[k], lo + containers_items(items, k as nat)))
}

/// The values that stand for the member values of an object whose nodes start at `lo`.
pub open spec fn member_vals(es: Seq<(Seq<char>, JsonTree)>, lo: nat) -> Seq<Val> {
    Seq::new(es.len(), |k: int| tree_val(es[k].1, lo + containers_members(es, k as nat)))
}

/// The nodes that the containers of `t` become, in order, from node `lo`
/// onwards: those of an array's items (or an object's values) one after the
/// other, then the container itself. An object's members are inserted in
/// order, a repeated key keeping its first place and taking its last value.
pub open spec fn tree_nodes(t: JsonTree, lo: nat) -> Seq<NodeV>
    decreases t, 0nat,
{
    match t {
        JsonTree::Array(items) => items_nodes(items, lo, items.len()).push(
            NodeV::Array(item_vals(items, lo)),
        ),
        JsonTree::Object(es) => members_nodes(es, lo, es.len()).push(
            NodeV::Object(inserted_all(paired(es, member_vals(es, lo)))),
        ),
        _ => Seq::empty(),
    }
}

/// The nodes of the first `n` items.
pub open spec fn items_nodes(items: Seq<JsonTree>, lo: nat, n: nat) -> Seq<NodeV>
    decreases items, n,
{
    if n == 0 || n > items.len() {
        Seq::empty()
    } else {
        items_nodes(items, lo, (n - 1) as nat) + tree_nodes(
            items[n - 1],
            lo + containers_items(items, (n - 1) as nat),
        )
    }
}

/// The nodes of the values of the first `n` members.
pub open spec fn members_nodes(es: Seq<(Seq<char>, JsonTree)>, lo: nat, n: nat) -> Seq<NodeV>
    decreases es, n,
{
    if n == 0 || n > es.len() {
        Seq::empty()
    } else {
        members_nodes(es, lo, (n - 1) as nat) + tree_nodes(
            es[n - 1].1,
            lo + containers_members(es, (n - 1) as nat),
        )
    }
}

/// No object of the tree repeats a key.
pub open spec fn keys_unique(t: JsonTree) -> bool
    decreases t, 0nat,
{
    match t {
        JsonTree::Array(items) => items_unique(items, items.len()),
        JsonTree::Object(es) => keys_distinct(es) && members_unique(es, es.len()),
        _ => true,
    }
}

/// No object within the first `n` items repeats a key.
pub open spec fn items_unique(items: Seq<JsonTree>, n: nat) -> bool
    decreases items, n,
{
    if n == 0 || n > items.len() {
        true
    } else {
        items_unique(items, (n - 1) as nat) && keys_unique(items[n - 1])
    }
}

/// No object within the values of the first `n` members repeats a key.
pub open spec fn members_unique(es: Seq<(Seq<char>, JsonTree)>, n: nat) -> bool
    decreases es, n,
{
    if n == 0 || n > es.len() {
        true
    } else {
        members_unique(es, (n - 1) as nat) && keys_unique(es[n - 1].1)
    }
}

/// The nodes of item `k` sit among those of the first `n` items.
pub proof fn lemma_items_nodes_at(items: Seq<JsonTree>, lo: nat, n: nat, k: nat)
    requires
        k < n <= items.len(),
    ensures
        containers_items(items, k) + containers_in(items[k as int]) == containers_items(items, k + 1),
        containers_items(items, k + 1) <= containers_items(items, n),
        items_nodes(items, lo, n).subrange(
            containers_items(items, k) as int,
            containers_items(items, k + 1) as int,
        ) == tree_nodes(items[k as int], lo + containers_items(items, k)),
    decreases n,
{
    let m = (n - 1) as nat;
    lemma_items_nodes_len(items, lo, m);
    lemma_tree_nodes_len(items[m as int], lo + containers_items(items, m));
    if k == m {
        assert(items_nodes(items, lo, n).subrange(
            containers_items(items, k) as int,
            containers_items(items, k + 1) as int,
        ) =~= tree_nodes(items[k as int], lo + containers_items(items, k)));
    } else {
        lemma_items_nodes_at(items, lo, m, k);
        assert(items_nodes(items, lo, n).subrange(
            containers_items(items, k) as int,
            containers_items(items, k + 1) as int,
        ) =~= items_nodes(items, lo, m).subrange(
            containers_items(items, k) as int,
            containers_items(items, k + 1) as int,
        ));
    }
}

/// The nodes of member `k` sit among those of the first `n` members.
pub proof fn lemma_members_nodes_at(es: Seq<(Seq<char>, JsonTree)>, lo: nat, n: nat, k: nat)
    requires
        k < n <= es.len(),
    ensures
        containers_members(es, k) + containers_in(es[k as int].1) == containers_members(es, k + 1),
        containers_members(es, k + 1) <= containers_members(es, n),
        members_nodes(es, lo, n).subrange(
            containers_members(es, k) as int,
            containers_members(es, k + 1) as int,
        ) == tree_nodes(es[k as int].1, lo + containers_members(es, k)),
    decreases n,
{
    let m = (n - 1) as nat;
    lemma_members_nodes_len(es, lo, m);
    lemma_tree_nodes_len(es[m as int].1, lo + containers_members(es, m));
    if k == m {
        assert(members_nodes(es, lo, n).subrange(
            containers_members(es, k) as int,
            containers_members(es, k + 1) as int,
        ) =~= tree_nodes(es[k as int].1, lo + containers_members(es, k)));
    } else {
        lemma_members_nodes_at(es, lo, m, k);
        assert(members_nodes(es, lo, n).subrange(
            containers_members(es, k) as int,
            containers_members(es, k + 1) as int,
        ) =~= members_nodes(es, lo, m).subrange(
            containers_members(es, k) as int,
            containers_members(es, k + 1) as int,
        ));
    }
}

/// Each of the first `n` items has unique keys.
pub proof fn lemma_items_unique_at(items: Seq<JsonTree>, n: nat, k: nat)
    requires
        items_unique(items, n),
        k < n <= items.len(),
    ensures
        keys_unique(items[k as int]),
    decreases n,
{
    if k < n - 1 {
        lemma_items_unique_at(items, (n - 1) as nat, k);
    }
}

/// Each of the first `n` member values has unique keys.
pub proof fn lemma_members_unique_at(es: Seq<(Seq<char>, JsonTree)>, n: nat, k: nat)
    requires
        members_unique(es, n),
        k < n <= es.len(),
    ensures
        keys_unique(es[k as int].1),
    decreases n,
{
    if k < n - 1 {
        lemma_members_unique_at(es, (n - 1) as nat, k);
    }
}

/// A tree becomes one node per container.
pub proof fn lemma_tree_nodes_len(t: JsonTree, lo: nat)
    ensures
        tree_nodes(t, lo).len() == containers_in(t),
    decreases t, 0nat,
{
    match t {
        JsonTree::Array(items) => lemma_items_nodes_len(items, lo, items.len()),
        JsonTree::Object(es) => lemma_members_nodes_len(es, lo, es.len()),
        _ => {},
    }
}

pub proof fn lemma_items_nodes_len(items: Seq<JsonTree>, lo: nat, n: nat)
    ensures
        items_nodes(items, lo, n).len() == containers_items(items, n),
    decreases items, n,
{
    if n > 0 && n <= items.len() {
        lemma_items_nodes_len(items, lo, (n - 1) as nat);
        lemma_tree_nodes_len(items[n - 1], lo + containers_items(items, (n - 1) as nat));
    }
}

pub proof fn lemma_members_nodes_len(es: Seq<(Seq<char>, JsonTree)>, lo: nat, n: nat)
    ensures
        members_nodes(es, lo, n).len() == containers_members(es, n),
    decreases es, n,
{
    if n > 0 && n <= es.len() {
        lemma_members_nodes_len(es, lo, (n - 1) as nat);
        lemma_tree_nodes_len(es[n - 1].1, lo + containers_members(es, (n - 1) as nat));
    }
}

impl Value {
    /// Builds the graph form of a JSON tree into `g`: the containers of `value`
    /// are appended as new nodes, and the value that stands for it is returned.
    /// Each array and object of the tree gets a node of its own.
    pub fn from_json(g: &mut Graph, value: &Json) -> (v: Value)
        requires
            old(g).wf(),
            old(g)@.len() + containers_in(value@) <= usize::MAX,
        ensures
            final(g).wf(),
            final(g)@ == old(g)@ + tree_nodes(value@, old(g)@.len()),
            v@ == tree_val(value@, old(g)@.len()),
            val_in(final(g)@, v@),
    {
        let ghost pre = g@;
        let v = Value::build(g, value);
        proof {
            lemma_tree_val_in(pre, value@);
        }
        v
    }

    /// `from_json`, one container at a time.
    fn build(g: &mut Graph, value: &Json) -> (v: Value)
        requires
            old(g).wf(),
            old(g)@.len() + containers_in(value@) <= usize::MAX,
        ensures
            final(g).wf(),
            final(g)@ == old(g)@ + tree_nodes(value@, old(g)@.len()),
            v@ == tree_val(value@, old(g)@.len()),
        decreases value,
    {
        let ghost g0 = g@;
        let ghost lo = g@.len();
        match value {
            Json::Null => {
                assert(g@ =~= g0 + tree_nodes(value@, lo));
                Value::Null
            },
            Json::Bool(b) => {
                assert(g@ =~= g0 + tree_nodes(value@, lo));
                Value::Bool(*b)
            },
            Json::Number(n) => {
                assert(g@ =~= g0 + tree_nodes(value@, lo));
                Value::Number(n.copy())
            },
            Json::String(s) => {
                assert(g@ =~= g0 + tree_nodes(value@, lo));
                Value::String(s.clone())
            },
            Json::Array(items) => {
                let ghost tv = value@;
                let ghost ts = tv->Array_0;
                let mut arr: Vec<Value> = Vec::new();
                let mut i: usize = 0;
                assert(g@ =~= g0 + items_nodes(ts, lo, 0));
                while i < items.len()
                    invariant
                        i <= items.len(),
                        *value == Json::Array(*items),
                        tv == value@,
                        ts == tv->Array_0,
                        ts.len() == items.len(),
                        forall|k: int| 0 <= k < items.len() ==> ts[k] == (#[trigger] items@[k])@,
                        g.wf(),
                        lo == g0.len(),
                        g0.len() + containers_in(tv) <= usize::MAX,
                        g@ == g0 + items_nodes(ts, lo, i as nat),
                        arr.len() == i,
                        forall|k: int| 0 <= k < i ==> (#[trigger] arr@[k])@ == item_vals(ts, lo)[k],
                        forall|k: int| 0 <= k < i ==> val_in(g@, #[trigger] arr@[k]@),
                    decreases items.len() - i,
                {
                    proof {
                        assert(decreases_to!(*value => (*value)->Array_0));
                        assert((*value)->Array_0 == *items);
                        assert(decreases_to!(*items => items@));
                        assert(decreases_to!(items@ => items@[i as int]));
                        lemma_containers_items_bound(ts, i as nat);
                        lemma_items_nodes_len(ts, lo, i as nat);
                    }
                    let ghost ga = g@;
                    let c = Value::build(g, &items[i]);
                    proof {
                        let lo_i = lo + containers_items(ts, i as nat);
                        assert(ga.len() == lo_i);
                        assert(g@ =~= g0 + items_nodes(ts, lo, (i + 1) as nat));
                        lemma_tree_val_in(ga, ts[i as int]);
                        assert forall|k: int| 0 <= k < i implies val_in(g@, #[trigger] arr@[k]@) by {
                            lemma_val_in_extends(ga, g@, arr@[k]@);
                        }
                    }
                    arr.push(c);
                    i += 1;
                }
                proof {
                    lemma_containers_items_bound(ts, ts.len());
                    lemma_items_nodes_len(ts, lo, ts.len());
                    assert(arr@.map_values(|x: Value| x@) =~= item_vals(ts, lo));
                }
                let v = g.add_array(arr);
                proof {
                    assert(g@ =~= g0 + tree_nodes(value@, lo));
                }
                v
            },
            Json::Object(entries) => {
                let ghost tv = value@;
                let ghost es = tv->Object_0;
                let mut obj = object_new();
                let mut i: usize = 0;
                assert(inserted_all(paired(es, member_vals(es, lo)).take(0)) =~= members(obj));
                assert(g@ =~= g0 + members_nodes(es, lo, 0));
                while i < entries.len()
                    invariant
                        i <= entries.len(),
                        *value == Json::Object(*entries),
                        tv == value@,
                        es == tv->Object_0,
                        es.len() == entries.len(),
                        forall|k: int|
                            0 <= k < entries.len() ==> es[k] == ((#[trigger] entries@[k]).0@, entries@[k].1@),
                        g.wf(),
                        lo == g0.len(),
                        g0.len() + containers_in(tv) <= usize::MAX,
                        g@ == g0 + members_nodes(es, lo, i as nat),
                        members(obj) == inserted_all(paired(es, member_vals(es, lo)).take(i as int)),
                        keys_distinct(members(obj)),
                        forall|k: int| 0 <= k < members(obj).len() ==> val_in(g@, #[trigger] members(obj)[k].1),
                    decreases entries.len() - i,
                {
                    proof {
                        assert(decreases_to!(*value => (*value)->Object_0));
                        assert((*value)->Object_0 == *entries);
                        assert(decreases_to!(*entries => entries@));
                        assert(decreases_to!(entries@ => entries@[i as int]));
                        assert(decreases_to!(entries@[i as int] => entries@[i as int].1));
                        lemma_containers_members_bound(es, i as nat);
                        lemma_members_nodes_len(es, lo, i as nat);
                    }
                    let ghost ga = g@;
                    let c = Value::build(g, &entries[i].1);
                    let ghost cv = c@;
                    proof {
                        let lo_i = lo + containers_members(es, i as nat);
                        assert(ga.len() == lo_i);
                        assert(g@ =~= g0 + members_nodes(es, lo, (i + 1) as nat));
                        lemma_tree_val_in(ga, es[i as int].1);
                        assert forall|k: int| 0 <= k < members(obj).len() implies val_in(g@, #[trigger] members(obj)[k].1) by {
                            lemma_val_in_extends(ga, g@, members(obj)[k].1);
                        }
                        lemma_member_insert_distinct(members(obj), es[i as int].0, cv);
                        lemma_member_insert_values(members(obj), es[i as int].0, cv);
                        let p = paired(es, member_vals(es, lo));
                        assert(p.take(i + 1).drop_last() =~= p.take(i as int));
                        assert(p.take(i + 1).last() == (es[i as int].0, cv));
                    }
                    object_insert(&mut obj, entries[i].0.clone(), c);
                    i += 1;
                }
                proof {
                    lemma_containers_members_bound(es, es.len());
                    lemma_members_nodes_len(es, lo, es.len());
                    let p = paired(es, member_vals(es, lo));
                    assert(p.take(es.len() as int) =~= p);
                }
                let v = g.add_object(obj);
                proof {
                    assert(g@ =~= g0 + tree_nodes(value@, lo));
                }
                v
            },
        }
    }
}

/// The number of arrays and objects in `j`, or `None` when it exceeds
/// `usize::MAX`.
pub fn container_count(j: &Json) -> (r: Option<usize>)
    ensures
        match r {
            Some(n) => n == containers_in(j@),
            None => containers_in(j@) > usize::MAX,
        },
    decreases j,
{
    match j {
        Json::Array(items) => {
            let ghost ts = j@->Array_0;
            let mut total: usize = 0;
            let mut i: usize = 0;
            while i < items.len()
                invariant
                    i <= items.len(),
                    *j == Json::Array(*items),
                    ts == j@->Array_0,
                    ts.len() == items.len(),
                    forall|k: int| 0 <= k < items.len() ==> ts[k] == (#[trigger] items@[k])@,
                    total == containers_items(ts, i as nat),
                decreases items.len() - i,
            {
                proof {
                    assert(decreases_to!(*j => (*j)->Array_0));
                    assert((*j)->Array_0 == *items);
                    assert(decreases_to!(*items => items@));
                    assert(decreases_to!(items@ => items@[i as int]));
                    lemma_containers_items_bound(ts, i as nat);
                }
                let c = match container_count(&items[i]) {
                    Some(c) => c,
                    None => {
                        return None;
                    },
                };
                total = match total.checked_add(c) {
                    Some(t) => t,
                    None => {
                        return None;
                    },
                };
                i += 1;
            }
            total.checked_add(1)
        },
        Json::Object(entries) => {
            let ghost es = j@->Object_0;
            let mut total: usize = 0;
            let mut i: usize = 0;
            while i < entries.len()
                invariant
                    i <= entries.len(),
                    *j == Json::Object(*entries),
                    es == j@->Object_0,
                    es.len() == entries.len(),
                    forall|k: int|
                        0 <= k < entries.len() ==> es[k] == ((#[trigger] entries@[k]).0@, entries@[k].1@),
                    total == containers_members(es, i as nat),
                decreases entries.len() - i,
            {
                proof {
                    assert(decreases_to!(*j => (*j)->Object_0));
                    assert((*j)->Object_0 == *entries);
                    assert(decreases_to!(*entries => entries@));
                    assert(decreases_to!(entries@ => entries@[i as int]));
                    assert(decreases_to!(entries@[i as int] => entries@[i as int].1));
                    lemma_containers_members_bound(es, i as nat);
                }
                let c = match container_count(&entries[i].1) {
                    Some(c) => c,
                    None => {
                        return None;
                    },
                };
                total = match total.checked_add(c) {
                    Some(t) => t,
                    None => {
                        return None;
                    },
                };
                i += 1;
            }
            total.checked_add(1)
        },
        _ => Some(0),
    }
}

/// A value of `h` that was in `g` stays in it when `h` extends `g`.
proof fn lemma_val_in_extends(g: Seq<NodeV>, h: Seq<NodeV>, v: Val)
    requires
        val_in(g, v),
        g.len() <= h.len(),
        forall|i: int| 0 <= i < g.len() ==> #[trigger] h[i] == g[i],
    ensures
        val_in(h, v),
{
    match v {
        Val::Array(id) => assert(h[id as int] == g[id as int]),
        Val::Object(id) => assert(h[id as int] == g[id as int]),
        _ => {},
    }
}

/// The value of a tree lies in a graph that ends with the tree's nodes.
proof fn lemma_tree_val_in(pre: Seq<NodeV>, t: JsonTree)
    ensures
        val_in(pre + tree_nodes(t, pre.len()), tree_val(t, pre.len())),
{
    let lo = pre.len();
    let g = pre + tree_nodes(t, lo);
    lemma_tree_nodes_len(t, lo);
    match t {
        JsonTree::Array(items) => {
            lemma_items_nodes_len(items, lo, items.len());
            assert(g[(lo + containers_items(items, items.len())) as int] is Array);
        },
        JsonTree::Object(es) => {
            lemma_members_nodes_len(es, lo, es.len());
            assert(g[(lo + containers_members(es, es.len())) as int] is Object);
        },
        _ => {},
    }
}

/// The containers of earlier items do not exceed those of the array.
proof fn lemma_containers_items_bound(items: Seq<JsonTree>, n: nat)
    requires
        n <= items.len(),
    ensures
        n < items.len() ==> containers_items(items, n) + containers_in(items[n as int]) <= containers_items(items, items.len()),
        containers_items(items, n) <= containers_items(items, items.len()),
    decreases items.len() - n,
{
    if n < items.len() {
        lemma_containers_items_bound(items, n + 1);
    }
}

/// The containers of earlier members do not exceed those of the object.
proof fn lemma_containers_members_bound(es: Seq<(Seq<char>, JsonTree)>, n: nat)
    requires
        n <= es.len(),
    ensures
        n < es.len() ==> containers_members(es, n) + containers_in(es[n as int].1) <= containers_members(es, es.len()),
        containers_members(es, n) <= containers_members(es, es.len()),
    decreases es.len() - n,
{
    if n < es.len() {
        lemma_containers_members_bound(es, n + 1);
    }
}

/// The number of nodes that are not on the path.
pub open spec fn off_path(on_path: Seq<bool>) -> nat
    decreases on_path.len(),
{
    if on_path.len() == 0 {
        0
    } else {
        off_path(on_path.drop_last()) + if on_path.last() {
            0nat
        } else {
            1nat
        }
    }
}

/// Putting a node on the path leaves one node fewer off it.
pub proof fn lemma_off_path_update(on_path: Seq<bool>, id: int)
    requires
        0 <= id < on_path.len(),
        !on_path[id],
    ensures
        off_path(on_path.update(id, true)) + 1 == off_path(on_path),
    decreases on_path.len(),
{
    let u = on_path.update(id, true);
    if id < on_path.len() - 1 {
        assert(u.drop_last() =~= on_path.drop_last().update(id, true));
        lemma_off_path_update(on_path.drop_last(), id);
    } else {
        assert(u.drop_last() =~= on_path.drop_last());
    }
}

/// The tree that `v` unfolds to in `g`: arrays and objects are written out
/// in full, a node shared by several places once at each; a node met again
/// below itself (on the path, `on_path[id]`) becomes null.
pub open spec fn unfold(g: Seq<NodeV>, v: Val, on_path: Seq<bool>) -> JsonTree
    decreases off_path(on_path),
{
    match v {
        Val::Null => JsonTree::Null,
        Val::Bool(b) => JsonTree::Bool(b),
        Val::Number(n) => JsonTree::Number(n),
        Val::Str(s) => JsonTree::String(s),
        Val::Array(id) => {
            if id < on_path.len() && !on_path[id as int] && id < g.len() && g[id as int] is Array {
                let inner = on_path.update(id as int, true);
                let items = g[id as int]->Array_0;
                JsonTree::Array(
                    Seq::new(
                        items.len(),
                        |k: int|
                            {
                                proof {
                                    lemma_off_path_update(on_path, id as int);
                                }
                                unfold(g, items[k], inner)
                            },
                    ),
                )
            } else {
                JsonTree::Null
            }
        },
        Val::Object(id) => {
            if id < on_path.len() && !on_path[id as int] && id < g.len() && g[id as int] is Object {
                let inner = on_path.update(id as int, true);
                let es = g[id as int]->Object_0;
                JsonTree::Object(
                    Seq::new(
                        es.len(),
                        |k: int|
                            {
                                proof {
                                    lemma_off_path_update(on_path, id as int);
                                }
                                (es[k].0, unfold(g, es[k].1, inner))
                            },
                    ),
                )
            } else {
                JsonTree::Null
            }
        },
    }
}

impl Value {
    /// Unfolds the value into a plain JSON tree. A node shared by several
    /// places is written out at each of them; a node met again inside itself
    /// (a cycle) becomes null there.
    pub fn to_serde_json(&self, g: &Graph) -> (r: Json)
        requires
            g.wf(),
            val_in(g@, self@),
        ensures
            r@ == unfold(g@, self@, Seq::new(g@.len(), |i: int| false)),
    {
        let n = g.node_count();
        let mut on_path: Vec<bool> = Vec::new();
        let mut i: usize = 0;
        while i < n
            invariant
                i <= n,
                n == g@.len(),
                on_path@ == Seq::new(i as nat, |k: int| false),
            decreases n - i,
        {
            on_path.push(false);
            i += 1;
            assert(on_path@ =~= Seq::new(i as nat, |k: int| false));
        }
        self.to_serde_json_inner(g, &mut on_path)
    }

    /// Unfolds the value with the nodes marked in `on_path` taken as the
    /// containers it lies in.
    fn to_serde_json_inner(&self, g: &Graph, on_path: &mut Vec<bool>) -> (r: Json)
        requires
            g.wf(),
            val_in(g@, self@),
            old(on_path)@.len() == g@.len(),
        ensures
            r@ == unfold(g@, self@, old(on_path)@),
            final(on_path)@ == old(on_path)@,
        decreases off_path(old(on_path)@),
    {
        let ghost start = on_path@;
        match self {
            Value::Null => Json::Null,
            Value::Bool(b) => Json::Bool(*b),
            Value::Number(n) => Json::Number(n.copy()),
            Value::String(s) => Json::String(s.clone()),
            Value::Array(id) => {
                let id = *id;
                if on_path[id] {
                    return Json::Null;
                }
                proof {
                    lemma_off_path_update(start, id as int);
                }
                on_path.set(id, true);
                let ghost inner = on_path@;
                let ghost items = g@[id as int]->Array_0;
                let n = g.array_len(id);
                let mut out: Vec<Json> = Vec::new();
                let mut i: usize = 0;
                while i < n
                    invariant
                        g.wf(),
                        id < g@.len(),
                        g@[id as int] is Array,
                        items == g@[id as int]->Array_0,
                        n == items.len(),
                        i <= n,
                        on_path@ == inner,
                        start == old(on_path)@,
                        id < start.len(),
                        inner == start.update(id as int, true),
                        inner.len() == g@.len(),
                        off_path(inner) < off_path(start),
                        out.len() == i,
                        forall|k: int| 0 <= k < i ==> (#[trigger] out@[k])@ == unfold(g@, items[k], inner),
                    decreases n - i,
                {
                    let item = g.array_item(id, i);
                    proof {
                        assert(node_in(g@, g@[id as int]));
                        assert(val_in(g@, items[i as int]));
                    }
                    let r = item.to_serde_json_inner(g, on_path);
                    out.push(r);
                    i += 1;
                }
                on_path.set(id, false);
                proof {
                    assert(on_path@ =~= start);
                }
                let r = Json::Array(out);
                proof {
                    let u = unfold(g@, self@, start);
                    assert(!start[id as int]);
                    assert(u is Array);
                    assert(r@->Array_0 =~= u->Array_0);
                }
                r
            },
            Value::Object(id) => {
                let id = *id;
                if on_path[id] {
                    return Json::Null;
                }
                proof {
                    lemma_off_path_update(start, id as int);
                }
                on_path.set(id, true);
                let ghost inner = on_path@;
                let ghost es = g@[id as int]->Object_0;
                let n = g.object_size(id);
                let mut out: Vec<(String, Json)> = Vec::new();
                let mut i: usize = 0;
                while i < n
                    invariant
                        g.wf(),
                        id < g@.len(),
                        g@[id as int] is Object,
                        es == g@[id as int]->Object_0,
                        n == es.len(),
                        i <= n,
                        on_path@ == inner,
                        start == old(on_path)@,
                        id < start.len(),
                        inner == start.update(id as int, true),
                        inner.len() == g@.len(),
                        off_path(inner) < off_path(start),
                        out.len() == i,
                        forall|k: int|
                            0 <= k < i ==> (#[trigger] out@[k]).0@ == es[k].0 && out@[k].1@ == unfold(
                                g@,
                                es[k].1,
                                inner,
                            ),
                    decreases n - i,
                {
                    let (key, item) = g.object_member(id, i);
                    proof {
                        assert(node_in(g@, g@[id as int]));
                        assert(val_in(g@, es[i as int].1));
                    }
                    let r = item.to_serde_json_inner(g, on_path);
                    out.push((key.clone(), r));
                    i += 1;
                }
                on_path.set(id, false);
                proof {
                    assert(on_path@ =~= start);
                }
                let r = Json::Object(out);
                proof {
                    let u = unfold(g@, self@, start);
                    assert(!start[id as int]);
                    assert(u is Object);
                    assert(r@->Object_0 =~= u->Object_0);
                }
                r
            },
        }
    }
}

} // verus!
