//! What holds across the operations of the library.
use vstd::prelude::*;
use crate::text::{decimal, index_value, lemma_decimal_digits, all_digits, digits_value};
use crate::json::{JsonTree, compact};
use crate::flatten::stringified;
use crate::tree::{
    containers_in, containers_items, containers_members, tree_nodes, tree_val, item_vals,
    member_vals, paired, unfold, keys_unique, lemma_tree_nodes_len, lemma_items_nodes_len,
    lemma_members_nodes_len, lemma_items_nodes_at, lemma_members_nodes_at, lemma_items_unique_at,
    lemma_members_unique_at,
};
use crate::graph::{Val, NodeV, val_in, node_in, graph_wf, node_of, inserted_all};
use crate::object::{keys_distinct, has_key, member_insert};
use crate::flatten::{
    flat_order, records, record, link, ident, ident_index, has_ident, idents_distinct, visited,
    visits, discover, kept_members, member_values, primitive, is_prefix, lemma_discover_append,
    lemma_discover_prefix, lemma_discover_distinct, lemma_discover_has, lemma_discover_from,
    lemma_ident_index, lemma_visits_contain, lemma_visits_step, lemma_visited_in,
};
use crate::unflatten::{
    shell, shells, resolve, record_items, items_failure, records_failure, node_for, unflattened,
    root_of, containers_before, is_container, lemma_nodes_upto,
};

verus! {

/// Reading back the decimal text of an index gives the index.
pub proof fn law_index_text_roundtrip(n: nat)
    requires
        n <= usize::MAX,
    ensures
        index_value(decimal(n)) == Some(n),
{
    lemma_decimal_digits(n);
}

/// The keys of the whitelist-free replacer keep every member.
pub proof fn lemma_kept_all(es: Seq<(Seq<char>, Val)>)
    ensures
        kept_members(None, es) == es,
    decreases es.len(),
{
    if es.len() > 0 {
        lemma_kept_all(es.drop_last());
        assert(es.drop_last().push(es.last()) =~= es);
    }
}

/// Inserting members whose keys are distinct, in order, gives them back.
pub proof fn lemma_inserted_all_distinct(es: Seq<(Seq<char>, Val)>)
    requires
        keys_distinct(es),
    ensures
        inserted_all(es) == es,
    decreases es.len(),
{
    if es.len() > 0 {
        let p = es.drop_last();
        assert(keys_distinct(p));
        lemma_inserted_all_distinct(p);
        assert(!has_key(p, es.last().0)) by {
            if has_key(p, es.last().0) {
                let i = choose|i: int| 0 <= i < p.len() && p[i].0 == es.last().0;
                assert(es[i].0 == es[es.len() - 1].0);
            }
        }
        assert(p.push(es.last()) =~= es);
    }
}

/// Where a value of the flattened graph lands once its flatted array is read
/// back: a string, array or object becomes what its entry's record stands
/// for, anything else stays as it is.
pub open spec fn image(flat: Seq<JsonTree>, e: Seq<Val>, v: Val) -> Val {
    match ident(v) {
        Some(k) => shell(flat, ident_index(e, k)),
        None => v,
    }
}

/// A node of the flattened graph with every value moved by `image`.
pub open spec fn image_node(flat: Seq<JsonTree>, e: Seq<Val>, n: NodeV) -> NodeV {
    match n {
        NodeV::Array(items) => NodeV::Array(items.map_values(|c: Val| image(flat, e, c))),
        NodeV::Object(es) => NodeV::Object(es.map_values(|m: (Seq<char>, Val)| (m.0, image(flat, e, m.1)))),
    }
}

/// The visits of fewer entries are a prefix of the visits of more.
proof fn lemma_visits_grow(g: Seq<NodeV>, rep: Option<Seq<Seq<char>>>, e: Seq<Val>, m: nat, n: nat)
    requires
        m <= n <= e.len(),
    ensures
        visits(g, rep, e, n) == visits(g, rep, e, m) + visits(g, rep, e, n).skip(visits(g, rep, e, m).len() as int),
    decreases n - m,
{
    if m < n {
        lemma_visits_grow(g, rep, e, m, (n - 1) as nat);
        lemma_visits_step(g, rep, e, (n - 1) as nat);
        let a = visits(g, rep, e, m);
        let b = visits(g, rep, e, (n - 1) as nat);
        let c = visits(g, rep, e, n);
        assert(c.take(a.len() as int) =~= a) by {
            assert(b.take(a.len() as int) =~= a);
        }
        assert(c =~= a + c.skip(a.len() as int));
    } else {
        assert(visits(g, rep, e, n) =~= visits(g, rep, e, m) + visits(g, rep, e, n).skip(
            visits(g, rep, e, m).len() as int,
        ));
    }
}

/// Facts about the entries of a flatted array: distinct identities, each
/// lying in the graph, and every string, array or object inside an entry has
/// an entry of its own.
proof fn lemma_entries(g: Seq<NodeV>, rep: Option<Seq<Seq<char>>>, root: Val, e: Seq<Val>)
    requires
        graph_wf(g),
        val_in(g, root),
        flat_order(g, rep, root, e),
    ensures
        idents_distinct(e),
        forall|j: int| 0 <= j < e.len() ==> val_in(g, #[trigger] e[j]),
        forall|j: int, m: int|
            0 <= j < e.len() && 0 <= m < visited(g, rep, e[j]).len() && ident(visited(g, rep, e[j])[m]) is Some
                ==> has_ident(e, ident(#[trigger] visited(g, rep, e[j])[m])->0),
{
    let all = visits(g, rep, e, e.len());
    assert(idents_distinct(seq![root]));
    lemma_discover_distinct(seq![root], all);
    lemma_discover_has(seq![root], all);
    assert forall|j: int, m: int|
        0 <= j < e.len() && 0 <= m < visited(g, rep, e[j]).len() && ident(visited(g, rep, e[j])[m]) is Some
            implies has_ident(e, ident(#[trigger] visited(g, rep, e[j])[m])->0) by {
        lemma_visits_contain(g, rep, e, e.len(), j);
        let w = visited(g, rep, e[j]);
        let p = choose|p: int| 0 <= p < all.len() && all[p] == w[m];
        assert(has_ident(discover(seq![root], all), ident(all[p])->0));
    }
    lemma_entries_in(g, rep, root, e, e.len());
}

/// The first `n` entries lie in the graph.
proof fn lemma_entries_in(g: Seq<NodeV>, rep: Option<Seq<Seq<char>>>, root: Val, e: Seq<Val>, n: nat)
    requires
        graph_wf(g),
        val_in(g, root),
        flat_order(g, rep, root, e),
        n <= e.len(),
    ensures
        forall|j: int| 0 <= j < n ==> val_in(g, #[trigger] e[j]),
    decreases n,
{
    if n > 0 {
        lemma_entries_in(g, rep, root, e, (n - 1) as nat);
        let k = (n - 1) as int;
        if k > 0 {
            let a = visits(g, rep, e, k as nat);
            let all = visits(g, rep, e, e.len());
            let d = discover(seq![root], a);
            assert(d.len() > k);
            lemma_visits_grow(g, rep, e, k as nat, e.len());
            lemma_discover_append(seq![root], a, all.skip(a.len() as int));
            lemma_discover_prefix(d, all.skip(a.len() as int));
            assert(e[k] == d[k]);
            lemma_discover_from(seq![root], a);
            assert(a.contains(d[k]));
            // every value visited inside the first k entries lies in the graph
            assert forall|q: int| 0 <= q < a.len() implies val_in(g, #[trigger] a[q]) by {
                lemma_visits_in(g, rep, e, k as nat, q);
            }
        }
    }
}

/// The values visited inside entries that lie in the graph lie in the graph.
proof fn lemma_visits_in(g: Seq<NodeV>, rep: Option<Seq<Seq<char>>>, e: Seq<Val>, n: nat, q: int)
    requires
        graph_wf(g),
        n <= e.len(),
        forall|j: int| 0 <= j < n ==> val_in(g, #[trigger] e[j]),
        0 <= q < visits(g, rep, e, n).len(),
    ensures
        val_in(g, visits(g, rep, e, n)[q]),
    decreases n,
{
    if n > 0 {
        let p = visits(g, rep, e, (n - 1) as nat);
        if q < p.len() {
            lemma_visits_in(g, rep, e, (n - 1) as nat, q);
        } else {
            assert(val_in(g, e[n - 1]));
            lemma_visited_in(g, rep, e[n - 1]);
            assert(visits(g, rep, e, n)[q] == visited(g, rep, e[n - 1])[q - p.len()]);
        }
    }
}

/// Each value inside an entry resolves, once read back, to its image.
proof fn lemma_link_resolves(g: Seq<NodeV>, root: Val, e: Seq<Val>, c: Val)
    requires
        idents_distinct(e),
        e.len() <= usize::MAX,
        ident(c) is Some ==> has_ident(e, ident(c)->0),
        ident(c) is None ==> !(c is Str),
    ensures
        resolve(shells(records(g, None, e)), link(e, c)) == Ok::<Val, Seq<char>>(
            image(records(g, None, e), e, c),
        ),
{
    let flat = records(g, None, e);
    match ident(c) {
        Some(k) => {
            let idx = ident_index(e, k);
            assert(0 <= idx < e.len() && ident(e[idx]) == Some(k));
            law_index_text_roundtrip(idx as nat);
        },
        None => {},
    }
}

/// Reading back what `to_json` writes gives the value's graph again: the
/// flatted array reads back without error, its root is the image of the
/// value, and each array or object entry becomes a node holding the images of
/// what the flattened node holds, in the same order and under the same keys.
/// Shared and circular references thus keep their identity.
pub proof fn law_flatten_unflatten(g: Seq<NodeV>, root: Val, e: Seq<Val>)
    requires
        graph_wf(g),
        val_in(g, root),
        flat_order(g, None, root, e),
        e.len() <= usize::MAX,
    ensures
        records_failure(records(g, None, e), e.len() as int) is None,
        root_of(records(g, None, e)) == image(records(g, None, e), e, root),
        unflattened(records(g, None, e)).len() == containers_before(records(g, None, e), e.len() as int),
        forall|j: int|
            #![trigger e[j]]
            0 <= j < e.len() && node_of(e[j]) is Some ==> {
                &&& image(records(g, None, e), e, e[j]) == shell(records(g, None, e), j)
                &&& unflattened(records(g, None, e))[containers_before(records(g, None, e), j) as int]
                    == image_node(records(g, None, e), e, g[node_of(e[j])->0 as int])
            },
{
    let flat = records(g, None, e);
    let sh = shells(flat);
    lemma_entries(g, None, root, e);
    lemma_nodes_upto(flat, flat.len() as int);
    // every item of every record resolves to the image of the flattened value
    assert forall|j: int, m: int|
        0 <= j < e.len() && 0 <= m < record_items(flat[j]).len() implies resolve(
            sh,
            #[trigger] record_items(flat[j])[m],
        ) == Ok::<Val, Seq<char>>(image(flat, e, visited(g, None, e[j])[m])) by {
        let v = e[j];
        let w = visited(g, None, v);
        match v {
            Val::Array(id) => {
                assert(node_in(g, g[id as int]));
                assert(record_items(flat[j])[m] == link(e, w[m]));
                assert(val_in(g, w[m]));
                lemma_link_resolves(g, root, e, w[m]);
            },
            Val::Object(id) => {
                let es = g[id as int]->Object_0;
                assert(node_in(g, g[id as int]));
                lemma_kept_all(es);
                assert(record_items(flat[j])[m] == link(e, es[m].1));
                assert(w[m] == es[m].1);
                assert(val_in(g, es[m].1));
                lemma_link_resolves(g, root, e, w[m]);
            },
            _ => {},
        }
    }
    // no record fails
    assert forall|n: int| 0 <= n <= flat.len() implies #[trigger] records_failure(flat, n) is None by {
        lemma_no_failure(flat, e, g, root, n);
    }
    // the root
    lemma_ident_index_root(e, root);
    // each array or object entry
    assert forall|j: int|
        #![trigger e[j]]
        0 <= j < e.len() && node_of(e[j]) is Some implies {
            &&& image(flat, e, e[j]) == shell(flat, j)
            &&& unflattened(flat)[containers_before(flat, j) as int] == image_node(flat, e, g[node_of(e[j])->0 as int])
        } by {
        let v = e[j];
        lemma_ident_index(e, j);
        assert(is_container(flat[j]));
        let w = visited(g, None, v);
        match v {
            Val::Array(id) => {
                let arr = g[id as int]->Array_0;
                assert(g[id as int] is Array);
                let its = record_items(flat[j]);
                assert(node_for(flat, flat[j]) == NodeV::Array(its.map_values(|it: JsonTree| resolve(sh, it)->Ok_0)));
                let got = its.map_values(|it: JsonTree| resolve(sh, it)->Ok_0);
                let want = arr.map_values(|c: Val| image(flat, e, c));
                assert(got =~= want) by {
                    assert forall|m: int| 0 <= m < arr.len() implies #[trigger] got[m] == want[m] by {
                        assert(resolve(sh, its[m]) == Ok::<Val, Seq<char>>(image(flat, e, w[m])));
                    }
                }
            },
            Val::Object(id) => {
                let es = g[id as int]->Object_0;
                assert(g[id as int] is Object);
                assert(node_in(g, g[id as int]));
                lemma_kept_all(es);
                let rt = flat[j]->Object_0;
                let mapped = rt.map_values(|q: (Seq<char>, JsonTree)| (q.0, resolve(sh, q.1)->Ok_0));
                let want = es.map_values(|q: (Seq<char>, Val)| (q.0, image(flat, e, q.1)));
                assert(mapped =~= want) by {
                    assert forall|m: int| 0 <= m < es.len() implies #[trigger] mapped[m] == want[m] by {
                        assert(record_items(flat[j])[m] == rt[m].1);
                        assert(resolve(sh, record_items(flat[j])[m]) == Ok::<Val, Seq<char>>(image(flat, e, w[m])));
                    }
                }
                assert(keys_distinct(want)) by {
                    assert forall|a: int, b: int| 0 <= a < b < want.len() implies want[a].0 != want[b].0 by {
                        assert(es[a].0 != es[b].0);
                    }
                }
                lemma_inserted_all_distinct(want);
            },
            _ => {},
        }
    }
}

/// The root's image is the value its first record stands for.
proof fn lemma_ident_index_root(e: Seq<Val>, root: Val)
    requires
        idents_distinct(e),
        e.len() > 0,
        e[0] == root,
    ensures
        ident(root) is Some ==> ident_index(e, ident(root)->0) == 0,
{
    if ident(root) is Some {
        lemma_ident_index(e, 0);
    }
}

/// No record of a flatted array of a graph fails to read back.
proof fn lemma_no_failure(flat: Seq<JsonTree>, e: Seq<Val>, g: Seq<NodeV>, root: Val, n: int)
    requires
        flat == records(g, None, e),
        0 <= n <= flat.len(),
        forall|j: int, m: int|
            0 <= j < e.len() && 0 <= m < record_items(flat[j]).len() ==> resolve(
                shells(flat),
                #[trigger] record_items(flat[j])[m],
            ) is Ok,
    ensures
        records_failure(flat, n) is None,
    decreases n,
{
    if n > 0 {
        lemma_no_failure(flat, e, g, root, n - 1);
        let its = record_items(flat[n - 1]);
        lemma_items_ok(shells(flat), its, its.len() as int, flat, n - 1);
    }
}

/// Items that all resolve do not fail.
proof fn lemma_items_ok(sh: Seq<Val>, its: Seq<JsonTree>, m: int, flat: Seq<JsonTree>, j: int)
    requires
        0 <= m <= its.len(),
        0 <= j < flat.len(),
        its == record_items(flat[j]),
        sh == shells(flat),
        forall|q: int| 0 <= q < its.len() ==> resolve(sh, #[trigger] record_items(flat[j])[q]) is Ok,
    ensures
        items_failure(sh, its, m) is None,
    decreases m,
{
    if m > 0 {
        lemma_items_ok(sh, its, m - 1, flat, j);
        assert(resolve(sh, record_items(flat[j])[m - 1]) is Ok);
    }
}

/// A tree whose nodes stand at `lo` in `g`, none of them on the path,
/// unfolds to itself.
proof fn lemma_unfold_tree(g: Seq<NodeV>, t: JsonTree, lo: nat, on_path: Seq<bool>)
    requires
        keys_unique(t),
        lo + containers_in(t) <= g.len(),
        g.subrange(lo as int, (lo + containers_in(t)) as int) == tree_nodes(t, lo),
        on_path.len() == g.len(),
        forall|i: int| lo <= i < lo + containers_in(t) ==> !on_path[i],
    ensures
        unfold(g, tree_val(t, lo), on_path) == t,
    decreases t, 0nat,
{
    lemma_tree_nodes_len(t, lo);
    match t {
        JsonTree::Array(items) => {
            let n = items.len();
            let c = containers_items(items, n);
            let id = lo + c;
            lemma_items_nodes_len(items, lo, n);
            assert(g[id as int] == g.subrange(lo as int, (lo + containers_in(t)) as int)[c as int]);
            let vals = item_vals(items, lo);
            let inner = on_path.update(id as int, true);
            assert forall|k: int| 0 <= k < n implies unfold(g, #[trigger] vals[k], inner) == items[k] by {
                let lo_k = lo + containers_items(items, k as nat);
                lemma_items_nodes_at(items, lo, n, k as nat);
                lemma_items_unique_at(items, n, k as nat);
                assert(g.subrange(lo_k as int, (lo_k + containers_in(items[k])) as int) =~= items_nodes_sub(
                    g,
                    lo,
                    containers_items(items, k as nat),
                    containers_items(items, (k + 1) as nat),
                ));
                assert(items_nodes_sub(
                    g,
                    lo,
                    containers_items(items, k as nat),
                    containers_items(items, (k + 1) as nat),
                ) =~= tree_nodes(t, lo).subrange(
                    containers_items(items, k as nat) as int,
                    containers_items(items, (k + 1) as nat) as int,
                ));
                assert(tree_nodes(t, lo).subrange(
                    containers_items(items, k as nat) as int,
                    containers_items(items, (k + 1) as nat) as int,
                ) =~= crate::tree::items_nodes(items, lo, n).subrange(
                    containers_items(items, k as nat) as int,
                    containers_items(items, (k + 1) as nat) as int,
                ));
                lemma_unfold_tree(g, items[k], lo_k, inner);
            }
            let u = unfold(g, tree_val(t, lo), on_path);
            assert(u->Array_0 =~= items);
        },
        JsonTree::Object(es) => {
            let n = es.len();
            let c = containers_members(es, n);
            let id = lo + c;
            lemma_members_nodes_len(es, lo, n);
            assert(g[id as int] == g.subrange(lo as int, (lo + containers_in(t)) as int)[c as int]);
            let vals = member_vals(es, lo);
            let p = paired(es, vals);
            assert(keys_distinct(p));
            lemma_inserted_all_distinct(p);
            let inner = on_path.update(id as int, true);
            assert forall|k: int| 0 <= k < n implies unfold(g, #[trigger] vals[k], inner) == es[k].1 by {
                let lo_k = lo + containers_members(es, k as nat);
                lemma_members_nodes_at(es, lo, n, k as nat);
                lemma_members_unique_at(es, n, k as nat);
                assert(g.subrange(lo_k as int, (lo_k + containers_in(es[k].1)) as int) =~= items_nodes_sub(
                    g,
                    lo,
                    containers_members(es, k as nat),
                    containers_members(es, (k + 1) as nat),
                ));
                assert(items_nodes_sub(
                    g,
                    lo,
                    containers_members(es, k as nat),
                    containers_members(es, (k + 1) as nat),
                ) =~= tree_nodes(t, lo).subrange(
                    containers_members(es, k as nat) as int,
                    containers_members(es, (k + 1) as nat) as int,
                ));
                assert(tree_nodes(t, lo).subrange(
                    containers_members(es, k as nat) as int,
                    containers_members(es, (k + 1) as nat) as int,
                ) =~= crate::tree::members_nodes(es, lo, n).subrange(
                    containers_members(es, k as nat) as int,
                    containers_members(es, (k + 1) as nat) as int,
                ));
                lemma_unfold_tree(g, es[k].1, lo_k, inner);
            }
            let u = unfold(g, tree_val(t, lo), on_path);
            assert(u->Object_0 =~= es);
        },
        _ => {},
    }
}

/// The nodes of `g` from `lo + a` up to `lo + b`.
spec fn items_nodes_sub(g: Seq<NodeV>, lo: nat, a: nat, b: nat) -> Seq<NodeV> {
    g.subrange((lo + a) as int, (lo + b) as int)
}

/// Building a JSON tree into a graph and unfolding what was built gives the
/// tree back, when no object of the tree repeats a key.
pub proof fn law_tree_roundtrip(pre: Seq<NodeV>, t: JsonTree)
    requires
        keys_unique(t),
    ensures
        unfold(
            pre + tree_nodes(t, pre.len()),
            tree_val(t, pre.len()),
            Seq::new((pre + tree_nodes(t, pre.len())).len(), |i: int| false),
        ) == t,
{
    let g = pre + tree_nodes(t, pre.len());
    lemma_tree_nodes_len(t, pre.len());
    assert(g.subrange(pre.len() as int, (pre.len() + containers_in(t)) as int) =~= tree_nodes(t, pre.len()));
    lemma_unfold_tree(g, t, pre.len(), Seq::new(g.len(), |i: int| false));
}

/// Entry `n` of a flatted order is the next value that the visits of the
/// entries before it discover.
proof fn lemma_flat_order_entry(g: Seq<NodeV>, rep: Option<Seq<Seq<char>>>, root: Val, e: Seq<Val>, n: nat)
    requires
        flat_order(g, rep, root, e),
        n < e.len(),
    ensures
        discover(seq![root], visits(g, rep, e, n)).len() > n,
        e[n as int] == discover(seq![root], visits(g, rep, e, n))[n as int],
{
    let a = visits(g, rep, e, n);
    let all = visits(g, rep, e, e.len());
    lemma_visits_grow(g, rep, e, n, e.len());
    let tail = all.skip(a.len() as int);
    lemma_discover_append(seq![root], a, tail);
    lemma_discover_prefix(discover(seq![root], a), tail);
    assert(discover(seq![root], a).len() > n);
}

/// Two flatted orders of one root agree on their first `n` entries.
proof fn lemma_flat_orders_agree(
    g: Seq<NodeV>,
    rep: Option<Seq<Seq<char>>>,
    root: Val,
    e1: Seq<Val>,
    e2: Seq<Val>,
    n: nat,
)
    requires
        flat_order(g, rep, root, e1),
        flat_order(g, rep, root, e2),
        n <= e1.len(),
        n <= e2.len(),
    ensures
        e1.take(n as int) == e2.take(n as int),
    decreases n,
{
    if n > 0 {
        let k = (n - 1) as nat;
        lemma_flat_orders_agree(g, rep, root, e1, e2, k);
        assert(is_prefix(e1.take(k as int), e1));
        assert(is_prefix(e1.take(k as int), e2));
        crate::flatten::lemma_visits_prefix(g, rep, e1.take(k as int), e1, k);
        crate::flatten::lemma_visits_prefix(g, rep, e1.take(k as int), e2, k);
        lemma_flat_order_entry(g, rep, root, e1, k);
        lemma_flat_order_entry(g, rep, root, e2, k);
        assert(e1.take(n as int) =~= e2.take(n as int)) by {
            assert forall|j: int| 0 <= j < n implies e1[j] == e2[j] by {
                if j < k {
                    assert(e1.take(k as int)[j] == e2.take(k as int)[j]);
                }
            }
        }
    }
}

/// The flatted order of a root is unique: the graph, the replacer and the
/// root decide every entry, so the flatted text is decided too.
pub proof fn law_flat_order_unique(
    g: Seq<NodeV>,
    rep: Option<Seq<Seq<char>>>,
    root: Val,
    e1: Seq<Val>,
    e2: Seq<Val>,
)
    requires
        flat_order(g, rep, root, e1),
        flat_order(g, rep, root, e2),
    ensures
        e1 == e2,
{
    if e1.len() < e2.len() {
        lemma_flat_orders_agree(g, rep, root, e1, e2, e1.len());
        assert(is_prefix(e1, e2)) by {
            assert forall|j: int| 0 <= j < e1.len() implies #[trigger] e2[j] == e1[j] by {
                assert(e1.take(e1.len() as int)[j] == e2.take(e1.len() as int)[j]);
            }
        }
        assert(is_prefix(e1, e1));
        crate::flatten::lemma_visits_prefix(g, rep, e1, e2, e1.len());
        assert(discover(seq![root], visits(g, rep, e2, e1.len())).len() > e1.len());
        assert(false);
    } else if e2.len() < e1.len() {
        lemma_flat_orders_agree(g, rep, root, e2, e1, e2.len());
        assert(is_prefix(e2, e1)) by {
            assert forall|j: int| 0 <= j < e2.len() implies #[trigger] e1[j] == e2[j] by {
                assert(e2.take(e2.len() as int)[j] == e1.take(e2.len() as int)[j]);
            }
        }
        crate::flatten::lemma_visits_prefix(g, rep, e2, e1, e2.len());
        assert(discover(seq![root], visits(g, rep, e1, e2.len())).len() > e2.len());
        assert(false);
    } else {
        lemma_flat_orders_agree(g, rep, root, e1, e2, e1.len());
        assert(e1 =~= e1.take(e1.len() as int));
        assert(e2 =~= e2.take(e2.len() as int));
    }
}

/// In a flatted array each string, array and object is stored once, and each
/// one met inside an entry has an entry of its own, which the link names.
pub proof fn law_stored_once(g: Seq<NodeV>, rep: Option<Seq<Seq<char>>>, root: Val, e: Seq<Val>)
    requires
        graph_wf(g),
        val_in(g, root),
        flat_order(g, rep, root, e),
    ensures
        idents_distinct(e),
        forall|j: int, m: int|
            0 <= j < e.len() && 0 <= m < visited(g, rep, e[j]).len() && ident(visited(g, rep, e[j])[m]) is Some
                ==> has_ident(e, ident(#[trigger] visited(g, rep, e[j])[m])->0),
{
    lemma_entries(g, rep, root, e);
}

/// `to_json` and `stringify_simple` write the same flatted array: the text is
/// the compact text of the JSON array.
pub proof fn law_to_json_is_the_text(g: Seq<NodeV>, root: Val, e1: Seq<Val>, e2: Seq<Val>)
    requires
        flat_order(g, None, root, e1),
        flat_order(g, None, root, e2),
    ensures
        stringified(g, None, e2, None) == compact(JsonTree::Array(records(g, None, e1))),
{
    law_flat_order_unique(g, None, root, e1, e2);
}

/// A member's key survives the whitelist exactly when it is listed.
proof fn lemma_kept_members_keys(ks: Seq<Seq<char>>, es: Seq<(Seq<char>, Val)>, k: Seq<char>)
    ensures
        has_key(kept_members(Some(ks), es), k) <==> (has_key(es, k) && ks.contains(k)),
    decreases es.len(),
{
    if es.len() > 0 {
        let p = es.drop_last();
        lemma_kept_members_keys(ks, p, k);
        let r = kept_members(Some(ks), p);
        let out = kept_members(Some(ks), es);
        if has_key(out, k) {
            let i = choose|i: int| 0 <= i < out.len() && out[i].0 == k;
            if i < r.len() {
                assert(out[i] == r[i]);
                assert(has_key(r, k));
                let j = choose|j: int| 0 <= j < p.len() && p[j].0 == k;
                assert(es[j] == p[j]);
            } else {
                assert(out[i] == es.last());
                assert(es[es.len() - 1].0 == k);
            }
        }
        if has_key(es, k) && ks.contains(k) {
            let j = choose|j: int| 0 <= j < es.len() && es[j].0 == k;
            if j < p.len() {
                assert(p[j] == es[j]);
                assert(has_key(r, k));
                let i = choose|i: int| 0 <= i < r.len() && r[i].0 == k;
                assert(out[i] == r[i]);
            } else {
                assert(out[out.len() - 1] == es.last());
            }
        }
    }
}

/// With a whitelist, the record of an object holds a member under key `k`
/// exactly when the object has a member under `k` and `k` is one of the listed
/// keys, wherever it stands in the list; without one, every member is kept.
pub proof fn law_replacer_keeps_listed(
    g: Seq<NodeV>,
    rep: Option<Seq<Seq<char>>>,
    e: Seq<Val>,
    id: nat,
    k: Seq<char>,
)
    requires
        id < g.len(),
        g[id as int] is Object,
    ensures
        record(g, rep, e, Val::Object(id)) is Object,
        has_key(record(g, rep, e, Val::Object(id))->Object_0, k) <==> (has_key(g[id as int]->Object_0, k) && match rep {
            None => true,
            Some(ks) => ks.contains(k),
        }),
{
    let es = g[id as int]->Object_0;
    let rec = record(g, rep, e, Val::Object(id))->Object_0;
    let km = kept_members(rep, es);
    assert(rec.len() == km.len());
    assert forall|i: int| 0 <= i < rec.len() implies #[trigger] rec[i].0 == km[i].0 by {}
    match rep {
        None => {
            lemma_kept_all(es);
        },
        Some(ks) => {
            lemma_kept_members_keys(ks, es, k);
        },
    }
    if has_key(rec, k) {
        let i = choose|i: int| 0 <= i < rec.len() && rec[i].0 == k;
        assert(km[i].0 == k);
    }
    if has_key(km, k) {
        let i = choose|i: int| 0 <= i < km.len() && km[i].0 == k;
        assert(rec[i].0 == k);
    }
}

} // verus!
