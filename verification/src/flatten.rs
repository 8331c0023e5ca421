//! Writing a value graph as a flatted array.
//!
//! The flatted array lists entries: the root first, then every string, array
//! and object in the order in which they are first met while the entries are
//! visited in turn. An entry that is an array or an object is written with
//! every string, array or object inside it replaced by the decimal text of its
//! entry's position; a string entry is written as the string itself.
use vstd::prelude::*;
use vstd::hash_map::StringHashMap;
use crate::text::{decimal, usize_decimal};
use crate::json::{Json, JsonTree, Number};
use crate::graph::{Graph, Value, Val, NodeV, val_in, node_of, graph_wf, node_in};
use crate::error::Error;

verus! {

/// The optional key whitelist of `stringify`, as in `JSON.stringify`.
pub type Replacer<'a> = Option<&'a [&'a str]>;

/// The whitelist's keys.
pub open spec fn replacer_view(r: Replacer) -> Option<Seq<Seq<char>>> {
    match r {
        None => None,
        Some(ks) => Some(ks@.map_values(|k: &str| k@)),
    }
}

/// Whether a member with key `k` is written.
pub open spec fn kept(rep: Option<Seq<Seq<char>>>, k: Seq<char>) -> bool {
    match rep {
        None => true,
        Some(ks) => ks.contains(k),
    }
}

/// The members whose keys are kept, in order.
pub open spec fn kept_members(rep: Option<Seq<Seq<char>>>, es: Seq<(Seq<char>, Val)>) -> Seq<(Seq<char>, Val)>
    decreases es.len(),
{
    if es.len() == 0 {
        Seq::empty()
    } else {
        let r = kept_members(rep, es.drop_last());
        if kept(rep, es.last().0) {
            r.push(es.last())
        } else {
            r
        }
    }
}

/// The values of members.
pub open spec fn member_values(es: Seq<(Seq<char>, Val)>) -> Seq<Val> {
    es.map_values(|m: (Seq<char>, Val)| m.1)
}

/// What flatted stores once and refers to by position: a string by its text,
/// an array or object by its node.
pub ghost enum Ident {
    Text(Seq<char>),
    Node(nat),
}

/// The identity of a string, array or object.
pub open spec fn ident(v: Val) -> Option<Ident> {
    match v {
        Val::Str(s) => Some(Ident::Text(s)),
        Val::Array(id) => Some(Ident::Node(id)),
        Val::Object(id) => Some(Ident::Node(id)),
        _ => None,
    }
}

/// Some value of `e` has identity `k`.
pub open spec fn has_ident(e: Seq<Val>, k: Ident) -> bool {
    exists|j: int| 0 <= j < e.len() && ident(e[j]) == Some(k)
}

/// The position of the value with identity `k`.
pub open spec fn ident_index(e: Seq<Val>, k: Ident) -> int {
    choose|j: int| 0 <= j < e.len() && ident(e[j]) == Some(k)
}

/// No two values of `e` have the same identity.
pub open spec fn idents_distinct(e: Seq<Val>) -> bool {
    forall|j: int, k: int| 0 <= j < k < e.len() && ident(e[j]) is Some ==> ident(e[j]) != ident(e[k])
}

/// The values that flatted visits inside an entry: every item of an array,
/// the values of an object's kept members, nothing for other values.
pub open spec fn visited(g: Seq<NodeV>, rep: Option<Seq<Seq<char>>>, v: Val) -> Seq<Val> {
    match v {
        Val::Array(id) => g[id as int]->Array_0,
        Val::Object(id) => member_values(kept_members(rep, g[id as int]->Object_0)),
        _ => Seq::empty(),
    }
}

/// The values visited inside the first `n` entries, one entry after the other.
pub open spec fn visits(g: Seq<NodeV>, rep: Option<Seq<Seq<char>>>, e: Seq<Val>, n: nat) -> Seq<Val>
    decreases n,
{
    if n == 0 || n > e.len() {
        Seq::empty()
    } else {
        visits(g, rep, e, (n - 1) as nat) + visited(g, rep, e[n - 1])
    }
}

/// `seen`, followed by each string, array or object of `t` whose identity is
/// not met before, in the order of `t`.
pub open spec fn discover(seen: Seq<Val>, t: Seq<Val>) -> Seq<Val>
    decreases t.len(),
{
    if t.len() == 0 {
        seen
    } else {
        let s = discover(seen, t.drop_last());
        let x = t.last();
        if ident(x) is Some && !has_ident(s, ident(x)->0) {
            s.push(x)
        } else {
            s
        }
    }
}

/// `e` lists the entries of the flatted array of `root`: the root first, then
/// every string, array and object in the order of their first visit, and each
/// entry is met before its own turn to be visited comes.
pub open spec fn flat_order(g: Seq<NodeV>, rep: Option<Seq<Seq<char>>>, root: Val, e: Seq<Val>) -> bool {
    &&& e.len() > 0
    &&& e[0] == root
    &&& e == discover(seq![root], visits(g, rep, e, e.len()))
    &&& forall|n: nat| n < e.len() ==> #[trigger] discover(seq![root], visits(g, rep, e, n)).len() > n
}

/// A null, boolean or number as JSON.
pub open spec fn primitive(v: Val) -> JsonTree {
    match v {
        Val::Bool(b) => JsonTree::Bool(b),
        Val::Number(n) => JsonTree::Number(n),
        _ => JsonTree::Null,
    }
}

/// How a value inside an entry is written: a string, array or object as the
/// decimal text of its entry's position, anything else as itself.
pub open spec fn link(e: Seq<Val>, v: Val) -> JsonTree {
    match ident(v) {
        Some(k) => JsonTree::String(decimal(ident_index(e, k) as nat)),
        None => primitive(v),
    }
}

/// How an entry is written.
pub open spec fn record(g: Seq<NodeV>, rep: Option<Seq<Seq<char>>>, e: Seq<Val>, v: Val) -> JsonTree {
    match v {
        Val::Array(id) => JsonTree::Array(g[id as int]->Array_0.map_values(|c: Val| link(e, c))),
        Val::Object(id) => JsonTree::Object(
            kept_members(rep, g[id as int]->Object_0).map_values(
                |m: (Seq<char>, Val)| (m.0, link(e, m.1)),
            ),
        ),
        Val::Str(s) => JsonTree::String(s),
        _ => primitive(v),
    }
}

/// The flatted array of the entries `e`.
pub open spec fn records(g: Seq<NodeV>, rep: Option<Seq<Seq<char>>>, e: Seq<Val>) -> Seq<JsonTree> {
    e.map_values(|v: Val| record(g, rep, e, v))
}

// ---- lemmas on discovery ----

/// Discovering `a + b` is discovering `a`, then `b`.
pub proof fn lemma_discover_append(s: Seq<Val>, a: Seq<Val>, b: Seq<Val>)
    ensures
        discover(s, a + b) == discover(discover(s, a), b),
    decreases b.len(),
{
    if b.len() == 0 {
        assert(a + b =~= a);
    } else {
        lemma_discover_append(s, a, b.drop_last());
        assert((a + b).drop_last() =~= a + b.drop_last());
        assert((a + b).last() == b.last());
    }
}

/// Discovering one value.
pub proof fn lemma_discover_one(s: Seq<Val>, x: Val)
    ensures
        discover(s, seq![x]) == (if ident(x) is Some && !has_ident(s, ident(x)->0) {
            s.push(x)
        } else {
            s
        }),
{
    assert(seq![x].drop_last() =~= Seq::<Val>::empty());
    assert(discover(s, Seq::<Val>::empty()) == s);
}

/// Discovery only appends.
pub proof fn lemma_discover_prefix(s: Seq<Val>, t: Seq<Val>)
    ensures
        discover(s, t).len() >= s.len(),
        forall|j: int| 0 <= j < s.len() ==> #[trigger] discover(s, t)[j] == s[j],
    decreases t.len(),
{
    if t.len() > 0 {
        lemma_discover_prefix(s, t.drop_last());
    }
}

/// Discovery keeps identities distinct.
pub proof fn lemma_discover_distinct(s: Seq<Val>, t: Seq<Val>)
    requires
        idents_distinct(s),
    ensures
        idents_distinct(discover(s, t)),
    decreases t.len(),
{
    if t.len() > 0 {
        lemma_discover_distinct(s, t.drop_last());
        let d = discover(s, t.drop_last());
        let x = t.last();
        if ident(x) is Some && !has_ident(d, ident(x)->0) {
            let r = d.push(x);
            assert forall|j: int, k: int| 0 <= j < k < r.len() && ident(r[j]) is Some implies ident(r[j])
                != ident(r[k]) by {
                if k == d.len() {
                    assert(r[j] == d[j]);
                    if ident(r[j]) == ident(r[k]) {
                        assert(ident(d[j]) == Some(ident(x)->0));
                    }
                }
            }
        }
    }
}

/// After discovery, every string, array and object of `t` has an entry, and
/// so does every identity of `s`.
pub proof fn lemma_discover_has(s: Seq<Val>, t: Seq<Val>)
    ensures
        forall|m: int| 0 <= m < t.len() && ident(t[m]) is Some ==> has_ident(discover(s, t), ident(#[trigger] t[m])->0),
        forall|k: Ident| has_ident(s, k) ==> has_ident(discover(s, t), k),
    decreases t.len(),
{
    if t.len() > 0 {
        let p = t.drop_last();
        lemma_discover_has(s, p);
        let d = discover(s, p);
        let r = discover(s, t);
        lemma_discover_prefix(d, seq![t.last()]);
        assert(r.len() >= d.len());
        assert forall|k: Ident| has_ident(d, k) implies has_ident(r, k) by {
            let j = choose|j: int| 0 <= j < d.len() && ident(d[j]) == Some(k);
            assert(r[j] == d[j]);
        }
        assert forall|m: int| 0 <= m < t.len() && ident(t[m]) is Some implies has_ident(r, ident(#[trigger] t[m])->0) by {
            if m < p.len() {
                assert(t[m] == p[m]);
                assert(has_ident(d, ident(p[m])->0));
            } else {
                let x = t.last();
                if !has_ident(d, ident(x)->0) {
                    assert(r[d.len() as int] == x);
                }
            }
        }
        assert forall|k: Ident| has_ident(s, k) implies has_ident(r, k) by {
            assert(has_ident(d, k));
        }
    }
}

/// Every value that discovery adds is a value of `t`.
pub proof fn lemma_discover_from(s: Seq<Val>, t: Seq<Val>)
    ensures
        forall|j: int| s.len() <= j < discover(s, t).len() ==> t.contains(#[trigger] discover(s, t)[j]),
    decreases t.len(),
{
    if t.len() > 0 {
        let p = t.drop_last();
        lemma_discover_from(s, p);
        let d = discover(s, p);
        let r = discover(s, t);
        assert forall|j: int| s.len() <= j < r.len() implies t.contains(#[trigger] r[j]) by {
            if j < d.len() {
                assert(r[j] == d[j]);
                let m = choose|m: int| 0 <= m < p.len() && p[m] == d[j];
                assert(t[m] == p[m]);
            } else {
                assert(r[j] == t.last());
                assert(t[t.len() - 1] == t.last());
            }
        }
    }
}

/// In a sequence with distinct identities, the value with identity `k` sits at
/// `ident_index`.
pub proof fn lemma_ident_index(e: Seq<Val>, j: int)
    requires
        idents_distinct(e),
        0 <= j < e.len(),
        ident(e[j]) is Some,
    ensures
        ident_index(e, ident(e[j])->0) == j,
{
    let k = ident(e[j])->0;
    assert(has_ident(e, k));
    let i = ident_index(e, k);
    if i < j {
        assert(ident(e[i]) != ident(e[j]));
    } else if j < i {
        assert(ident(e[j]) != ident(e[i]));
    }
}

/// `e` is a prefix of `f`.
pub open spec fn is_prefix(e: Seq<Val>, f: Seq<Val>) -> bool {
    e.len() <= f.len() && forall|j: int| 0 <= j < e.len() ==> #[trigger] f[j] == e[j]
}

/// A link to a value whose entry exists already does not change as entries
/// are added.
pub proof fn lemma_link_stable(e: Seq<Val>, f: Seq<Val>, v: Val)
    requires
        is_prefix(e, f),
        idents_distinct(f),
        ident(v) is Some ==> has_ident(e, ident(v)->0),
    ensures
        link(e, v) == link(f, v),
{
    if ident(v) is Some {
        let k = ident(v)->0;
        let j = ident_index(e, k);
        assert(idents_distinct(e)) by {
            assert forall|a: int, b: int| 0 <= a < b < e.len() && ident(e[a]) is Some implies ident(e[a])
                != ident(e[b]) by {
                assert(f[a] == e[a] && f[b] == e[b]);
            }
        }
        lemma_ident_index(e, j);
        assert(f[j] == e[j]);
        lemma_ident_index(f, j);
    }
}

/// The visits of the first `n` entries depend on those entries only.
pub proof fn lemma_visits_prefix(g: Seq<NodeV>, rep: Option<Seq<Seq<char>>>, e: Seq<Val>, f: Seq<Val>, n: nat)
    requires
        is_prefix(e, f),
        n <= e.len(),
    ensures
        visits(g, rep, e, n) == visits(g, rep, f, n),
    decreases n,
{
    if n > 0 {
        lemma_visits_prefix(g, rep, e, f, (n - 1) as nat);
        assert(f[n - 1] == e[n - 1]);
    }
}

/// The visits of `n + 1` entries are those of `n` entries, then those inside
/// entry `n`.
pub proof fn lemma_visits_step(g: Seq<NodeV>, rep: Option<Seq<Seq<char>>>, e: Seq<Val>, n: nat)
    requires
        n < e.len(),
    ensures
        visits(g, rep, e, n + 1) == visits(g, rep, e, n) + visited(g, rep, e[n as int]),
{
}

/// The visits of the first `n` entries contain those inside each of them.
pub proof fn lemma_visits_contain(g: Seq<NodeV>, rep: Option<Seq<Seq<char>>>, e: Seq<Val>, n: nat, j: int)
    requires
        0 <= j < n <= e.len(),
    ensures
        forall|m: int| 0 <= m < visited(g, rep, e[j]).len() ==> visits(g, rep, e, n).contains(
            #[trigger] visited(g, rep, e[j])[m],
        ),
    decreases n,
{
    let w = visited(g, rep, e[j]);
    if j < n - 1 {
        lemma_visits_contain(g, rep, e, (n - 1) as nat, j);
        assert forall|m: int| 0 <= m < w.len() implies visits(g, rep, e, n).contains(#[trigger] w[m]) by {
            let p = visits(g, rep, e, (n - 1) as nat);
            let q = choose|q: int| 0 <= q < p.len() && p[q] == w[m];
            assert(visits(g, rep, e, n)[q] == p[q]);
        }
    } else {
        assert forall|m: int| 0 <= m < w.len() implies visits(g, rep, e, n).contains(#[trigger] w[m]) by {
            let p = visits(g, rep, e, (n - 1) as nat);
            assert(visits(g, rep, e, n)[p.len() + m] == w[m]);
        }
    }
}

// ---- the flattening ----

/// The mathematical form of a list of values.
pub open spec fn vals(v: Seq<Value>) -> Seq<Val> {
    v.map_values(|x: Value| x@)
}

/// The bookkeeping of the entries met so far: `kn[id]` is the entry of node
/// `id` and `ks[s]` the entry of string `s`, when they have one.
pub open spec fn known_ok(kn: Seq<Option<usize>>, ks: Map<Seq<char>, usize>, e: Seq<Val>) -> bool {
    &&& idents_distinct(e)
    &&& forall|id: int| 0 <= id < kn.len() ==> match #[trigger] kn[id] {
        Some(j) => j < e.len() && ident(e[j as int]) == Some(Ident::Node(id as nat)),
        None => !has_ident(e, Ident::Node(id as nat)),
    }
    &&& forall|s: Seq<char>| #[trigger] ks.contains_key(s) ==> ks[s] < e.len() && ident(e[ks[s] as int])
        == Some(Ident::Text(s))
    &&& forall|s: Seq<char>| !(#[trigger] ks.contains_key(s)) ==> !has_ident(e, Ident::Text(s))
    &&& forall|j: int| 0 <= j < e.len() ==> (node_of(#[trigger] e[j]) matches Some(id) ==> id < kn.len())
}

/// Records `v` as the next entry and gives its position.
fn push_known(
    v: Value,
    known_nodes: &mut Vec<Option<usize>>,
    known_strings: &mut StringHashMap<usize>,
    input: &mut Vec<Value>,
) -> (idx: usize)
    requires
        known_ok(old(known_nodes)@, old(known_strings)@, vals(old(input)@)),
        ident(v@) is Some ==> !has_ident(vals(old(input)@), ident(v@)->0),
        node_of(v@) matches Some(id) ==> id < old(known_nodes).len(),
    ensures
        idx == old(input).len(),
        vals(final(input)@) == vals(old(input)@).push(v@),
        known_ok(final(known_nodes)@, final(known_strings)@, vals(final(input)@)),
        final(known_nodes).len() == old(known_nodes).len(),
{
    let idx = input.len();
    let ghost e = vals(input@);
    let ghost vv = v@;
    match &v {
        Value::Array(id) => {
            known_nodes.set(*id, Some(idx));
        },
        Value::Object(id) => {
            known_nodes.set(*id, Some(idx));
        },
        Value::String(s) => {
            known_strings.insert(s.clone(), idx);
        },
        _ => {},
    }
    input.push(v);
    let ghost f = vals(input@);
    assert(f =~= e.push(vv));
    proof {
        assert(idents_distinct(f)) by {
            assert forall|a: int, b: int| 0 <= a < b < f.len() && ident(f[a]) is Some implies ident(f[a])
                != ident(f[b]) by {
                if b == e.len() && ident(f[a]) == ident(f[b]) {
                    assert(ident(e[a]) == Some(ident(vv)->0));
                } else if b < e.len() {
                    assert(f[a] == e[a] && f[b] == e[b]);
                }
            }
        }
        assert forall|k: Ident| has_ident(e, k) implies has_ident(f, k) by {
            let j = choose|j: int| 0 <= j < e.len() && ident(e[j]) == Some(k);
            assert(f[j] == e[j]);
        }
        assert forall|k: Ident| has_ident(f, k) && ident(vv) != Some(k) implies has_ident(e, k) by {
            let j = choose|j: int| 0 <= j < f.len() && ident(f[j]) == Some(k);
            assert(j < e.len());
            assert(f[j] == e[j]);
        }
        assert forall|j: int| 0 <= j < e.len() implies #[trigger] f[j] == e[j] by {}
    }
    idx
}

/// How a value inside an entry is written; a string, array or object met for
/// the first time becomes the next entry.
fn relate(
    v: &Value,
    known_nodes: &mut Vec<Option<usize>>,
    known_strings: &mut StringHashMap<usize>,
    input: &mut Vec<Value>,
) -> (j: Json)
    requires
        known_ok(old(known_nodes)@, old(known_strings)@, vals(old(input)@)),
        node_of(v@) matches Some(id) ==> id < old(known_nodes).len(),
    ensures
        known_ok(final(known_nodes)@, final(known_strings)@, vals(final(input)@)),
        final(known_nodes).len() == old(known_nodes).len(),
        vals(final(input)@) == discover(vals(old(input)@), seq![v@]),
        j@ == link(vals(final(input)@), v@),
{
    let ghost e = vals(input@);
    let ghost t = seq![v@];
    assert(t.drop_last() =~= Seq::<Val>::empty());
    assert(discover(e, t.drop_last()) == e);
    match v {
        Value::Null => Json::Null,
        Value::Bool(b) => Json::Bool(*b),
        Value::Number(n) => Json::Number(n.copy()),
        Value::String(s) => {
            match known_strings.get(s.as_str()) {
                Some(idx) => {
                    let idx = *idx;
                    proof {
                        lemma_ident_index(e, idx as int);
                    }
                    Json::String(usize_decimal(idx))
                },
                None => {
                    let idx = push_known(Value::String(s.clone()), known_nodes, known_strings, input);
                    proof {
                        lemma_ident_index(vals(input@), idx as int);
                    }
                    Json::String(usize_decimal(idx))
                },
            }
        },
        Value::Array(id) => {
            match known_nodes[*id] {
                Some(idx) => {
                    proof {
                        lemma_ident_index(e, idx as int);
                    }
                    Json::String(usize_decimal(idx))
                },
                None => {
                    let idx = push_known(Value::Array(*id), known_nodes, known_strings, input);
                    proof {
                        lemma_ident_index(vals(input@), idx as int);
                    }
                    Json::String(usize_decimal(idx))
                },
            }
        },
        Value::Object(id) => {
            match known_nodes[*id] {
                Some(idx) => {
                    proof {
                        lemma_ident_index(e, idx as int);
                    }
                    Json::String(usize_decimal(idx))
                },
                None => {
                    let idx = push_known(Value::Object(*id), known_nodes, known_strings, input);
                    proof {
                        lemma_ident_index(vals(input@), idx as int);
                    }
                    Json::String(usize_decimal(idx))
                },
            }
        },
    }
}

/// Whether a member with key `key` is written.
fn is_kept(replacer: Replacer, key: &str) -> (r: bool)
    ensures
        r == kept(replacer_view(replacer), key@),
{
    match replacer {
        None => true,
        Some(list) => {
            let ghost ks = list@.map_values(|k: &str| k@);
            let mut i: usize = 0;
            while i < list.len()
                invariant
                    i <= list.len(),
                    ks == list@.map_values(|k: &str| k@),
                    replacer_view(replacer) == Some(ks),
                    forall|m: int| 0 <= m < i ==> ks[m] != key@,
                decreases list.len() - i,
            {
                if crate::text::str_equal(list[i], key) {
                    assert(ks[i as int] == key@);
                    assert(ks.contains(key@));
                    assert(replacer_view(replacer) == Some(ks));
                    return true;
                }
                i += 1;
            }
            assert(!ks.contains(key@));
            false
        },
    }
}

/// An entry's record does not change as entries are added, once every
/// string, array and object inside it has its entry.
pub proof fn lemma_record_stable(g: Seq<NodeV>, rep: Option<Seq<Seq<char>>>, e: Seq<Val>, f: Seq<Val>, v: Val)
    requires
        is_prefix(e, f),
        idents_distinct(f),
        forall|m: int| 0 <= m < visited(g, rep, v).len() && ident(visited(g, rep, v)[m]) is Some ==> has_ident(
            e,
            ident(#[trigger] visited(g, rep, v)[m])->0,
        ),
    ensures
        record(g, rep, e, v) == record(g, rep, f, v),
{
    let w = visited(g, rep, v);
    match v {
        Val::Array(id) => {
            let arr = g[id as int]->Array_0;
            assert forall|m: int| 0 <= m < arr.len() implies link(e, arr[m]) == link(f, arr[m]) by {
                assert(w[m] == arr[m]);
                lemma_link_stable(e, f, arr[m]);
            }
            assert(arr.map_values(|c: Val| link(e, c)) =~= arr.map_values(|c: Val| link(f, c)));
        },
        Val::Object(id) => {
            let km = kept_members(rep, g[id as int]->Object_0);
            assert forall|m: int| 0 <= m < km.len() implies link(e, km[m].1) == link(f, km[m].1) by {
                assert(w[m] == km[m].1);
                lemma_link_stable(e, f, km[m].1);
            }
            assert(km.map_values(|p: (Seq<char>, Val)| (p.0, link(e, p.1))) =~= km.map_values(
                |p: (Seq<char>, Val)| (p.0, link(f, p.1)),
            ));
        },
        _ => {},
    }
}

/// Every kept member is a member.
pub proof fn lemma_kept_members_from(rep: Option<Seq<Seq<char>>>, es: Seq<(Seq<char>, Val)>)
    ensures
        forall|m: int| 0 <= m < kept_members(rep, es).len() ==> es.contains(#[trigger] kept_members(rep, es)[m]),
    decreases es.len(),
{
    if es.len() > 0 {
        let p = es.drop_last();
        lemma_kept_members_from(rep, p);
        let k = kept_members(rep, es);
        assert forall|m: int| 0 <= m < k.len() implies es.contains(#[trigger] k[m]) by {
            let kp = kept_members(rep, p);
            if m < kp.len() {
                assert(k[m] == kp[m]);
                let q = choose|q: int| 0 <= q < p.len() && p[q] == kp[m];
                assert(es[q] == p[q]);
            } else {
                assert(k[m] == es.last());
                assert(es[es.len() - 1] == es.last());
            }
        }
    }
}

/// The values visited inside a value of a well-formed graph lie in the graph.
pub proof fn lemma_visited_in(g: Seq<NodeV>, rep: Option<Seq<Seq<char>>>, v: Val)
    requires
        graph_wf(g),
        val_in(g, v),
    ensures
        forall|m: int| 0 <= m < visited(g, rep, v).len() ==> val_in(g, #[trigger] visited(g, rep, v)[m]),
{
    match v {
        Val::Array(id) => {
            assert(node_in(g, g[id as int]));
        },
        Val::Object(id) => {
            let es = g[id as int]->Object_0;
            assert(node_in(g, g[id as int]));
            lemma_kept_members_from(rep, es);
            let km = kept_members(rep, es);
            assert forall|m: int| 0 <= m < member_values(km).len() implies val_in(g, #[trigger] member_values(km)[m]) by {
                let q = choose|q: int| 0 <= q < es.len() && es[q] == km[m];
                assert(val_in(g, es[q].1));
            }
        },
        _ => {},
    }
}

/// Writes the entry `v`: an array's items or an object's kept members, each
/// as its link, or a string or primitive as itself.
fn transform(
    g: &Graph,
    v: &Value,
    replacer: Replacer,
    known_nodes: &mut Vec<Option<usize>>,
    known_strings: &mut StringHashMap<usize>,
    input: &mut Vec<Value>,
) -> (j: Json)
    requires
        g.wf(),
        val_in(g@, v@),
        known_ok(old(known_nodes)@, old(known_strings)@, vals(old(input)@)),
        old(known_nodes).len() == g@.len(),
        forall|m: int| 0 <= m < old(input).len() ==> val_in(g@, #[trigger] vals(old(input)@)[m]),
    ensures
        known_ok(final(known_nodes)@, final(known_strings)@, vals(final(input)@)),
        final(known_nodes).len() == old(known_nodes).len(),
        forall|m: int| 0 <= m < final(input).len() ==> val_in(g@, #[trigger] vals(final(input)@)[m]),
        vals(final(input)@) == discover(vals(old(input)@), visited(g@, replacer_view(replacer), v@)),
        j@ == record(g@, replacer_view(replacer), vals(final(input)@), v@),
{
    let ghost rep = replacer_view(replacer);
    let ghost e0 = vals(input@);
    proof {
        lemma_visited_in(g@, rep, v@);
    }
    match v {
        Value::Array(id) => {
            let id = *id;
            let n = g.array_len(id);
            let ghost arr = g@[id as int]->Array_0;
            let mut items: Vec<Json> = Vec::new();
            let mut t: usize = 0;
            assert(arr.take(0) =~= Seq::<Val>::empty());
            while t < n
                invariant
                    t <= n,
                    n == arr.len(),
                    arr == g@[id as int]->Array_0,
                    arr == visited(g@, rep, v@),
                    g.wf(),
                    id < g@.len(),
                    g@[id as int] is Array,
                    forall|m: int| 0 <= m < arr.len() ==> val_in(g@, #[trigger] arr[m]),
                    known_ok(known_nodes@, known_strings@, vals(input@)),
                    known_nodes.len() == g@.len(),
                    forall|m: int| 0 <= m < input.len() ==> val_in(g@, #[trigger] vals(input@)[m]),
                    vals(input@) == discover(e0, arr.take(t as int)),
                    items.len() == t,
                    forall|m: int| 0 <= m < t ==> (#[trigger] items@[m])@ == link(vals(input@), arr[m]),
                decreases n - t,
            {
                let c = g.array_item(id, t);
                assert(val_in(g@, arr[t as int]));
                let ghost before = vals(input@);
                let j = relate(c, known_nodes, known_strings, input);
                let ghost after = vals(input@);
                proof {
                    assert(arr.take(t + 1) =~= arr.take(t as int) + seq![arr[t as int]]);
                    lemma_discover_append(e0, arr.take(t as int), seq![arr[t as int]]);
                    lemma_discover_prefix(before, seq![arr[t as int]]);
                    lemma_discover_one(before, arr[t as int]);
                    lemma_discover_has(e0, arr.take(t as int));
                    assert forall|m: int| 0 <= m < t implies (#[trigger] items@[m])@ == link(after, arr[m]) by {
                        assert(arr.take(t as int)[m] == arr[m]);
                        lemma_link_stable(before, after, arr[m]);
                    }
                    assert forall|m: int| 0 <= m < input.len() implies val_in(g@, #[trigger] vals(input@)[m]) by {
                        if m < before.len() {
                            assert(after[m] == before[m]);
                        } else {
                            assert(after[m] == arr[t as int]);
                        }
                    }
                }
                items.push(j);
                t += 1;
            }
            assert(arr.take(n as int) =~= arr);
            let ghost fin = vals(input@);
            let r = Json::Array(items);
            assert(r@->Array_0 =~= arr.map_values(|c: Val| link(fin, c))) by {
                assert forall|m: int| 0 <= m < arr.len() implies r@->Array_0[m] == link(fin, arr[m]) by {
                    assert(items@[m]@ == link(fin, arr[m]));
                }
            }
            r
        },
        Value::Object(id) => {
            let id = *id;
            let n = g.object_size(id);
            let ghost es = g@[id as int]->Object_0;
            let mut entries: Vec<(String, Json)> = Vec::new();
            let mut t: usize = 0;
            assert(es.take(0) =~= Seq::<(Seq<char>, Val)>::empty());
            assert(member_values(kept_members(rep, es.take(0))) =~= Seq::<Val>::empty());
            while t < n
                invariant
                    t <= n,
                    n == es.len(),
                    es == g@[id as int]->Object_0,
                    rep == replacer_view(replacer),
                    g.wf(),
                    id < g@.len(),
                    g@[id as int] is Object,
                    forall|m: int| 0 <= m < es.len() ==> val_in(g@, #[trigger] es[m].1),
                    known_ok(known_nodes@, known_strings@, vals(input@)),
                    known_nodes.len() == g@.len(),
                    forall|m: int| 0 <= m < input.len() ==> val_in(g@, #[trigger] vals(input@)[m]),
                    vals(input@) == discover(e0, member_values(kept_members(rep, es.take(t as int)))),
                    entries.len() == kept_members(rep, es.take(t as int)).len(),
                    forall|m: int| 0 <= m < entries.len() ==> ((#[trigger] entries@[m]).0@, entries@[m].1@) == (
                        kept_members(rep, es.take(t as int))[m].0,
                        link(vals(input@), kept_members(rep, es.take(t as int))[m].1),
                    ),
                decreases n - t,
            {
                proof {
                    assert(node_in(g@, g@[id as int]));
                }
                let (key, c) = g.object_member(id, t);
                let ghost km = kept_members(rep, es.take(t as int));
                assert(es.take(t + 1).drop_last() =~= es.take(t as int));
                assert(es.take(t + 1).last() == es[t as int]);
                if is_kept(replacer, key.as_str()) {
                    assert(kept_members(rep, es.take(t + 1)) == km.push(es[t as int]));
                    assert(member_values(km.push(es[t as int])) =~= member_values(km) + seq![es[t as int].1]);
                    assert(val_in(g@, es[t as int].1));
                    let ghost before = vals(input@);
                    let j = relate(c, known_nodes, known_strings, input);
                    let ghost after = vals(input@);
                    proof {
                        lemma_discover_append(e0, member_values(km), seq![es[t as int].1]);
                        lemma_discover_prefix(before, seq![es[t as int].1]);
                        lemma_discover_one(before, es[t as int].1);
                        lemma_discover_has(e0, member_values(km));
                        assert forall|m: int| 0 <= m < entries.len() implies ((#[trigger] entries@[m]).0@, entries@[m].1@)
                            == (km[m].0, link(after, km[m].1)) by {
                            assert(member_values(km)[m] == km[m].1);
                            lemma_link_stable(before, after, km[m].1);
                        }
                        assert forall|m: int| 0 <= m < input.len() implies val_in(g@, #[trigger] vals(input@)[m]) by {
                            if m < before.len() {
                                assert(after[m] == before[m]);
                            } else {
                                assert(after[m] == es[t as int].1);
                            }
                        }
                    }
                    entries.push((key.clone(), j));
                } else {
                    assert(kept_members(rep, es.take(t + 1)) == km);
                }
                t += 1;
            }
            assert(es.take(n as int) =~= es);
            let ghost fin = vals(input@);
            let ghost km = kept_members(rep, es);
            let r = Json::Object(entries);
            assert(r@->Object_0 =~= km.map_values(|p: (Seq<char>, Val)| (p.0, link(fin, p.1)))) by {
                assert forall|m: int| 0 <= m < km.len() implies r@->Object_0[m] == (km[m].0, link(fin, km[m].1)) by {
                    assert((entries@[m].0@, entries@[m].1@) == (km[m].0, link(fin, km[m].1)));
                }
            }
            r
        },
        Value::Null => Json::Null,
        Value::Bool(b) => Json::Bool(*b),
        Value::Number(n) => Json::Number(n.copy()),
        Value::String(s) => Json::String(s.clone()),
    }
}

/// The entries of the flatted array of `root`, each written as its record.
pub fn flatten(g: &Graph, root: &Value, replacer: Replacer) -> (out: Vec<Json>)
    requires
        g.wf(),
        val_in(g@, root@),
    ensures
        exists|e: Seq<Val>|
            #![trigger flat_order(g@, replacer_view(replacer), root@, e)]
            flat_order(g@, replacer_view(replacer), root@, e) && out@.map_values(|j: Json| j@)
                == records(g@, replacer_view(replacer), e),
{
    let ghost rep = replacer_view(replacer);
    let mut known_nodes: Vec<Option<usize>> = Vec::new();
    let count = g.node_count();
    while known_nodes.len() < count
        invariant
            known_nodes.len() <= count,
            forall|id: int| 0 <= id < known_nodes.len() ==> known_nodes@[id] is None,
        decreases count - known_nodes.len(),
    {
        known_nodes.push(None);
    }
    let mut known_strings: StringHashMap<usize> = StringHashMap::new();
    let mut input: Vec<Value> = Vec::new();
    proof {
        assert(known_ok(known_nodes@, known_strings@, vals(input@))) by {
            assert(vals(input@) =~= Seq::<Val>::empty());
            assert forall|k: Ident| !has_ident(vals(input@), k) by {}
        }
    }
    push_known(root.clone(), &mut known_nodes, &mut known_strings, &mut input);
    let ghost root_v = root@;
    proof {
        assert(vals(input@) =~= seq![root_v]);
        assert(visits(g@, rep, vals(input@), 0) =~= Seq::<Val>::empty());
        assert(discover(seq![root_v], Seq::<Val>::empty()) == seq![root_v]);
    }
    let mut output: Vec<Json> = Vec::new();
    let mut i: usize = 0;
    while i < input.len()
        invariant
            g.wf(),
            val_in(g@, root_v),
            rep == replacer_view(replacer),
            i <= input.len(),
            input.len() >= 1,
            vals(input@)[0] == root_v,
            known_ok(known_nodes@, known_strings@, vals(input@)),
            known_nodes.len() == g@.len(),
            forall|m: int| 0 <= m < input.len() ==> val_in(g@, #[trigger] vals(input@)[m]),
            vals(input@) == discover(seq![root_v], visits(g@, rep, vals(input@), i as nat)),
            forall|n: nat| n < i ==> #[trigger] discover(seq![root_v], visits(g@, rep, vals(input@), n)).len() > n,
            output.len() == i,
            forall|m: int| 0 <= m < i ==> (#[trigger] output@[m])@ == record(g@, rep, vals(input@), vals(input@)[m]),
        decreases usize::MAX - i,
    {
        let current = input[i].clone();
        let ghost e = vals(input@);
        assert(val_in(g@, e[i as int]));
        let rec = transform(g, &current, replacer, &mut known_nodes, &mut known_strings, &mut input);
        let ghost f = vals(input@);
        proof {
            lemma_discover_prefix(e, visited(g@, rep, e[i as int]));
            assert(is_prefix(e, f));
            lemma_visits_prefix(g@, rep, e, f, i as nat);
            lemma_visits_step(g@, rep, f, i as nat);
            assert(f[i as int] == e[i as int]);
            lemma_discover_append(seq![root_v], visits(g@, rep, e, i as nat), visited(g@, rep, e[i as int]));
            assert(f == discover(seq![root_v], visits(g@, rep, f, (i + 1) as nat)));
            assert forall|n: nat| n < i + 1 implies #[trigger] discover(seq![root_v], visits(g@, rep, f, n)).len() > n by {
                lemma_visits_prefix(g@, rep, e, f, n);
                if n < i {
                    assert(discover(seq![root_v], visits(g@, rep, e, n)).len() > n);
                }
            }
            assert forall|m: int| 0 <= m < i implies (#[trigger] output@[m])@ == record(g@, rep, f, f[m]) by {
                assert(f[m] == e[m]);
                lemma_visits_contain(g@, rep, e, i as nat, m);
                lemma_discover_has(seq![root_v], visits(g@, rep, e, i as nat));
                let w = visited(g@, rep, e[m]);
                assert forall|q: int| 0 <= q < w.len() && ident(w[q]) is Some implies has_ident(e, ident(#[trigger] w[q])->0) by {
                    let vs = visits(g@, rep, e, i as nat);
                    assert(vs.contains(w[q]));
                    let p = choose|p: int| 0 <= p < vs.len() && vs[p] == w[q];
                    assert(has_ident(discover(seq![root_v], vs), ident(vs[p])->0));
                }
                lemma_record_stable(g@, rep, e, f, e[m]);
            }
        }
        output.push(rec);
        i += 1;
    }
    proof {
        let e = vals(input@);
        assert(flat_order(g@, rep, root_v, e));
        assert(output@.map_values(|j: Json| j@) =~= records(g@, rep, e));
    }
    output
}

/// The flatted array of `value`, as a JSON value.
pub fn to_json(g: &Graph, value: &Value) -> (r: Result<Json, Error>)
    requires
        g.wf(),
        val_in(g@, value@),
    ensures
        r is Ok,
        exists|e: Seq<Val>|
            #![trigger flat_order(g@, None, value@, e)]
            flat_order(g@, None, value@, e) && r->Ok_0@ == JsonTree::Array(records(g@, None, e)),
{
    let out = flatten(g, value, None);
    let ghost outv = out@.map_values(|j: Json| j@);
    let r = Json::Array(out);
    assert(r@->Array_0 =~= outv);
    Ok(r)
}

/// Converts a value into flatted text, with no replacer and no indentation.
pub fn stringify_simple(g: &Graph, value: &Value) -> (r: Result<String, Error>)
    requires
        g.wf(),
        val_in(g@, value@),
    ensures
        r is Ok,
        exists|e: Seq<Val>|
            #![trigger flat_order(g@, None, value@, e)]
            flat_order(g@, None, value@, e) && r->Ok_0@ == stringified(g@, None, e, None),
{
    stringify(g, value, None, None)
}

/// The flatted text of the entries `e`: compact, or with every record
/// indented by `space` per level.
pub open spec fn stringified(g: Seq<NodeV>, rep: Option<Seq<Seq<char>>>, e: Seq<Val>, space: Option<Seq<char>>) -> Seq<char> {
    match space {
        None => crate::json::compact(JsonTree::Array(records(g, rep, e))),
        Some(ind) => crate::indent::indented_text(records(g, rep, e), ind),
    }
}

/// The indentation asked for.
pub open spec fn space_view(space: Option<&str>) -> Option<Seq<char>> {
    match space {
        None => None,
        Some(s) => Some(s@),
    }
}

/// Converts a value into flatted text. `replacer`, when set, lists the only
/// keys whose members are written; `space`, when set, indents every record
/// with that text per level, as `JSON.stringify` does.
pub fn stringify(g: &Graph, value: &Value, replacer: Replacer, space: Option<&str>) -> (r: Result<String, Error>)
    requires
        g.wf(),
        val_in(g@, value@),
    ensures
        r is Ok,
        exists|e: Seq<Val>|
            #![trigger flat_order(g@, replacer_view(replacer), value@, e)]
            flat_order(g@, replacer_view(replacer), value@, e) && r->Ok_0@ == stringified(
                g@,
                replacer_view(replacer),
                e,
                space_view(space),
            ),
{
    let out = flatten(g, value, replacer);
    let ghost outv = out@.map_values(|j: Json| j@);
    match space {
        Some(indent) => crate::indent::join_pretty(&out, indent),
        None => {
            let doc = Json::Array(out);
            assert(doc@->Array_0 =~= outv);
            let mut text = String::new();
            match crate::json::write_compact(&doc, &mut text) {
                Ok(()) => Ok(text),
                Err(e) => Err(Error::Json(e)),
            }
        },
    }
}

} // verus!
