//! Objects: ordered maps from keys to values, kept in an `indexmap::IndexMap`.
use vstd::prelude::*;
use indexmap::IndexMap;
use crate::graph::{Value, Val};

verus! {

/// `indexmap::IndexMap`, declared so that it can hold the members of an object.
#[verifier::external_type_specification]
#[verifier::external_body]
#[verifier::reject_recursive_types(K)]
#[verifier::reject_recursive_types(V)]
#[verifier::reject_recursive_types(S)]
pub struct ExIndexMap<K, V, S>(IndexMap<K, V, S>);

/// The members of an object map, in their order: each key's text and its value.
pub uninterp spec fn members(m: IndexMap<String, Value>) -> Seq<(Seq<char>, Val)>;

/// No key occurs twice among `es`.
pub open spec fn keys_distinct<T>(es: Seq<(Seq<char>, T)>) -> bool {
    forall|i: int, j: int| 0 <= i < j < es.len() ==> es[i].0 != es[j].0
}

/// Whether `k` is one of the keys of `es`.
pub open spec fn has_key<T>(es: Seq<(Seq<char>, T)>, k: Seq<char>) -> bool {
    exists|i: int| 0 <= i < es.len() && es[i].0 == k
}

/// The position of key `k` among `es`.
pub open spec fn key_position<T>(es: Seq<(Seq<char>, T)>, k: Seq<char>) -> int {
    choose|i: int| 0 <= i < es.len() && es[i].0 == k
}

/// `es` after inserting `v` under `k` as `IndexMap::insert` does: an existing
/// key keeps its place and takes the new value, a new key goes last.
pub open spec fn member_insert<T>(es: Seq<(Seq<char>, T)>, k: Seq<char>, v: T) -> Seq<(Seq<char>, T)> {
    if has_key(es, k) {
        es.update(key_position(es, k), (k, v))
    } else {
        es.push((k, v))
    }
}

/// `IndexMap::new`: an empty map.
#[verifier::external_body]
pub(crate) fn object_new() -> (m: IndexMap<String, Value>)
    ensures
        members(m) == Seq::<(Seq<char>, Val)>::empty(),
{
    IndexMap::new()
}

/// `IndexMap::len`: the number of members.
#[verifier::external_body]
pub(crate) fn object_len(m: &IndexMap<String, Value>) -> (n: usize)
    ensures
        n == members(*m).len(),
{
    m.len()
}

/// `IndexMap::get_index`: the member at a position, if there is one.
#[verifier::external_body]
pub(crate) fn object_get_index(m: &IndexMap<String, Value>, i: usize) -> (r: Option<(&String, &Value)>)
    ensures
        match r {
            Some(p) => i < members(*m).len() && p.0@ == members(*m)[i as int].0 && p.1@
                == members(*m)[i as int].1,
            None => i >= members(*m).len(),
        },
{
    m.get_index(i)
}

/// `IndexMap::get`: the value under a key, if the key is present.
#[verifier::external_body]
pub(crate) fn object_get<'a>(m: &'a IndexMap<String, Value>, key: &str) -> (r: Option<&'a Value>)
    ensures
        match r {
            Some(v) => has_key(members(*m), key@) && v@ == members(*m)[key_position(
                members(*m),
                key@,
            )].1,
            None => !has_key(members(*m), key@),
        },
{
    m.get(key)
}

/// `IndexMap::insert`: sets the value under a key. The keys of an `IndexMap`
/// are always distinct.
#[verifier::external_body]
pub(crate) fn object_insert(m: &mut IndexMap<String, Value>, key: String, value: Value)
    ensures
        keys_distinct(members(*old(m))) ==> members(*final(m)) == member_insert(
            members(*old(m)),
            key@,
            value@,
        ),
{
    m.insert(key, value);
}

/// Inserting into members with distinct keys keeps them distinct.
pub proof fn lemma_member_insert_distinct<T>(es: Seq<(Seq<char>, T)>, k: Seq<char>, v: T)
    requires
        keys_distinct(es),
    ensures
        keys_distinct(member_insert(es, k, v)),
        has_key(member_insert(es, k, v), k),
        forall|q: Seq<char>| has_key(member_insert(es, k, v), q) <==> (has_key(es, q) || q == k),
{
    let r = member_insert(es, k, v);
    if has_key(es, k) {
        let p = key_position(es, k);
        assert(r[p].0 == k);
        assert forall|q: Seq<char>| has_key(r, q) <==> (has_key(es, q) || q == k) by {
            if has_key(es, q) {
                let i = choose|i: int| 0 <= i < es.len() && es[i].0 == q;
                assert(r[i].0 == q);
            }
            if has_key(r, q) {
                let i = choose|i: int| 0 <= i < r.len() && r[i].0 == q;
                if i != p {
                    assert(es[i].0 == q);
                }
            }
        }
    } else {
        assert(r[es.len() as int].0 == k);
        assert forall|q: Seq<char>| has_key(r, q) <==> (has_key(es, q) || q == k) by {
            if has_key(es, q) {
                let i = choose|i: int| 0 <= i < es.len() && es[i].0 == q;
                assert(r[i].0 == q);
            }
            if has_key(r, q) {
                let i = choose|i: int| 0 <= i < r.len() && r[i].0 == q;
                if i < es.len() {
                    assert(es[i].0 == q);
                }
            }
        }
    }
}

} // verus!
