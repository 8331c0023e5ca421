//! Whole documents as text: plain JSON text flattened into flatted text, and
//! flatted text unflattened into indented plain JSON text.
use vstd::prelude::*;
use crate::json::{JsonTree, json_of_text, read_json};
use crate::graph::{Graph, Value, Val};
use crate::tree::{containers_in, tree_nodes, tree_val, container_count, unfold};
use crate::flatten::{flat_order, stringified, stringify_simple};
use crate::unflatten::{records_failure, unflattened, root_of, parse_simple};
use crate::indent::{pretty, pretty_with_indent, gap, two_spaces};
use crate::error::Error;

verus! {

/// Flattens plain JSON text: the text is read as JSON (else the JSON error),
/// built into a fresh graph, and written as flatted text.
pub fn flatten_text(text: &str) -> (r: Result<String, Error>)
    ensures
        json_of_text(text@) is None ==> r matches Err(Error::Json(_)),
        json_of_text(text@) matches Some(t) ==> if containers_in(t) <= usize::MAX {
            r is Ok && exists|e: Seq<Val>|
                #![trigger flat_order(tree_nodes(t, 0), None, tree_val(t, 0), e)]
                flat_order(tree_nodes(t, 0), None, tree_val(t, 0), e) && r->Ok_0@ == stringified(
                    tree_nodes(t, 0),
                    None,
                    e,
                    None,
                )
        } else {
            r matches Err(Error::TooLarge)
        },
{
    let doc = match read_json(text) {
        Ok(d) => d,
        Err(e) => {
            return Err(Error::Json(e));
        },
    };
    match container_count(&doc) {
        None => Err(Error::TooLarge),
        Some(_) => {
            let mut g = Graph::new();
            let v = Value::from_json(&mut g, &doc);
            assert(g@ =~= tree_nodes(doc@, 0));
            stringify_simple(&g, &v)
        },
    }
}

/// Unflattens flatted text into plain JSON text indented by two spaces: the
/// text is read as JSON (else the JSON error) and as a flatted array (else
/// its error), and the root is unfolded, a cycle becoming null.
pub fn unflatten_text(text: &str) -> (r: Result<String, Error>)
    ensures
        json_of_text(text@) is None ==> r matches Err(Error::Json(_)),
        json_of_text(text@) matches Some(doc) ==> match doc {
            JsonTree::Array(flat) => match records_failure(flat, flat.len() as int) {
                Some(m) => r matches Err(Error::InvalidIndex(s)) && s@ == m,
                None => r is Ok && r->Ok_0@ == pretty(
                    unfold(
                        unflattened(flat),
                        root_of(flat),
                        Seq::new(unflattened(flat).len(), |i: int| false),
                    ),
                    0,
                ),
            },
            _ => r matches Err(Error::ExpectedArray),
        },
{
    let doc = match read_json(text) {
        Ok(d) => d,
        Err(e) => {
            return Err(Error::Json(e));
        },
    };
    let (g, root) = match parse_simple(&doc) {
        Ok(p) => p,
        Err(e) => {
            return Err(e);
        },
    };
    let tree = root.to_serde_json(&g);
    proof {
        reveal_strlit("  ");
        assert("  "@ =~= two_spaces());
        assert(gap("  "@) == two_spaces());
    }
    pretty_with_indent(&tree, "  ")
}

} // verus!
