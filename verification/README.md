# flatted

Circular JSON: a graph of values whose arrays and objects may be shared, or
contain themselves, is written as a flat JSON array and read back with the
same sharing and the same cycles.

```
[["1","0"],{"a":"0"}]      // a = [{}]; a[0].a = a; a.push(a)
```

Entry `0` is the root. Strings, arrays and objects are stored once each and
referred to by the decimal text of their entry's position.

## Layout

- `src/` — the library, verified with Verus. Arrays and objects are nodes of a
  `Graph`; a `Value` names a node by its number, so identity is node equality.
  - `flatten.rs`: `stringify`, `stringify_simple`, `to_json`, with an optional
    key whitelist and indentation.
  - `unflatten.rs`: `parse` (with an optional reviver), `parse_simple`,
    `from_json`; errors for text that is not JSON, for a document that is not
    an array and for bad indexes. A reviver enters each array and object once.
  - `document.rs`: `flatten_text` and `unflatten_text`, whole documents as
    text in and text out; `parse_text` reads flatted text.
  - `tree.rs`: `Value::from_json` (a plain JSON tree into a graph) and
    `Value::to_serde_json` (a graph back into a tree, cycles as `null`).
  - `laws.rs`: reading back the flatted array that was written (as a JSON
    value) gives the same graph; going through text adds serde_json's writing
    and reading, which the library calls but does not prove; the
    flatted order is unique; every string, array and object is stored once;
    a tree survives the trip into a graph and back.
- `tests/` — scenarios on concrete values.
- `app/` — the command-line tool: reads JSON or flatted text, prints the other.
