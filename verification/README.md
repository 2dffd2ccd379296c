# jsonpath_lib

Selection of nodes of a JSON document by a compiled JSONPath, with proofs.

- `src/` is the library, verified with Verus:
  - `json.rs`: the document model (`JsonValue`) and the equality of values;
  - `token.rs`: the tokens of a compiled path;
  - `refs.rs`, `walk.rs`: references to selected nodes and the moves of a
    selection (children, members, elements, descendants, slices);
  - `term.rs`: the terms of filter expressions and their comparisons;
  - `selector.rs`: the selector, a state machine over the tokens;
  - `selector_mut.rs`: replacing and deleting the selected nodes;
  - `laws.rs`, `deletion.rs`, `replacing.rs`: properties proved across the
    operations (selections stay inside the document, filters read the same
    either way round, selecting again gives the same selection, deleting
    nulls exactly the selected nodes, replacing non-nested selections
    replaces exactly them, ...);
  - `outside.rs`: the calls into `array_tool` and std, with their contracts.
- `app/` converts serde_json values to and from the library's model,
  compiles path strings and reports errors.
- `tests/` runs the library on concrete documents.
