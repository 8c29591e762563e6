# domstyle

A verified core for a small HTML/CSS/JS-to-native toolchain and its
runtime, written in Verus.

- `src/runtime/`: the live document (`DomRegistry`: nodes by identifier,
  id/class/tag indexes, the set of nodes to restyle), selector parsing and
  matching against the document, style sheets, rule indexes, the cascade
  and the style engine (`computeStyle`, `flushStyleDirty`).
- `src/style/`: the style crate's selector, style sheet and `@font-face`
  readers, and the readers of keyword-valued properties.
- `src/toolchain/`: the front end: HTML reading, CSS rules, the tables of
  built-in and canvas calls, and the rewriting of script event handlers
  into Rust, plus the command line.
- `src/laws.rs`: properties that span several operations.
- `src/text.rs`: string operations and their models.
- `app/`: file system and process plumbing, computed styles with pixel
  values, and the application entry with its plugins.
- `tests/`: tests on concrete values.

Every function in `src/` is verified against its contract; the few calls
into the standard library that vstd does not describe are wrappers whose
contracts are stated in their doc comments.

## Maps and sets

The document's node table, its id, class and tag indexes, the set of
nodes to restyle, an element's attributes and the rule index are kept as
vectors with a first-match lookup, in insertion order, rather than as
`HashMap`/`HashSet`. The contracts speak of that order: the root that
`querySelector` starts from, the order of `getElementsByClassName` and
`getElementsByTagName` results, the order in which the dirty set is
flushed. vstd specifies `HashMap` and `HashSet` only for keys whose hashing
it models (the integer types), and its `StringHashMap` for `String` keys;
neither gives a walk order, so neither was used for these structures.
