# skillcheck

A library that reads `sysctl.conf(5)`-style text into nested namespaces, and
checks such a configuration against a type schema written in the same syntax.
Its logic is written in Verus and proved against the contracts it states.

## Layout

- `src/text.rs` — Unicode whitespace, trimming, searching and splitting over
  character sequences, and the key order.
- `src/value.rs` — `Value`, and `ValueMap`, the entries of a namespace kept in
  key order (its type invariant), with the laws of a map.
- `src/parser.rs` — the grammar of a line (`classify_line`), what a whole input
  parses to (`spec_parse`), `parse_str`, and the laws of parsing.
- `src/config.rs` — `Config` with dotted-path lookup.
- `src/literal.rs` — the texts accepted as an `i64` and as a 64-bit float.
- `src/schema.rs` — `Type`, `Schema`, `validate` and the laws of validation.
- `src/report.rs` — what `validate` reports, stated by dotted paths: every
  violation, each once, and nothing else.
- `src/error.rs` — `ParseError`.
- `app/` — reading from files, and error types with `Display` and
  `std::error::Error` (through `thiserror`).

## Syntax

| Kind | Rule |
|---|---|
| Entry | `key = value`; the first `=` separates, the rest is the value |
| Whitespace | trimmed around the key, the `=` and the value |
| Comment | a line whose trimmed form starts with `#` or `;` |
| Blank line | ignored |
| `-` prefix | sysctl's "ignore-errors" marker, stripped |
| Nested key | `log.file = x` gives `{"log": {"file": "x"}}` |
| Repeated key | the last assignment wins |
| Key conflict | `log = x` with `log.file = y` is `ParseError::KeyConflict` |

A namespace is `Value::Namespace`; schema types are `string`, `bool`,
`integer` and `float`.

## Design notes

- A namespace keeps its entries in `ValueMap`, a `Vec` of `(String, Value)`
  whose keys stay strictly increasing (its type invariant), rather than in a
  `BTreeMap<String, Value>`. vstd's specification of `BTreeMap` holds only
  under `obeys_cmp::<Key>()`, which vstd establishes for integer and other
  primitive keys but not for `String`, so nothing about the contents of a
  `String`-keyed `BTreeMap` can be proved. `ValueMap` orders its keys by its
  own comparison (`src/text.rs`), which is the dictionary order of `str`, and
  its map laws are proved in `src/value.rs`. Its `Debug` output lists the
  entries in that order.
- A namespace value is `Value::Namespace`: `Map` names a type of Verus's
  prelude and cannot be an item's name here.
- `SchemaParseError::UnknownType` carries the unknown type name in its field
  `name`.
