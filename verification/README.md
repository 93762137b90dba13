# cosy

COSY (Comfortable Object Syntax, Yay!) is a human-friendly configuration
format: `//` comments, unquoted keys, optional commas, key order kept,
integers distinct from floats, deep merging, file composition with `extends`
and `include`, and schema checks with typo suggestions.

The library in `src/` is verified with Verus; every public function states
what it returns over a mathematical model of values (`value::Node`).

- `syntax::lexer`, `syntax::parser`: text to tokens to values; `from_str`,
  `from_str_with_env`.
- `serde::serializer`: values back to text; `to_string`,
  `to_string_with_options`.
- `roundtrip`: the proof that what the serializer writes reads back as the
  same value, and that reading, writing and reading again is stable.
- `merge`: deep merging, with its laws.
- `inclusion`, `load`: `extends`/`include` resolution and loading several
  sources over a table of loaded files; the caller reads the files a
  resolution asks for and runs it again.
- `schema` (with `schema::suggest`): validation against a schema and
  edit-distance suggestions.
- `serde::data`: the value side of the Serde data model.
- `equality`: `==` on values; objects compare key by key, whatever the
  order of their entries.
- `error`, `value`, `text`: errors, the value type, and text helpers.

`app/` holds the command-line tool (`cosy check <file>`), the Serde
`Serializer`/`Deserializer` implementations, and reading files and the
process environment. `tests/` holds the tests.
