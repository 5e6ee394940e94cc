# lava_forge

Tatara-lisp source generator for lava providers, verified with Verus.

It reads the typed schema that `terraform providers schema -json` emits and
produces one `(deflava-resource ...)` form per resource, in a `.tlisp` file of
its own, plus one `_index.tlisp` aggregator per provider.

## Layout

- `src/sexpr.rs`: the typed s-expression tree `SExpr`, its mathematical value
  `Form`, and the pretty-printer `render`, whose result is stated exactly by
  `render_form` (one-line lists up to 80 UTF-8 bytes, indented multi-line
  lists otherwise, escaped string literals, and symbols and keywords
  between bars where their text would otherwise break the syntax).
- `src/reader.rs`: a reader of the rendered syntax, as spec functions, and the
  proof that the text of every form reads back as that form.
- `src/balance.rs`: a scan of parentheses outside string literals and
  bar-quoted symbols, and the proof that every rendered form is balanced.
- `src/schema.rs`: the schema types; their maps are `indexmap::IndexMap`,
  read through trusted accessors of `IndexMap::get_index`.
- `src/order.rs`: the name order of strings and a verified stable sort.
- `src/lib.rs`: names (provider short name, file-safe names, keyword bodies),
  the resource and aggregator forms, and `Generator::plan`, which states which
  files a run writes and what each holds.
- `src/readable.rs`: the forms in the emitted files are balanced and read
  back, whatever the names in the schema hold.
- `app/`: the command line, file I/O, and the serde copies of the schema types.
