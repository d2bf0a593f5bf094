# common

The text-level pieces a TOML formatter is built from, verified with Verus.

- `pep508/`: dependency specifiers (PEP 508) and versions (PEP 440): reading them into models,
  writing them in one form, the errors each kind of bad input is answered with, and the proofs
  that what is written reads back and writes the same (`round_trip`, `spelling`, `settling`,
  `stable`).
- `disabled`: commented-out keys, their markers and the lines they span, and the text with them
  enabled once a reader has said which comments stand and what each run reads as.
- `strings`, `string`, `width`, `layout`: measuring and wrapping text to a column.
- `sections`, `table`, `group`, `nesting`, `shape`, `settings`: key paths, table names, ordering
  ranks, stable slot sorting, and the numbers settings are written in.
- `blocks`: the key a block of tables sorts by when the tables are put in order, and the stable
  order those keys give.
- `util`, `text`: line clean-ups and the character-sequence helpers everything else is stated over.

Everything under `src/` is verified; the tests under `tests/` exercise the compiled library.

## What is not here

The passes that work on a whole parsed document are not part of this library: reading a file
into a syntax tree, collapsing sub-tables and arrays of tables into their parents, expanding
them back out, reordering tables and the keys inside them by rewriting the tree, telling which comments a
document holds and whether a comment reads as a key-value or a table header, and writing a table's dotted name from its key
segments. They rest on the TOML document and syntax-tree crates (`toml_doc`, `tombi_syntax`,
`tombi_parser`, `tombi_config`) and on `lexical_sort`, none of which can be had here. What those
passes decide on plain values stands here and is verified: the group ranges and stable order of
members (`group::member_ranges`, `sections::sort_slots`), the ranks keys sort by, the key and the
order of each block of tables (`blocks`), which tables fold (`shape::Tables`), the widths that decide whether a table is written on one line, and the
text of the lines they write.
