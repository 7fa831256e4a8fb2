# iwork

A verified reader and writer for Apple iWork packages (`.numbers`, `.pages`,
`.key`), written in Verus.

- `src/` is the library. Every executable function carries a `requires` /
  `ensures` contract over mathematical models (`Seq`, `Map`, views of the
  library's types) and is proved by Verus: the ZIP package reader and writer,
  the Snappy-framed `.iwa` archive codec, the protobuf wire format, property
  lists, the Numbers table chain (sheets, table models, tiles, string lists,
  header storage, resolved table rows, formula joins, the workbook writer),
  Pages bodies and paragraphs, Keynote presentations and slides, and the
  stylesheet's style registry and catalog. Cell values that are doubles are
  carried as their bit patterns.
- The laws of the library (round trips of varints, messages, archives,
  packages, Pages bodies, Keynote themes and slides, and one-table Numbers
  workbooks) are public proof functions next to the code they speak of
  (`*_laws.rs`, `*/laws.rs`, `numbers/write_laws.rs`).
- Calls into outside code (`miniz_oxide` for raw inflate, a few `std` string
  conversions) sit behind small trusted wrappers whose contracts are
  documented where they are declared.
- `app/` is the command-line program: file I/O, the protobuf dumper built on
  `protorev`, and the conversions between the library's bit patterns and
  `f64` cell values.
- `tests/` exercises the library on concrete inputs.
