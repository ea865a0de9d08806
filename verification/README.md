# parser

A verified library for YPBank transaction records and the three byte
formats they are stored in: CSV, a line-based text format, and a binary
format. Every parser takes the bytes of a whole document and every
serializer returns them; contracts state exactly which records, or which
kind of error, each one gives.

Layout:

- `src/formats/` — the record and its enumerations (`mod.rs`), one module
  per format (`binary.rs`, `csv.rs`, `txt.rs`), and the proofs about what the
  text reader makes of documents: it reads back what the text writer wrote,
  skips comments, and ignores the order of a record's fields
  (`txt_roundtrip.rs`).
- `src/convert.rs` — choosing the format at run time, and comparing record
  lists.
- `src/chars.rs`, `src/decimal.rs`, `src/endian.rs` — characters and UTF-8,
  decimal and hexadecimal numbers, big-endian integers (through `byteorder`).
- `tests/` — tests of the library.
- `app/` — the command-line converter and comparer, which read files and
  hand their bytes to the library. They are one program: it compares two
  files (`--first-file`, `--second-file`, ...) when its executable's name
  contains `compare`, and converts (`--input`, `--input-format`,
  `--output-format`) otherwise; install it under both names.
