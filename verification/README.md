# nastran

Readers for NASTRAN files, with their behaviour stated as contracts and
proved with Verus.

- `src/datfile` reads input decks: fields in eight or sixteen columns or
  separated by commas, continuation lines joined to their cards, the
  executive section before `BEGIN BULK` and what follows `ENDDATA`.
- `src/bdf` is the bulk data reader: `lines` reads one physical line (tabs
  expanded, upper-cased, ended by column 80, a `$` comment or the line end),
  `field` holds the three field automata, `parser` turns a line into raw and
  then parsed fields (a comma separated line may stand for several lines),
  `cards` joins lines into cards through their continuation names, and
  `deck` reads cards into typed items kept in a `Storage` by id.
  `bdf::v1` reads bulk data in two stages: each line (or each run of
  fields of a comma separated line) becomes an unparsed card of fixed-width
  byte fields, which is then parsed field by field; `bdf::v1::deck`
  splits a buffer into line contents and what trails them.
- `src/op2` reads OP2 result files: the file header and the data blocks,
  whose records are kept as byte ranges of the buffer.
- `src/scan` holds the byte classes and runs shared by the readers.

Each reader is specified by spec functions over byte sequences (for
example `spec_parse_bytes`, `spec_parse_buffer`, `sp_parse`), and the
executable functions are proved to compute them. Where the readers would
overflow a fixed scratch buffer, a `_checked` function returns `None`.

`app/` holds what the library does not: reading files, floating point
values (card geometry, materials, mass properties, number formatting),
and error types with their messages.
