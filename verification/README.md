# swiss_table

A hash table in the style of SwissTable that lives in a flat byte archive. It is
written once, from items and their hashes, and then read in place: looked up,
iterated over, and written to entry by entry. All of it is proved correct with
[Verus](https://github.com/verus-lang/verus).

## Layout

- `src/` is the library. Every function in it has a contract. `lib.rs` says which
  module holds what; `laws.rs`, `coverage.rs`, `widths.rs` and `roundtrip.rs` state what
  holds of tables as a whole, such as that a lookup gives back what was written.
- `tests/` runs the library on concrete tables.
- `app/` puts the library behind the error and validation traits of `rancor` and
  `bytecheck`.

## Archives

Positions are offsets into the archive. A table consists of an inline part
(`ArchivedHashTable`: a relative pointer, a length and a capacity) and of its memory,
which the pointer leads to the middle of: the buckets lie in front of that position,
in descending order, and the control bytes behind it.

A control byte is `0xff` for a free bucket. For a full one it is the seven most
significant bits of the hash of its entry.

## Probing

From where its hash starts, an entry is looked for in windows of 16 control bytes, which
follow one another by the triangular numbers, modulo a power of two. Positions past the
last bucket are skipped.

The windows of a hash come to every bucket except, for some capacities, a few of the
first ones. Writing a table reports an item that finds no free bucket for that reason, and
a lookup whose windows hold neither the entry nor a free bucket ends without a result.
`coverage.rs` shows that at most 15 buckets are left out, and none in tables of at most 16
buckets and in tables whose capacity is a multiple of 16.
