# Varve

The kernel of a versioned, multi-party case file: typed records kept as an
append-only, hash-chained log; schemas that evolve by three-way merge;
reading a record under any revision with losses named; rules over records;
and the sidecar archive and blob bookkeeping that travel with them.

- `src/` is the verified library. Every data type has a mathematical model,
  and contracts speak of models. Laws that span functions are public proof
  functions.
- `app/` is the I/O around it: object stores, encryption, streams.
- `tests/` runs the library on concrete values.
