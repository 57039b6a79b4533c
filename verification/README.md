# bitctx

`bitctx` stores boolean conditions of a session as the bits of a `u64` and
evaluates named AND masks over them. A schema names the bits (indices 0-63)
and the masks; a session records the bits and the hash of the schema it was
made for.

The library under `src/` is verified with Verus:

- `models/` - the schema (`Schema`, its tables of bit and mask definitions,
  validation, lookups), the session state and its bit operations, and the
  decoding of a schema's JSON objects into tables.
- `storage.rs` - session-id checks, the canonical JSON text and xxHash64 hash
  of a schema, and the checks made on state read back from disk.
- `commands/` - what each command computes and prints: `eval` (JSON result or
  the 8x8 text matrix), `resume`, `set`, `explain`, `dump`, `init`, `reset`.
- `text.rs`, `json.rs` - trimming, splitting, numerals, and compact JSON text.

`app/` is the command-line program around the library: argument parsing, the
on-disk store (directories, lock files, atomic writes) and JSON reading and
writing. `tests/` exercises the library on concrete values.
