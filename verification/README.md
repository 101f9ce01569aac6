# conject_macro

The decisions behind a compile-time dependency-injection code generator,
verified with Verus: what `#[injectable]`, `#[async_injectable]`,
`#[inject(..)]`, `#[provider]`, `#[scope(..)]`, `#[module]` and `init!`
generate for a given struct, and the encodings and hashes used to name and
record generated items.

## Layout

- `src/` — the verified library.
  - `model.rs`: plain-value models of the Rust syntax the generators read
    (types, attributes with their possible readings, fields, structs).
  - `types.rs`: the shape of a type (paths, references, trait objects);
    lifetime collection, segment renaming and path extraction.
  - `attrs.rs`: reading of field and struct attributes, with every fault.
  - `injectable.rs`, `provider.rs`, `scope.rs`, `imports.rs`, `module.rs`,
    `init.rs`: one plan per generator, each stated exactly over the model.
  - `collection.rs`: grouping by key, order kept within groups.
  - `record.rs`: the module record, its file name and its text of one
    base64 line per exported type; reading it back gives what was written.
  - `encoding/`, `hash.rs`, `naming.rs`, `retry.rs`: base64 and base32,
    FNV hashing, generated names, and the retry decision.
- `tests/` — tests of the library on concrete values.
- `app/` — the token-level front end: it reads syntax with `syn` into the
  models, asks the library for a plan, writes the plan as tokens with
  `quote`, and reads and writes the module records on disk.

Every public function of `src/` states in its contract exactly what it
returns; the public `law_*` proof functions state properties that relate
several results (for instance, that decoding undoes encoding, or that the
scopes partition the scope fields).
