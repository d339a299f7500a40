# rusty_git

A small git: loose objects (`hash-object`, `cat-file`), trees (`write-tree`,
`ls-tree`), commits (`commit-tree`) and cloning over the smart HTTP protocol.

- `src/` is the library, verified with Verus. Each command is a function from
  plain values (file contents, compressed object bytes, HTTP response bodies) to
  plain values (objects to store, text to print, steps to carry out), with a
  contract. `src/commands/bindings.rs` holds the calls into `flate2`, `sha1`,
  `hex`, `chrono` and the UTF-8 conversions of `std`, whose contracts are trusted.
  `src/commands/laws.rs` proves how the commands fit together: what `cat-file`
  prints of what `hash-object` stored, what `ls-tree` lists of what `write-tree`
  wrote, and what checking out a commit or a tree does; that a tree does not
  depend on the order of its entries, and a commit only on its tree, parent,
  message, time and zone.
- `app/` is the program: argument parsing, reading and writing `.git/objects`,
  walking the working directory, and the HTTP requests of a clone, driven by the
  library's `CloneSession`.
- `tests/` runs the library on concrete values.
