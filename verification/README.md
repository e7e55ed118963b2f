# rmap

A map of a Rust codebase on the command line: the tree of files, the items in
them, where a name is defined and used, and how files depend on each other. What
the commands decide and print is a library verified with Verus.

- `src/` is the library. It does no I/O: it takes paths, texts of files and facts
  about the file system as plain values and returns the text to print. Each
  function states in its contract exactly what it returns. Proof functions whose
  names begin with `law_` state what holds across functions: that a tree holds
  the files that were found, that reverse reachability mirrors forward
  reachability, that a graph no longer changes once every path was probed, and
  so on.
- `app/` is the `rmap` command: arguments, the walk of the file system, reading
  files, and the visitor that collects where a source uses names.
- `tests/` runs the library on concrete values, with the real `syn` and
  `proc_macro2`.

Not proved is what `syn` and `proc_macro2` return for a source, and how the
standard library maps letter case. The functions that call them are in
`src/syntax.rs`, `src/similar.rs` and `src/text.rs`, marked
`#[verifier::external_body]` or `assume_specification`, each with a note on what
is taken for granted.
