# lstr

A minimalist directory tree viewer in the spirit of `tree`, whose core is
written in Verus and verified.

- `src/` is the verified library: entry sorting (a stable sort, and the
  hierarchical sort that rebuilds the tree), parsing of path lists,
  size and permission formatting, the tree connectors, display limits,
  cumulative sizes, and the text, HTML and JSON renderings. Each public
  function states what it returns; public proof functions state the
  laws that relate them (for instance, that a depth-first listing is drawn
  with `│` exactly under ancestors that have later siblings, that the
  `--du` total is the sum of every entry's own size, or, in
  `src/pipeline.rs`, that a walk sorted hierarchically and cut down by
  the display limits is rendered whole).
- `app/` is the command around it: argument parsing, the filesystem walk,
  colors and printing.
- `tests/` runs the library on concrete inputs.

Calls into other code that the proofs rely on (`String::push`,
`str::to_lowercase`, `natord::compare`, `Path::strip_prefix`,
`Url::from_file_path`) sit behind small wrappers marked
`#[verifier::external_body]`, each documenting what its contract claims.
