# okf

A library that turns what is known of a software project into an Open
Knowledge Format bundle: one page for each package, module, type and function,
with the relationships between them. It is written in Verus: each function
states in its contract what it returns, and the contracts are proved.

- `src/` is the library. It does no input or output.
- `app/` is the `okf-rs` command line around it: files, git, language servers,
  endpoints, PDF pages.
- `tests/` runs the library on concrete values.

## What is proved

Besides the contract of each function, the library proves laws that span
several of them. Some of them:

- An analysis depends on the sources alone, and a cache changes nothing
  (`determinism`). The order in which a scan comes upon files does not count
  (`project`).
- Concepts with one id are told apart by where they stand (`naming`).
- A call is resolved where one concept alone has its name, and both ends say
  so. Asking language servers only adds to that (`linkage`, `analysis`), and a
  session with them ends (`resolution`).
- Layers, domains and communities of packages are determined by the calls
  between their modules (`arch`, `communities`, `modularity`), and hold each
  package once (`partition`).
- A bundle does not differ from itself, and what is added one way is removed
  the other (`diff`, `impact`, `freshness`).
- Of an exported DITA topic its title and description are read back
  (`readback`, `dita`).
- Descriptions that exist are never overwritten (`enrich`).

## What is trusted

The library calls `serde_json`, `toml`, `encoding_rs` and `roxmltree`, and a
few functions of the standard library, through wrappers whose contracts are
believed. Each has a doc comment that says what is claimed.
