# agent_lints

Lints for Rust workspaces: public items that nothing uses, structs that share
their fields, `Option` values with one variant, fields that could be methods, and a
few that look at one crate at a time.

- `src/` is the library. It decides what the lints warn of, puts the findings of a
  whole workspace together to a report, and edits sources. All of it is verified
  with [Verus](https://github.com/verus-lang/verus).
  - `hir`, `utils` and `workspace_lint` hold what the lints share: the parts of a
    compiled crate that they read, the keys of definitions, and the two phases.
  - `unused`, `overlap`, `option_report` and `derived_field` make the reports;
    `unused_lint`, `overlap_lint`, `option_single_variant` and
    `trait_option_single_variant` collect what goes into them.
  - `item_complexity`, `interior_mutable_statics`, `public_fields`,
    `stringly_typed`, `trivial_forwarding` and `underscore_prefix` look at one
    crate.
  - `visibility`, `reexports`, `rewriting` and `fix_plan` edit the sources of
    unused items and of their reexports.
  - `cli` and `coordination` say what a coordinator does.
  - `text`, `syntax`, `order`, `sorting` and `strings` are the ground that these
    stand on.
- `app/` runs the coordinators (`pubprune` and one for each other lint that looks
  at a workspace), and under `app/lints/` it ties the lints to the compiler. Each file
  there but `adapter.rs` is the root of a `cdylib` crate on `rustc_private`, with
  `clippy_utils` and `dylint_linting` beside this library. A coordinator builds the
  crate of its lint in the directory of that name beside its own manifest; these
  manifests are not kept here.
- `tests/` holds the tests of the library.
