# zen_build

The plain-data core of a `.zen` board toolchain: what a build's schematic
looks like as data, which instances and nets a structured edit may target,
the edit writers themselves (span surgery over authored source), the
identifier reads and nested-scope bindings of a parsed file, part
resolution, component scaffolding, and the decisions of the schematic
layout (rails, flow layering, packing).

- `src/` is the library, written in Verus: every function carries a
  contract, and the properties that span functions are proof functions
  named `law_*`. Calls into outside crates (`sha2`, `hex`, the `toml`
  parser, and `starlark`'s parser as a check that a writer's output
  parses) stand behind small trusted wrappers whose contracts name what
  they return.
- `tests/` exercises the library on concrete values, including the edit
  examples on real `.zen` text.
- `app/` is the program around it: evaluating boards through the `pcb_*`
  crates, reading and writing files, converting `starlark`'s syntax tree
  into the library's plain tree (`src/syntax.rs`), the floating-point
  layout and routing, and the command line.
