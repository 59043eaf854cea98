# fake

A driver for build tools. States are kinds of files, operations lead from one
state to another, and a request names a file, its state and the state it is
wanted in. The driver finds the shortest way, names the files on it, and a run
writes the plan as a Ninja file, as a listing or as a GraphViz picture.

- `src/` is the library, verified with Verus. It is for Unix systems: paths are
  byte strings with `/` between components. The tables of a driver and the maps
  of the search are those of `cranelift-entity`; configuration values come from
  `figment`.
- `app/` loads the configuration, writes files and runs Ninja.
- `tests/` runs the library.
