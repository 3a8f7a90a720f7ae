# rmpl

A YAML-based build tool for Rust monorepos, with its libraries verified by Verus.

## Layout

- `src/` — the verified library:
  - `parsing` — a parser-combinator library (primitives, combinators, errors with
    line and column);
  - `yaml` — a YAML parser on top of it (scalars, blocks, lists nested by
    indentation, comments);
  - `serduh` — building YAML values from a program's values and reading them back;
  - `manifest` — the workspace and package manifests, read line by line;
  - `resolver` — the packages of a workspace and their build order (every
    package after the packages it depends on, or the dependency cycle that
    prevents it);
  - `test_runner`, `install` — the decisions of the test and install commands
    (which libraries to link, how to read a test run's summary, where a
    profile's binaries are, which binaries to copy, skip or report missing);
  - `quote_lite`, `syn_lite`, `derive`, `hello` — token streams, the parsing
    behind the code-generating macros, and the impls that the derives generate;
  - `mylib`, `text` — small arithmetic and string helpers.
- `tests/` — tests of the library.
- `app/` — the `rmpl` command line: reading files, running `rustc` and test
  binaries, installing binaries, and the serialization traits (which carry
  floating-point methods).
