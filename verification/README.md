# uv-detect

Detects the outside packages that the Python code of a uv-managed project
imports, and adds the missing ones to `pyproject.toml`.

`src/` is the library, verified with Verus:

- `grammar.rs`, `dependency.rs`: requirement strings such as
  `pandas[excel,postgres]>=1.3.0; platform_system != 'Windows'`, read and
  written back; `laws.rs` proves that what is read, once written, reads back
  the same.
- `engine/`: which files the search keeps (`finder`), what a Python module
  imports (`parser`), which imports are missing dependencies (`evaluator`),
  and pinning to the index's latest release (`resolver`).
- `pyproject.rs`: the dependencies that a `pyproject.toml` text declares,
  what is declared once new ones are added, and the rewritten text.

`app/` is the command line program: walking the tree, reading and writing
files, HTTP and `uv`.
