# proto_uv_backend

A proto backend that installs Python command-line tools from public PyPI with
uv, each version in its own isolated directory.

- `src/` is the verified library: package names and tool identifiers with
  extras (`package`), backend settings (`config`), the mapping between the
  supported PEP 440 subset and proto versions and version discovery
  (`version`), the `uv tool install` command and the registration of exported
  commands (`uv`), with text and sorting helpers (`text`, `sorted`).
  Contracts are stated over spec functions; the laws are the `law_*` proof
  functions.
- `app/` holds the WASM hooks that proto calls: they fetch PyPI metadata, run
  uv, read the exported `bin` directory, and convert between proto's types and
  the library's.
- `tests/` runs the library on concrete values.
