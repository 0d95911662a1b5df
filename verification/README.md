# dreamfish

A static site generator for indentation-based templates (`.df` files), with
KDL data files and a development server that reloads open pages.

- `src/` is the library, written in Verus: every function carries a contract
  and is proved against it, except four small wrappers around std (building
  a `String` from characters, `format!("{:?}")` of a syntax tree, and
  `String::from_utf8_lossy`), whose contracts are trusted. Templates are lexed and parsed into a syntax
  tree, projects are checked, and pages are rendered to HTML by functions
  whose results are stated over mathematical models of the inputs. The
  server's decisions (routing a request, the live-reload handshake, reading
  and building WebSocket frames, who is connected for live reload and at
  which version) are functions on bytes, strings and a small state.
- `app/` is the `dreamfish` command: command-line options, the file system,
  sockets and threads. When rendering needs a data file or a raw asset, the
  library asks for it (`RenderError::NeedFile`) and the command reads it and
  renders again.
- `tests/` exercises the library on concrete templates and values.

Numbers are exact decimals rather than binary floating point. A literal
prints as written wherever an `f64` could not hold it exactly, for example
`9007199254740993` or `0.30000000000000001`, and magnitudes just outside the
`f64` range stay finite or nonzero; the `Debug` text of a numeric attribute
shows that representation.
