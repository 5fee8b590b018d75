# dtd_viewer

Reads an XML DTD and shows its structure: as a static tree, as JSON, as a
Mermaid graph, or in an interactive terminal tree view.

- `src/` is the library, written in Verus: the parsers for `<!ENTITY`,
  `<!ELEMENT` and `<!ATTLIST` declarations and for content models, the
  element map, the static tree, the Mermaid graph, the state and texts of the
  interactive view, and what each key does there. Each function states in its
  contract what it returns; `src/laws.rs` holds properties that relate several
  of them.
- `app/` is the command-line program around it: argument handling, reading the
  file, printing, JSON through serde, and the terminal drawing and event loop.
- `tests/` runs the library on concrete inputs.
