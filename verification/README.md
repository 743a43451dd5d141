# wasm_regex_tree

Draws the trees of a Rust regular expression: the syntactic tree and the
high-level intermediate representation that `regex-syntax` builds for a
pattern, each flattened into an indexed node list and laid out for SVG.

Layout:

- `src/` is the verified library (Verus).
  - `node.rs`: nodes, syntax trees, and the builder that flattens a tree
    into a node list in pre-order; the well-formedness of node lists.
  - `ast.rs`, `hir.rs`: the two trees of a pattern, their labels and kinds,
    and `build`, which parses a pattern and returns its node list.
  - `layout.rs`: pre-order and post-order walks and the grid layout (leaf
    slots and depths) with its laws.
  - `svg.rs`: the fill colour of each kind and XML escaping.
  - `http.rs`: what the static file server decides for a request line.
  - `text.rs`: small string helpers.
- `app/` is ordinary Rust around the library: the WebAssembly entry point,
  the floating-point layout and the SVG rendering, and the file server.
- `tests/` runs the library on concrete patterns.
