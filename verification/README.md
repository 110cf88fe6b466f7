# svelte_parser

A verified parser for Svelte single-file components. It splits a component into its
`<script>` and `<style>` blocks and the template markup around them, and builds a semantic
tree of the component (imports, declarations, functions and assignments of scripts; rules and
declarations of styles; elements, attributes and interpolations of the template).

Layout:

- `src/` — the library, written and proved with Verus:
  - `text.rs`: character-level text model (`Seq<char>`): trimming, searching, lines, words,
    joining, decimal and hexadecimal digits;
  - `hash.rs`: the content hash;
  - `tags.rs`: opening tags, tag segments, attribute labels, `{...}` interpolations;
  - `script.rs`: names of declarations, functions and assignment targets;
  - `node.rs`: the semantic tree node and its model;
  - `children.rs`: children of script, style and template blocks;
  - `blocks.rs`: splitting a component into blocks;
  - `component.rs`: the tree of a whole component;
  - `plugin.rs`: the plugin's entry points;
  - `laws.rs`: properties that hold for every component.
- `app/` — the host plugin around the library: WIT bindings, metadata records and the JSON
  form of the tree.
- `tests/` — tests of the library.
