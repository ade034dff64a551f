# marklens

Markdown to data and back, through one schema that looks like the document it
describes. From a schema a document can be **validated**, **extracted** to data,
**rendered** from data, **scaffolded**, and **edited** in place.

```markdown
---
title: string
status: enum(planned, done)
---
## @manual Manual verification
  ### @setup Setup
    - +@items
## @plan Test plan
  - [ ] +@cases
```

The library is written in Verus: every operation carries a contract over
mathematical models of its inputs and outputs, and Verus proves the code
against it.

## Layout

- `src/` — the verified library.
  - `parse.rs`: the schema language (directives, frontmatter field types, body
    node lines, nesting, alias and list-adjacency checks).
  - `doc.rs`: the document model (frontmatter bounds, line offsets, the block
    tree built from comrak's parse).
  - `frontmatter.rs`: the small YAML subset of frontmatter, its type checks,
    quoting and rendering.
  - `matcher.rs`: matching the body against the schema, problems, bindings,
    captures and edit targets.
  - `validate.rs`, `render.rs`, `edit.rs`: the five operations.
  - `opaque.rs`: why a block no schema node claims changes nothing else
    that a scope's matching finds.
  - `roundtrip.rs`: reading back what `render` writes and what `edit`
    leaves, at the level of the blocks the markdown parse gives.
  - `json.rs`: the data value, with sorted object keys.
  - `formats.rs`: the data formats (format by extension, the typed XML
    writer, dropping nulls, and reading and writing each format).
  - `serde_text.rs`: JSON, YAML and TOML text through the serde crates.
  - `cli.rs`: the command line's own decisions (double stdin, locating a
    byte offset).
  - `xml_reader.rs`: reading the typed XML dialect back from quick-xml's
    events.
  - `schema.rs`, `error.rs`, `text.rs`: the data model, errors and text
    helpers.
- `tests/` — the tests, run against the compiled library.
- `app/` — the `marklens` command: argument handling, files and stdin.

## What rests on outside crates

The markdown parse (comrak), regular expressions (regex), XML events
(quick-xml) and JSON, YAML and TOML text (serde_json, serde_yaml, toml) are
called through a few trusted wrappers in `src/doc.rs`, `src/schema.rs`,
`src/xml_reader.rs` and `src/serde_text.rs`; their results are named, and the
library's contracts are stated over those names.
