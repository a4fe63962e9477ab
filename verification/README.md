# pre_commit_tool_hooks

Checks for markdown and source files, run as pre-commit hooks, with their
logic verified by Verus.

- `src/markdown.rs`: headings (with GitHub-style anchors) and links of a
  markdown document, read from the `pulldown_cmark` event stream.
- `src/links.rs`: what to do with each link (anchor lookup, URL parsing,
  file probes) and a cache of parsed documents.
- `src/toc.rs`: the table of contents between `<!-- toc -->` and
  `<!-- tocstop -->`.
- `src/style.rs`: doc-style word replacements outside ignored regions.
- `src/copyright.rs`: which copyright header a file needs and whether it has
  it.
- `src/text.rs`, `src/pattern.rs`: string operations with their models, and
  the `regex` crate behind a few trusted wrappers.
- `app/`: the command-line tools (`check-copyright`,
  `check-google-doc-style`, `check-links`, `markdown-toc`), which read and
  write the files.
