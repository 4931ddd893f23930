# rhwp

Turns Markdown drafts into blocks and inserts them into an open document. Everything under `src/`
is verified by Verus.

- `scaffold::strip_inline` strips inline markup down to plain text.
- `scaffold::parse_markdown_blocks` turns a text into headings, paragraphs and tables.
- `DocumentCore::insert_blocks_native` and `insert_markdown_native` insert blocks as paragraphs
  that inherit the format around them, and rebuild what is derived from the document.

What each function returns is stated in its contract. What holds of all inputs, or of several
calls, is stated and proved in `scaffold/inline_laws.rs`, `scaffold/markdown_laws.rs` and
`scaffold/insert_laws.rs`. The only facts taken on trust are three about std, in `text.rs`.
