# gosu_lsp

A verified library for Gosu source formatting and the small language server
that offers it to editors, with the Zed extension's install decisions.

- `src/text.rs`: character sequences: lines (as `str::lines` splits them),
  trimming, searching.
- `src/formatter.rs`: the formatting model (`formatted`) and the formatter
  (`format_gosu`), proved equal to it.
- `src/format_laws.rs`: what every formatted text satisfies.
- `src/colon_laws.rs`: normalising type colons twice is normalising them once.
- `src/refold.rs`: formatting a formatted text changes nothing.
- `src/json.rs`: JSON values and their mathematical model.
- `src/documents.rs`: the open documents, viewed as a map from URI to text.
- `src/lsp.rs`: the language server's decisions: one message in, the new
  documents and the reply out; `src/lsp_laws.rs` states its laws.
- `src/transport.rs`: message headers and framing.
- `src/extension.rs`: which release asset the Zed extension installs, and where.
- `app/`: the `gosu-lsp` program (standard input and output, `serde_json`) and
  the Zed extension's calls into Zed.
