# satori

Local memory-pack tooling: a retrieval pipeline over a pack of indexed
documents, answer synthesis with a local or hosted chat model, and an
HTTP/MCP service. This crate holds the part of it that is specified and
proved with Verus; `app/` holds the I/O around it.

## Layout

- `src/text.rs` – strings as `Seq<char>`: trimming, search, splitting into
  runs, joining; trusted access to a few std text functions.
- `src/answer.rs` – clean-up of model output: cut at the next chat turn,
  template-token removal, whitespace collapsing, numbered-line handling.
- `src/provenance.rs` – proof that the cleaned answer adds no text.
- `src/stripping.rs` – proofs that stripped text holds no complete template
  token and stripping it again changes nothing, that every word of the
  stripped text and of the cleaned answer occurs verbatim in the input, that
  the answer holds no next-turn marker, and that neither step makes the text
  longer, in characters or in UTF-8 bytes.
- `src/openai.rs` – reading an OpenAI chat-completions reply (status, JSON
  body, `choices[0].message.content`).
- `src/synth.rs` – prompt assembly and the answer-synthesis protocol
  (decisions between OpenAI, the local model-file check and the local run).
- `src/path.rs`, `src/validate.rs` – Unix path components and input
  hardening (control characters, query/encoding characters, `..`, root
  containment).
- `src/lexical.rs` – token sets and lexical overlap.
- `src/rank.rs` – grouping of hits and fusion of the two retrieval lists.
- `src/service.rs`, `src/rerank.rs`, `src/pack_location.rs` – service
  defaults, health verdict, MCP routing, the embedding-provider fallback
  (`fastembed` to `hash`), reranker choice, pack paths.
- `app/` – the command line, terminal output, file access, path resolution, floating-point
  scoring, the HTTP client for OpenAI, the axum server and the fastembed
  reranker, written against the library.
- `tests/` – executable tests of the library.
