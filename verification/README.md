# kreuzberg (verified core)

Document-extraction logic written in Verus and proved against its contracts:
rendering of documents to Markdown and HTML, the HTML, email and iWork
document builders, the PDF paragraph heuristics (heading classification,
region assignment and reading order, merging and demotion passes), the
layout-model cache as a step-by-step state machine, and the structural
markdown measures.

Layout:

- `src/` — the verified library. Each module states its behaviour with spec
  functions over sequence-based views of the data; public proof functions
  state the laws the modules keep (round trips of single paragraphs, of
  metadata blocks and of email headers, escaping, dangerous links that never
  become anchors, list and quote tags that balance, trimmed HTML prose,
  one-to-one matching, preservation of lines and merged titles in the PDF
  passes, column splits that cross no region, and model-cache runs that end
  at the cached file). Calls into outside crates (`html-to-markdown-rs` for
  tables, metadata and inline images, `sha2`, `hex`) sit behind small trusted
  wrappers whose contracts are documented where they stand.
- `app/` — the unverified rim: file and network I/O for the model cache,
  ONNX runtime discovery, image preprocessing, and the PDF comparison
  helpers.
- `tests/` — tests of the library from the outside.

PDF lengths are integers in hundredths of a point and confidences are in
thousandths, so every comparison the heuristics make is exact.
