# ebook_translator

The core of a desktop ebook translator (EPUB and PDF in, EPUB out, paragraphs
translated in batches with the Gemini API), written in Verus with its
behaviour stated as contracts and proved.

## Layout

- `src/` — the verified library.
  - `text.rs`: character-level helpers (trimming, splitting, lines, decimal).
  - `html.rs`: entity unescaping and escaping, the block-collection and
    rewriting passes as state machines.
  - `markup.rs`: the HTML of a document as a sequence of open, close and
    text events (read with `lol_html`), the blocks collected from them, and
    the edit plan that the rewrite applies (inserts after blocks, text
    removals, the head style).
  - `epub.rs`, `package.rs`: archive paths, the container/OPF/NCX/nav reading,
    spine documents and the loaded book.
  - `pdf.rs`: page-furniture removal, paragraph grouping, chapter chunking,
    markdown flattening, PDF metadata and the reader fallbacks.
  - `job.rs`: batching under the token budget, splitting oversized blocks,
    applying and resuming translations, progress and run outcomes.
  - `gemini.rs`: token estimates, the rate limiter, reply parsing, the retry
    budget of a batch and the request text.
  - `cache.rs`, `usage.rs`: the translation cache and the daily quota counters.
  - `output.rs`: the rebuilt or newly written EPUB.
  - `commands.rs`, `settings.rs`, `types.rs`, `book.rs`, `json.rs`, `error.rs`.
- `tests/` — tests run against the compiled library.
- `app/` — the application around it: HTTP, files, the worker pool, the
  PDF readers (`pdf-extract`, `pdf-inspector`, lopdf's
  Info dictionary, `pdftotext`; they can panic on malformed files, so they
  run under `catch_unwind` and hand their results to the library), and serde
  copies of the library's types.

Calls into the other outside crates (lol_html, zip, roxmltree, sha2,
serde_json, rand) go through small trusted wrappers whose doc comments say
what is assumed of them.
