# pdf_flatten

A desktop tool that flattens PDF annotations: for every page, the normal
appearance stream of each annotation is appended to the page's content
(each part wrapped in its own `q … Q` pair) and the page's `Annots` entry
is removed, so the marks become part of the page itself.

The logic is a Verus library, proved against its contracts:

- `src/model.rs` – the document model (arrays, dictionaries, streams and
  references as the library's own values; other objects carried as
  `lopdf` values), object lookup with reference following, and the
  dictionary and document updates.
- `src/pdf/flatten.rs` – reading a page's content and annotation
  appearances, flattening a page, a list of pages and a document, and the
  output file name.
- `src/pdf/types.rs` – what the file list shows of a document (page and
  annotation counts).
- `src/pdf/laws.rs` – properties across calls: a flattened page lists no
  annotations and flattening it again changes nothing, a flattened
  document lists no annotations (both for documents whose dictionaries
  hold each key once, as lopdf's always do and every update here keeps),
  a flattened page's content reads back as its former content followed by
  the appearances (when, besides, the id the next added object gets is
  free), and more steps for reading content change nothing once reading
  ends.
- `src/pdf/content_laws.rs` – one step per stored object is enough for
  reading a page's content, so the step bound only cuts reference cycles.
- `src/pdf/filters.rs` – which streams lopdf can decode without a panic
  (ASCII85 groups that fit a `u32`, predictor row sizes that fit), tested
  before a stream is handed to it.
- `src/pdf/outside.rs`, `src/pdf/paths.rs`, `text::to_lowercase` – the
  calls into `lopdf` and `std` that the library trusts, with their stated
  contracts (for paths: what holds on every platform for plain paths).
- `src/i18n.rs` – the interface texts in Chinese and English and the choice
  of language from the locale.
- `src/app.rs`, `src/ui.rs` – the application state (file list, options,
  progress) and the decisions of the file list and progress display.

`app/` is the program around it: loading and saving files with `lopdf`,
converting between `lopdf` documents and the model, reading the locale, and
the egui window.
