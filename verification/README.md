# vweditor

The verified core of a viewer and editor for very large CSV, TSV and text
files, with a hex view for binary files, and a small command-line front end.

- `src/` is the library, written in Verus: every function carries a contract
  that Verus proves. Calls into `csv-core`, `encoding_rs`, `memchr` and std
  that Verus cannot read go through small trusted wrappers whose doc comments
  say what is assumed of them.
- `app/main.rs` is the command-line front end: it maps the file into memory,
  runs the indexer and the error scan on threads, writes files through a
  temporary file, and prints. What it opens, finds, replaces or saves is
  decided by the library (`detect_layout`, `replace_all`, `document_bytes`
  and the rest).
- `tests/` runs the library on concrete values.

Modules of the library:

| module | what it holds |
|---|---|
| `index`, `indexer` | the line-offset index and the chunked newline scan |
| `parse` | encoding, delimiter and header detection, CSV fields |
| `layout` | what opening a file guesses from its head: encoding, delimiter, header |
| `fields`, `cells` | facts about the field scan; whole-cell replacement on plain rows |
| `edit` | the edit buffer: text and cell edits, copy/paste, undo |
| `find`, `wrap` | find and replace, the replace-all fast paths and prefilter; the wrapping searches |
| `convert` | delimiter conversion |
| `discard` | actions that could lose unsaved edits and their confirmation |
| `save`, `roundtrip` | encoding a document for saving; saving then opening UTF-8 |
| `validate` | the per-row error scan |
| `hex` | hex-view arithmetic and the binary edit buffer |
| `view`, `textlines`, `theme` | caret and selection rules and what text intents keep; window titles and font lists |
| `bytes`, `chars`, `number` | byte and character helpers |
