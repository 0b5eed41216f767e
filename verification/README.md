# snout

Local file search: the text of a user's files is indexed so that words, phrases and
topics can be found again. This crate is the verified core of it.

- `src/` is the library, verified with Verus:
  - `text` — whitespace, trimming, word splitting and normalization of character sequences;
  - `chunker` — cutting a text into sentences and packing them into overlapping chunks;
    `chunk_laws` proves what every chunking gives (no empty, untrimmed or unnormalized
    chunk, no chunk past the target size unless it holds a single sentence, overlap
    between neighbours that starts at a whole word, no sentence lost);
  - `extract` — which reader a file needs, and the text of spreadsheets and Word documents
    once their cells and runs have been read;
  - `indexer` — content hashes and the decisions of an indexing pass (add, replace, keep,
    remove);
  - `vectors`, `ranking`, `hybrid` — the best chunk per file, ranking by score, and the
    fusion of full-text and semantic result lists;
  - `paths` — where the data lives.
- `app/` is the command-line program: it walks folders, reads and parses files (PDF, Word
  and spreadsheet parsers panic on some malformed files, so no contract stands for
  them), keeps the full-text index (tantivy) and the embedding store, and computes the
  floating-point scores.
- `tests/` runs the library on concrete inputs.
