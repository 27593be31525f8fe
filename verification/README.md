# tmt

The verified core of a document translation service. The service takes a
DOCX, PDF, CSV or plain-text file, sends its text to a translation API, and
returns the file with the same layout and the text translated.

Layout:

- `src/` — the library, verified with Verus:
  - `text.rs`: character-level helpers (white space, trimming, replacing, splitting).
  - `docx.rs`: finding `<w:t>` text runs in WordprocessingML, entity decoding and
    escaping, rebuilding the XML with translations, and repacking a document.
  - `fonts.rs`: finding the font sizes (`w:sz`, `w:szCs`) of document XML and
    writing new ones in their place.
  - `archive.rs`: reading and writing the ZIP container (through the `zip` crate).
  - `csv.rs`: which cells are translated, and reading and writing tables (through the `csv` crate).
  - `txt.rs`: line-by-line handling of plain text.
  - `client.rs`: authorisation, spacing and retrying requests under the API's rate
    limit, and reading API replies.
  - `sentences.rs`: cutting long texts at sentence boundaries (through the
    `unicode-segmentation` crate) and putting the translated pieces back together.
  - `handler.rs`, `server.rs`: checking uploads and job requests, naming outputs, job states.
  - `types/`, `parser/`: the data types.
- `app/` — the HTTP server, the API client's network calls, PDF conversion and
  other I/O, around the library.
- `tests/` — tests of the library on concrete inputs.
