# pdf_core

A PDF toolkit's core, written in Verus: the object model, lexer and
parser, the stream filters, object streams, garbage collection, the
pending-edit overlay and object store, optional content (layers), the page
inventory, and the small value types of the document façade. Each function
states what it returns or changes in `requires` / `ensures`, and Verus
proves it.

## Layout

- `src/` — the verified library.
  - `object/` — values (`Object`, `Dict` with sorted keys, names, strings,
    streams), their views as `PdfValue`, and the parser.
  - `lexer.rs` — the tokenizer, total on any input.
  - `filters/` — ASCIIHex, ASCII85, RunLength, LZW, Flate and the PNG/TIFF
    predictors, and the `/Filter` chain.
  - `objstm.rs`, `gc.rs`, `changeset.rs`, `store.rs` — object streams,
    mark-sweep and dense renumbering, the edit overlay, and reference
    resolution over the objects plus the overlay.
  - `ocg.rs`, `inventory.rs`, `page.rs` — layers and their panel,
    font/image inventory, effective page resources.
  - `encrypt.rs`, `document.rs`, `api.rs`, `geom/`, `text.rs`, and the
    rest — the encryption dictionary, the header version, the façade's
    value types, integer rectangles and paper sizes, text decoding.
- `tests/` — tests run against the compiled library.
- `app/` — floating-point geometry and colour, and the text of errors:
  what the library does not verify.

Laws that span several functions are public proof functions named
`law_*`, next to the functions they are about.
