# oxidize_pdf

A PDF parsing library whose logic is verified with Verus: every function
under `src/` carries a `requires`/`ensures` contract over mathematical
models (spec functions on `Seq`, `Map`, `int`), and Verus proves the code
against it.

## Layout

- `src/` — the verified library.
  - `lexer.rs`, `objects.rs`: tokens and the object model (arrays,
    dictionaries, streams, references) and their parser, including stream
    data with lenient length recovery and indirect-object headers.
  - `content.rs`: content streams, tokenized and turned into operations.
  - `xref.rs`, `xref_stream.rs`, `xref_types.rs`: cross-reference tables
    and streams, their decoding, and a builder with a proved round trip.
  - `filters.rs`, `filter_impls/`: ASCIIHex, ASCII85, Flate (through
    flate2), CCITT fax, JBIG2 and DCT header decoding, with round-trip and
    bit-packing laws.
  - `header.rs`, `encoding.rs`, `page_tree.rs`, `object_stream.rs`,
    `stack_safe.rs`, `encryption_handler.rs`, `parse_options.rs`,
    `reader.rs`, `error.rs`, `text.rs`, `lexical.rs`.
- `tests/` — tests of the library.
- `app/` — the parts that do I/O (reading files, caching objects, the walk
  of a document's page tree through its reader) and copies of the object
  model with `f64` real numbers; they call the library for every decision.

Calls into flate2 and into std functions that Verus does not specify go
through small trusted wrappers, each documented with what its contract
claims.
