# infisearch

The verified core of a client-side search engine: an indexer that turns
documents into postings lists, a dictionary and document information, and the
query side that parses and expands search queries.

## Layout

- `src/` — the library, verified with Verus. Each public function states what
  it returns in its `ensures`; the laws of the library are public proof
  functions whose names start with `law_`:
  - `varint::law_read_back_written` — a variable-length integer reads back.
  - `escape_json::law_unescape_escape` — escaped text unescapes to itself.
  - `field_store::law_document_file` — which file stores a document's fields.
  - `metadata::law_nums_read_back`, `metadata::law_enums_read_back`,
    `metadata::law_docinfo_read_back` — the document information reads back.
  - `spelling::law_correction_is_remembered`, `spelling::law_levenshtein_symmetric`,
    `spelling::law_correction_is_closest`.
  - `query_parser::law_parse_state` — the parser's state between characters.
  - `librarian::tokenize::law_terms_within_byte_limit`,
    `librarian::dictionary::law_add_term`.
  The search side also reads the field information the front end hands over
  (`searcher`) and combines its postings lists by their operators
  (`conjunctive`); the first-generation indexer's blocks merge term by term
  (`librarian::block_merge`) and its dictionary records read back
  (`librarian::block_reader`).
- `tests/` — tests of the library on concrete values.
- `app/` — the command line indexer: file input and output, argument and
  configuration handling, and the scoring formulas, which use floating point.
