# fathom

Year-over-year analysis of the Item 1A risk factors that public companies
disclose in their 10-K filings, with the analytical core verified by Verus.

- `src/` — the verified library.
  - `model`: filers, filings, risk-factor sections and drift facts, with their
    abstract views.
  - `drift`: pairing of consecutive fiscal years per filer (each filer's
    pairs in ascending year), and the count drift of each pair.
  - `language`: the language drift of each pair (common, added and removed
    headings; the counts behind the Jaccard similarity).
  - `invariants`: the mass-conservation check between count and language
    drifts, and the law that the library's own drifts always pass it when no
    section repeats a heading.
  - `sec`: text search (non-overlapping matches, as byte offsets), locating
    Item 1A in a 10-K document, and choosing plausible headings among
    extracted texts.
  - `hf`: splitting a JSON-lines shard into numbered record lines, and
    conversion of dataset records into sections.
  - `analysis`: selection and ordering of a filer's sections, suggestor
    acceptance, and fact identifiers.
  - `text`: decimal rendering, lexicographic order and text equality.
- `app/` — the command-line program: fixture loading, JSON (de)serialisation,
  the Converge suggestor and invariant implementations, and live ingest.
- `tests/` — tests of the library.
