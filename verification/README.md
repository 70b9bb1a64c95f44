# rss_ai

The verified core of an RSS reader that turns feeds into a searchable
knowledge base. The library in `src/` is written in Verus: every function
carries a contract that Verus proves, over mathematical models (sequences,
maps, sets) of the data it handles.

## Layout

- `src/` — the library.
  - `config` — configuration sections, defaults, environment overrides and
    validation.
  - `feed` — judging HTTP answers to feed requests, reading feed documents
    (through `feed-rs`), turning entries into articles, summarising a round.
  - `crawl` — origins of URLs, robots.txt verdicts, spacing of requests to
    one origin.
  - `robots` — parsing robots.txt and matching paths.
  - `extract`, `page` — normalising, truncating, counting and hashing text;
    reading dates; choosing the article's root, blocks, title, author and
    date from the answers of the HTML reader.
  - `search`, `snippet` — search filters and paging, snippet terms and
    snippets, index documents, ordering by date.
  - `vector` — the bookkeeping of the vector index: slots, tombstones,
    search plans, persistence checks.
  - `hybrid` — fusing keyword and semantic rankings.
  - `embeddings` — preparing text for embedding, the API client's retry
    policy and batching, the batch pipeline's counts.
  - `graph` — breadth-first walk of the article link graph.
  - `chars`, `unicode`, `parse`, `time`, `urls`, `models` — text, numbers,
    dates, URLs and records shared by the modules above.
- `tests/` — tests of the library.
- `app/` — the program around it: the command line, the database, HTTP,
  the full-text and vector indexes, the HTML reader, and the floating-point
  scores.
