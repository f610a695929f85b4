# reader_core

The core of an EPUB reader, verified with Verus.

`src/` is the verified library:

- `path` — normal form of resource paths inside a book and matching of a
  document path against navigation targets;
- `chapter` — the content model (spans, blocks, chapters, table of contents);
- `book` — building a book's chapter list and table of contents from what is
  read of its EPUB file, and the loading state of chapter content;
- `reviews` — pairing of review chapters (` - 段评`) with the chapters they
  comment on;
- `loading` — finding a chapter's document in the spine and running the
  per-chapter parse over a list of jobs;
- `links` — what following a link clicked in chapter text does;
- `cache` — framing of the parsed-book cache file kept beside a book, and its
  path;
- `pages` — the page count and current page once a chapter is laid out;
- `text` — character helpers.

`app/` holds what Verus does not see: reading EPUB files with `rbook`, reading
and writing the cache with `bincode`, serialisable copies of the content types,
and the floating-point text layout of the reading view.
