# sifter

A local-first search engine for code and documentation: collections of files
are indexed into SQLite and a Tantivy lexical index, Markdown is chunked by
heading, and Rust sources are read with Tree-sitter for the symbols they
define and the names they import or mention.

The decisions of the tool are a library verified with Verus (`src/`); the
command-line program around it (`app/`) parses arguments, reads and writes
files, and talks to SQLite and Tantivy.

## Library modules

- `config` — collections and context annotations, the effect of every
  configuration change, where configuration and cache files live, and which
  contexts apply to a path (longest scope first).
- `index` — file classification, titles, content-addressed ids, Markdown
  chunking, `path:line` references, line slicing, and related-file ranking.
- `indexer` — which files of a collection are indexed, and the records one
  file becomes.
- `codeintel` — symbols, relations, the language plugin trait and its
  registry; `rust_plugin` — the Rust plugin.
- `snippet` — the snippet shown for a search hit.
- `cli` — output format selection, what a `search` or `show` command asks
  for, and XML and CSV escaping.
- `strmap`, `text`, `paths` — an ordered string map, character-level text
  functions, and path helpers used by the modules above.

Public proof functions named `law_*` state properties that span several
operations, such as removing a collection undoing its addition, or a context
applying to every path its scope covers.
