# mdp

A previewer for markdown: any directory of `.md` files becomes a book that mdBook serves in a
browser or builds as HTML or PDF.

The library in `src/` holds the decisions of the program. It is written in Rust with contracts that
Verus proves. The program in `app/` does what the library cannot: it reads directories, runs
programs, watches files and talks to the network, and hands the library plain values.

## The library

| Module | What it decides |
| --- | --- |
| `walk`, `walk_laws` | which pages a source directory has: excluded names, links that lead away, cycles |
| `preset`, `list_laws` | the sorted list of pages, which of them are mirrored, how a snapshot is taken |
| `chapter`, `chapter_laws`, `tree_laws`, `summary` | the tree of chapters and the text of `SUMMARY.md` |
| `title`, `link` | the title of a page; link texts and targets |
| `config`, `theme` | the configuration of a book, its `book.toml` and its theme |
| `toml_text` | TOML strings, and the removal of sections from a TOML text |
| `commands` | registration of the preprocessor, missing tools, the watchdog over long builds |
| `commands::preprocess`, `commands::book`, `commands::drawing` | diagrams in markdown and in books |
| `commands::serve`, `commands::pdf`, `commands::install`, `commands::dump` | one command each |
| `data_uri`, `json` | base64 and data URIs; JSON values |
| `text`, `number`, `utf8`, `os_path`, `order`, `named` | what the others are built on |

A directory tree is a snapshot: a list of directories, each with what listing it gave. `Crawl` asks
for one directory after the other until the snapshot is complete. Paths are bytes.

Functions whose names begin with `law_` state what holds of the library as a whole, such as that an
escaped text reads back from TOML as it was, that no page is found twice, or that the pages of the
chapter tree are the listed ones.

## What is trusted

The proofs rest on the contracts of a few functions of other libraries:

| Function | Where |
| --- | --- |
| `String::push` | `text` |
| `std::str::from_utf8`, `String::from_utf8_lossy` | `utf8` |
| `str::to_lowercase` | `config` |
| `base64::Engine::encode` | `data_uri` |
| `blake3::hash` | `commands::drawing` |
| `serde_json::from_str`, `serde_json::to_string` | `json` |
