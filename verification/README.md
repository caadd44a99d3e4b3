# autofilm

A verified library for AutoFilm's two tasks, written in Verus:

- **Alist2Strm** turns the files of an AList server into `.strm` files: it
  builds download links and local paths (`alist2strm::path`), normalises the
  configuration (`alist2strm::config`), protects `.strm` files against large
  accidental deletions (`alist2strm::protection`), decides which local files
  are stale and which empty directories go (`alist2strm::utils`), and counts
  what a run did (`alist2strm::summary`).
- **Ani2Alist** keeps an AList `UrlTree` storage in step with the ANI index:
  it reads and writes the tree text (`ani2alist::url_tree`), reads ANI
  listings and the RSS feed (`ani2alist::utils`), and decides what a run
  lists and what it sends back (`ani2alist::runner`).

`text` holds the string model (a `Seq<char>` view of every string) and the
executable string operations proved against it. `outside` holds the trusted
items: the calls into `urlencoding`, `regex`, `chrono`, `serde_json` and
`std::path`, each with the contract that the rest of the library relies on.

Laws proved in `src/` include: reading the text of a tree gives the tree back
(`url_tree::law_structure_roundtrip`); a file placed in a tree is found there
and leaves its neighbours alone (`law_upsert_then_lookup`,
`law_upsert_keeps_others`); large deletion batches are held back until the
grace count is reached (`protection::law_grace_step`,
`law_consecutive_large_scans`); suffix normalisation is idempotent
(`config::law_normalize_ext_idempotent`).

`app/` is the runtime around the library: configuration files, the file
system, HTTP, the AList admin client, logging and the start-up banner.
