# codewatch

A code-reading assistant (`cw`): it scores the files of a project by git
activity, size and how often other files import them, keeps per-file notes,
and lists files by score or by how recently their note changed.

- `src/` is the verified library. Its modules:
  - `text`: character-level string helpers (decimal numbers, suffixes,
    substring search, splitting).
  - `paths`: Unix paths as text: components, joining, normalising, stripping
    a base directory, parents.
  - `index`: index locations, path normalisation and resolution, the index key
    of a path (SHA-256 through `sha2`, hex through `hex`).
  - `config`: languages, import patterns and exclusions; upgrading the older
    flat extension list.
  - `matching`, `parser`: regular expressions through `regex`, import
    extraction.
  - `scan`: exclusion globs, which files are indexed, reference counts,
    the progress line.
  - `scorer`: size formatting and the ranges scores are normalised against.
  - `ranking`: the listing orders and paging.
  - `note`, `git`: note paths and templates, editor command lines, commit
    counts from `git log`.
- `app/` is the command-line program: argument parsing, files, processes,
  serialisation and the floating-point score arithmetic.
- `tests/` exercises the library.
