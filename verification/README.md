# Memnir

Shared memories across machines and sessions: a store of small Markdown files
with a frontmatter, an index of them, links between them, version reservations,
and a sync that sends only what says `scope: shared`.

- `src/` is the library, verified with Verus: everything that the program decides,
  computes or says.
- `tests/` runs the library on concrete values.
- `app/` is the program around it: files, `rsync`, `ssh`, the clock, the browser.

Everything is kept in one directory of the home directory, whose name the program
takes from `MEMNIR_BASE`; the store is `memnir` in it.

Contracts speak of texts as sequences of characters. What holds of the library as
a whole is in the modules whose names end in `_laws`, and in public proof functions
beside the functions that they are about.

Two functions of std are taken as they are documented: `String::push` appends a
character, and `str::to_lowercase` depends on its text alone.
