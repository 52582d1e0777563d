# noyalib

Lossless, path-addressed editing of YAML text, verified with Verus.

A document keeps its source byte for byte. Every edit finds a range of bytes by
a path (`a.b[0].c`), replaces that range and leaves all others alone; an edit
that is refused leaves the document as it was. The typed edits load the edited
text again and hold it to the value that was asked for.

- `src/` is the library. `document` and `insertion` hold the edits, `model` says
  what each of them does, and `laws` what holds of them together. Below them:
  `grammar`, `green` and `tiling` (the syntax tree), `load` (typed values),
  `resolve`, `entry` and `site` (where a path leads), `repair` (parsing only
  what an edit touched), `scalar`, `decode`, `emit` and `spelling` (how scalars
  are written and read). `inclusion` and `composition` put documents together
  from several sources; `diagnostic` and `report` say what went wrong.
- `app/` is ordinary Rust around it: sources from files below a directory, a
  shorthand for limits, and a fuzz target.
- `tests/` runs the library.
