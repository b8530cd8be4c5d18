# tdv

A terminal viewer for a directory tree and its Git changes, with whole-file
side-by-side diffs. The core is a library verified with Verus; a thin program
around it does the terminal, the file system and Git.

- `src/` — the verified library: line tables and the alignment of old and new
  lines into rows (`lines`, `align`), word-level spans (`inline`,
  `similarity`), text measuring and clipping (`text`), the layout of a diff
  row's side (`layout`), syntax coloring through syntect with its bundled
  syntaxes and themes and the library's own `tdv-dark` and `tdv-light`
  (`highlight`), the
  directory tree model (`tree`, `walker`), searching the content pane
  (`search`), change lists (`changes`,
  `status`), configuration (`config`), key mapping (`keys`), the folded diff
  view and the application's state (`state`, `app`), and how that state
  answers actions and finished jobs (`update`, `results`). Line diffs come
  from gix's diff engine and character widths from unicode-width, each
  behind a small trusted wrapper.
- `app/` — the program: command line, configuration file, reading the
  repository with gix, worker threads, file watching, and drawing with
  ratatui. It hands the library plain values and runs the jobs the library
  queues.
- `tests/` — tests of the library's behaviour on concrete values.
