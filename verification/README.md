# filefinder

A local file finder with an interactive prompt: `find <path> [options]`
searches a directory tree by name (glob or regular expression), extension and
size range, skipping `.git` and `node_modules` directories and the rules of a
`.gitignore` file, and prints each file with its size and modification time.

- `src/` is the verified library: size ranges (`10K..100M`), the reading of
  the prompt's commands and arguments, the ignore rules, the per-entry
  decisions of the directory walk, and the formatting of sizes, dates and
  colours. Each public function states its result in its contract (but
  `Output::new`, whose result depends on whether standard output is a
  terminal), and the
  `lemma_*` proof functions state the library's laws.
- `app/` is the program around it: the prompt loop, the parallel directory
  walk, file and terminal I/O, and opening a chosen file.
- `tests/` runs the library on concrete values.
