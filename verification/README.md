# wikitui

A terminal reader's core. `src/` is the verified library: its functions carry
contracts that Verus proves. The wrappers round outside calls state what is
believed of those calls. Where the program's directories lie rests on the
machine: the four functions that give them state what holds of every platform's
answer, and the functions beside them, which take the answer, state the result
exactly.

- `doc`: what a parsed article is.
- `layout`: articles become terminal rows, with the mappings from blocks and
  links to rows; search in the rows; a cache of layouts.
- `netqueue`: the background queue, its budgets, its breaker and its worker's
  decisions.
- `prefetch`: which links are fetched ahead, and the daily feed.
- `registry`: the commands, the key chords, the keymaps and their help sheets.
- `migrate`: another reader's configuration becomes a theme and a keymap.
- `saved`, `saved_export`, `research`, `line_file`: pinned pages, their exports,
  the bibliography, and the files of lines that hold them.
- `offline_search`: what the full-text index holds, and how it is asked.
- `sanitize`, `privacy`, `random`, `search_ops`, `macros`, `perflog`, `paths`:
  clean text, incognito rules, the random good article, search operators,
  command sequences, log lines and directories.
- `text`, `toml_text`: strings as sequences of characters, and TOML tables.

`app/` is the program round it: files, the database, the clock and the network.
`tests/` runs the library.
