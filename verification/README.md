# sqs

A vim-style terminal tool for reordering items across named lists. Items are
Markdown files with YAML front matter, one directory per list, and the lists
are kept in `lists.yaml`.

## Layout

- `src/` — the library, verified with Verus. It holds the decisions of the
  program with their contracts: the command-line grammar and its shorthand
  expansion (`cli_args`, `fuzzy`), configuration precedence (`config`), the
  editor command (`editor`), item files (`frontmatter`, `adapter`), search and
  item references (`search`), renumbering of order keys (`renumber`), block
  moves of items and lists (`reorder`, `sidebar`), tags (`tags`), the terminal
  interface's key bindings and state (`keys`, `tui_state`), printed reports
  (`report`, `doctor`), ids (`identity`, `id_state`) and errors (`errors`).
  Laws that span functions are public proof functions (for example
  `reorder::lemma_shift_down_then_up`, `renumber::lemma_renumber_idempotent`,
  `fuzzy::lemma_expand_command_idempotent`, `tags::lemma_merge_tags_idempotent`).
- `app/` — the program around it: argument parsing with clap, files,
  environment, the SQLite cache, prompts, and the ratatui dashboard. Order
  keys are floating-point numbers there.
- `tests/` — tests of the library on concrete values.
