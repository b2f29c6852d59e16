# matchmaker

The logic of a terminal fuzzy picker, written in Verus and proved against its
contracts.

- `src/` is the verified library: hidden-column sets and selections
  (`collections`), column widths (`widths`), cell and row rendering with match
  highlighting and scrolling (`render`, `rows`, `text`), layout of the results,
  preview and overlays (`ui`, `preview`, `display`), line splitting into
  columns (`split`), the status-line template (`status`), the key binding help
  (`help`), what the previewer is told (`previewer`), mouse triggers and mode
  filters (`binds`, `mode_filter`), terminal placement (`tui`), the picker's
  commands (`picker`), key presses (`keys`), alias resolution and its loop
  check (`semantic`), and padding values (`padding`).
  Calls into outside crates (nucleo, regex, ratatui, indexmap,
  unicode-segmentation, unicode-width, cli-boilerplate-automation) stand
  behind small trusted wrappers whose doc comments say what is assumed.
- `tests/` runs the library on concrete values.
- `app/` holds what Verus does not check: conversions to the terminal crates'
  types, serde copies of the configuration, process-wide state and the
  terminal queries.
