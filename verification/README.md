# nonogram

A nonogram (picross) toolkit whose logic is verified with Verus: puzzle
parsing and export, a best-first graph-search solver, line reasoning, the
hand-solving board with its assistance, and the text the tools print.

## Layout

- `src/` — the verified library.
  - `types`, `text` — shared puzzle types and character-level text helpers.
  - `parse`, `export`, `convert`, `letter_import`, `url_import` — the native
    one-line format, Puz-Pre v3, puzz.link URLs, puzzle-nonograms.com pages,
    letter-encoded files and other encodings.
  - `line`, `search`, `solver`, `counting`, `human`, `solver_kind` — line
    reasoning, the graph search and the solvers.
  - `assist`, `board`, `selection`, `file_list`, `status`, `session`,
    `settings`, `scan`, `solution_file` — the logic of the puzzle browser and
    the hand-solving board.
  - `report`, `difficulty` — printed reports and the integer parts of
    difficulty rating.
  - `round_trip` — what reading gives back of writing, for each format.
- `tests/` — tests of the library.
- `app/` — the command-line solver and converter around the library.

## Checking

Every function in `src/` is verified by Verus, and all but the three
methods of `CancelToken` carry a contract: that token wraps an atomic flag
shared with other threads, so what it reads cannot be specified. The
search takes its cancellation check as an argument and states what it
returns when the check never (or always) answers yes: never cancelled, it
ends `Complete` exactly when the puzzle has a solution. Laws that relate
several functions (round trips, undo and redo, traces, completion counts)
are public proof functions.
