# mines

A minesweeper library whose rules are proved with Verus, and a small program
around it.

- `src/field.rs`: cells, the field, its mathematical view (`Board`) and its
  construction from mine locations or a matrix of flags.
- `src/grid.rs`: neighbours of a cell, mine counts, and the consistency of the
  numbers shown with the mines around them.
- `src/flood.rs`: revealing a cell, with the spreading over empty cells stated
  exactly (`revealed_from`).
- `src/play.rs`: flagging, unflagging, `auto_flag` and `auto_reveal`.
- `src/status.rs`: lost and won, and the lists of cells.
- `src/render.rs`: the text of a field.
- `src/menu.rs`, `src/game.rs`: the start menu and a game whose mines are laid
  at random when the first cell is revealed, never next to it.
- `src/keys.rs`: which key asks for which action, in the game and in the menu.
- `src/laws.rs`: properties across operations (settledness, idempotence,
  flag round trips, when a reveal loses, transposed fields).
- `app/`: the demo program and the terminal front end (`mines tui`).
