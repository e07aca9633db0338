# logsim

A logic-gate simulator's core, verified with Verus: bit fields and truth
tables, combinational gates, chips packed from boards, the editable board
with its queue of delayed link writes, the preset library with its search,
and the editor state between frames.

## Layout

- `src/bits.rs`: bit fields, truth tables, and the changed outputs between
  two output patterns.
- `src/text.rs`: numbers as text, blank and substring tests.
- `src/gate.rs`, `src/chip.rs`, `src/chip_preset.rs`: gates, packed chips
  and the chip that runs from a packed preset.
- `src/queue.rs`: the write queue with random delays.
- `src/maps.rs`: the board's hash maps, behind trusted wrappers.
- `src/board.rs`: the board: pins, groups, devices, links, and the update
  step.
- `src/links.rs`: at most one link leads into a target.
- `src/presets.rs`: presets, the library and the older preset list, truth
  tables simulated from a board.
- `src/pack.rs`: packing a board into a chip preset.
- `src/ui_state.rs`, `src/platform.rs`: editor state (including the two
  preset placers' search results) and the browser's OS.
- `src/input_step.rs`: one frame of pointer and key input over a board
  item.
- `src/sim_page.rs`: the simulation page's decisions each frame: updates
  to run, key binds, dragging, placing held presets, menu actions.
- `src/debug.rs`, `src/files.rs`, `src/sim.rs`: indented dumps, file errors
  and kinds, and the first simulator's plain values.
- `app/`: the program around the library: loading and saving the settings,
  the board and the presets (serde, ron, bincode, dirs).
- `tests/`: tests of the library on concrete values.
