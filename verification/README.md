# dungeon_saver

A terminal dungeon screensaver: an explorer roams a dungeon generated room by
room with the 2D6 rules, a camera follows it, and the map is saved on exit.

- `src/` — the verified library: generation rules (`dungeon/`), explorer and
  A* pathfinding (`explorer/`), ASCII and canvas rendering with the camera
  (`renderer/`), map export (`export.rs`), the main loop's decisions, command
  line and quit keys (`screensaver.rs`), colors (`theme.rs`), dice (`rng.rs`).
- `app/` — the program: terminal setup, the frame loop, key events, printing
  in color and writing the map file.
- `tests/` — tests of the library.
