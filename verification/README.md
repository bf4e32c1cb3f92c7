# micromouse

The backend of a micromouse: it sends movement commands to the mouse over a websocket,
follows what the mouse reports (measurements, finished commands, desynchronisations), keeps
the map of the maze as far as it is known, and enumerates the ways a command can end in what
is known.

Layout:

- `src/` — the verified library (Verus):
  - `transform` — directions, positions and the mouse's transform, with laws on turning and
    moving;
  - `map` — the map of the maze (`MazeMap`), how measurements refine it, how worlds and
    commands evolve (`world_data`), and the enumeration of a command's outcomes
    (`command_world_state`), with laws on refinement and enumeration;
  - `comm` — the text protocol to the mouse (`protocol`, `text`) with its round-trip laws,
    the manager's decisions (`micromouse_manager::ManagerState`), the frontend's messages and
    the configuration of the alive-check channel (`heartbeat_channel`);
  - `strategy` — strategies (`follow_wall`), the strategy tree (`strategy_tree::StrategyTree`:
    expansion, pruning by measurements and rejected outcomes, sending of certain commands,
    closing and grafting) and helpers;
  - `nonempty` — a vector that is never empty.
- `app/` — the program around it: the websocket channel, the asynchronous manager of the
  mouse's connection, the frontend's connection with the JSON forms of the messages, logging.
- `tests/` — tests of the library.
