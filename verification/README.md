# acquire_rs

The board game Acquire for the terminal, with its rules written as a verified Verus library.

- `src/` is the library, every function with its contract: the board and its positions
  (`board`), the hotel chains (`chain`, `chain_manager`), stocks, bank and bonuses (`stock`,
  `bank`, `purchase`), what placing a hotel does (`placement`, `logic`), fusions (`fusion`),
  the players (`player`), the game as a whole and its deck (`game`), the texts shown on the
  terminal (`display`, `text`), the lines exchanged on the local network (`protocol`), and the
  layout of a demonstration (`demo`).
- `app/` is the program around it: the command line, the terminal and the network, and the
  questions asked to the players.
- `tests/` runs the library on concrete games.
