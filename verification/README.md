# Dr. W. Falls

A networked game similar to Dr. Mario: players connect via TCP from an
ANSI-capable terminal, register in a lobby and then play rounds against each
other. Eliminating more than one row at once sends capsule elements to the
other players.

The game logic is written in Verus and verified:

 * `src/util.rs`: positions, directions, colours and index ranges
 * `src/field/`: the two play fields (settled and moving elements), capsule
   movement, settling, elimination of rows of four, unsettling of elements no
   longer held, and the preparation of a field with viruses
 * `src/display/`: draw commands and their ANSI encoding, screen areas and the
   displayed entities (play field, texts, line input, score board)
 * `src/game/`: the decisions of the lobby, waiting and round phases, among
   them the actor performing a player's moves and ticks
 * `src/console.rs`: game settings and the game master's commands
 * `src/random.rs`: the random number generator

The program around it, in `app/`, does the networking, the timing and the
communication between the tasks serving the players.

Usage:

 * `-l <addr>`, `--listen <addr>`: address to listen on (defaults to any)
 * `-p <num>`, `--port <num>`: port to listen on for players (defaults to 2020)
 * `--max-players <num>`: maximum number of players allowed
 * `--virs <num>`: number of viruses placed on the field at the beginning of a
   round
 * `--tick <num>`: duration of a tick in units of 100ms
 * `--gm-sock <path>`: make a game master console accessible via the UNIX
   domain socket at the given path

The game master starts the game via the console's `start` command or by
sending SIGUSR1 to the process.
