# connect4_moderator_server

A moderator for Connect 4 games played by bots over WebSockets. The rules of
the game, the text protocol, the matchmaking, the reservations, the
administrator's settings and the two kinds of tournament (round robin and
knockout bracket) form a library whose functions carry Verus contracts and are
proved against them.

- `src/types.rs`: colours, the board, clients and matches.
- `src/text.rs`, `src/protocol.rs`, `src/commands.rs`: numbers and flags as
  text, the messages the server sends, and the commands it reads.
- `src/lists.rs`: the small list operations the server state is kept with.
- `src/tournaments/`: the round robin (with the circle method proved to pair
  every two players exactly once), the knockout bracket and their standings.
- `src/server/`: the server state and one handler per command. Each handler
  takes the state and an event and returns the actions to perform (messages
  to send, connections to close, timers to start), so that the decisions are
  verified while the sending and waiting are left to the program around it.
- `app/main.rs`: the WebSocket loop that reads commands, calls the handlers
  and performs their actions.

Random choices (match identifiers, the demo opponent's moves, the delay
jitter) come from the `rand` crate through one trusted wrapper; everything
else in `src/` is verified.
