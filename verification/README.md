# mafia_server

A server for the party game Mafia, played by networked bots. Players ask for a
port over HTTP, connect to it over TCP, are seated at tables of eight and play
rounds of detection, voting and killing until the Mafia is gone or outnumbers
the town.

The library (`src/`) holds the rules and the bookkeeping as state machines over
plain values, with their contracts and proofs:

- `model.rs` states the rules: what a game looks like, the messages it sends,
  and what one step of play does given the reply to its last request.
- `game.rs`, `rounds.rs`, `answers.rs` implement a game (`Mafia`) step by
  step; every step is proved to do what `model::step` says.
- `laws.rs` proves what holds of every step: the order of phases and how
  each answered round moves the game on, that play runs down to its end,
  that finished games rest, that messages only reach seats with a stream,
  that nothing secret reaches a seat outside the Mafia, that the dead stay
  dead, that the counters of each side follow its living members, and that
  the queue of players is cut into tables without losing anyone.
- `connection.rs`, `server.rs` keep the connection state of a seat, fill
  tables from the queue of players and release the players of finished games.
- `player.rs`, `text.rs`, `tally.rs`, `wire.rs` describe players, print
  numbers, count votes and frame messages.
- `mafia.rs` is a smaller table that only deals four kinds of roles.
- `chance.rs` shuffles the roles with `rand`.

The program (`app/`) does the I/O: the HTTP route (with `rocket`), the
listeners and streams, the threads that run the lobby and the games, and the
reading of the numbers the bots answer with.
