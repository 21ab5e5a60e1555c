# Resonant Dust client

The client core of Resonant Dust: what a player's client knows of the world, what it asks
the server for, and what it proposes. It does no input or output of its own and reads no
clock; a driver hands it frames and the local time, and sends what it returns.

- `src/` is the core, verified with Verus.
  - `rows`, `history`, `world`: version rows, which hold from their stamp on, and the world
    they make up.
  - `codec`, `zones`, `subs`, `memory`, `links`, `needs`, `outbox`: which zones matter, which
    subscriptions that takes, what is remembered of zones left behind, and calls that are
    retried until they take.
  - `clock`, `pulse`: the server's time, as the client estimates it.
  - `content`, `matcher`, `actions`, `queue`, `moves`, `realm`, `client`: recipes that apply,
    the queue of proposals, local moves, discovery of what is ours, and the client that joins
    them.
  - `view`, `tally`: what a viewport shows, and traffic counts.
  - `runs`: what holds of the zone manager over whole runs of calls.
  - `script`, `scenarios`, `harness`: scripted runs over several clients.
  - `ordmap`, `text`, `wire`, `endpoint`, `gate`: maps, text, messages and addresses.
- `tests/` runs it.
- `app/` connects it: sockets, HTTP, the shared card rules, and the browser shell.

Times are whole microseconds on the local clock and whole milliseconds on the server's.
