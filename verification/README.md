# speck-server

An authoritative server for a multiplayer game in which dots slide around a walled rink, bump into
each other, and play through a short campaign together.

The simulation and the rules are a library that is verified with
[Verus](https://github.com/verus-lang/verus); sockets, JSON and the clock are ordinary Rust around
it.

## The library (`src/`)

- `rounding` and `double`: binary64 arithmetic on integers, correctly rounded. The simulation gives
  the same bits on every machine.
- `exact`: the real numbers that doubles stand for, and how near the operations come to exact
  results.
- `physics`: the integrator, and collisions with walls and between circles.
- `bounce`: how fast a body is after it bounced off something that stands firm.
- `exchange`: how fast bodies are after they bumped into each other.
- `random`: reproducible draws from the words of `rand`'s `StdRng`.
- `level`: levels laid out from a seed, their enemies, items and exit.
- `chase`: how fast enemies are.
- `protocol`: the messages between clients and the server.
- `room`: players, the campaign, and one tick of everything.
- `spawn`: why players who join one after the other do not touch.
- `server`: sessions, rooms, who is sent what, and how often.

Messages, levels, rooms and the server have mathematical views; plain records such as bodies, players
and sessions stand for themselves. Every function states what it does in these terms. What holds of
several functions together is stated by the public `law_` proofs in each module.

Two things are left to the machine's floating point and are handed to the library as numbers: the
exponential that gives the damping of a step, and the sines and cosines of the spawn ring.

## The program (`app/`)

`main.rs` accepts WebSocket connections and runs the sixty ticks per second; `wire.rs` turns messages
into JSON and back. It listens on `PORT`, else on `SPECK_PORT`, else on 3000.
