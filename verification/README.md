# phone_tile

The ping game of PhoneTile: several phones laid side by side form one field,
a server moves the balls and each phone draws its part of the field and the
player's racket.

- `src/` is the verified library.
  - `bytes`: big-endian encoding of words, with its round-trip lemmas.
  - `network`: the client's session with the server (games, status, the
    packets it sends and how the server's replies move it forward).
  - `frame`: the frame the server sends each phone on every tick, how a phone
    reads it, and how a burst of reads is reduced to the one that counts.
  - `ping`: the decisions of the server's game loop (entry diagonal of a new
    ball, lanes of the rackets, score and spawning).
- `app/` holds what moves bytes over sockets, draws with raylib and computes
  with floating-point numbers: the server's game loop and ball physics, the
  client's connection and the phone's drawing loop.
- `tests/` runs the library on concrete values.
