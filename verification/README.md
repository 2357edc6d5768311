# crust

A client for a tile-based online game: several players, each connected to the
game server over a web socket, walk, dig and bore through a shared world drawn
in an SDL window.

`src/` is the verified library (Verus):

- `world`: the world's tiles, held in chunks of 128 by 128, with their file
  format; reading a tile gives back what was last written there.
- `pathing`: the breadth-first search around a player, proved to give every
  reachable cell its shortest distance, and the walk back from a target.
- `player`: a player's moves: walking to a clicked cell, stepping, boring and
  fleeing enemies, with the walking budget.
- `json`, `parse`, `message`: the server's messages as plain values, read
  from their text with the `json` crate's parser, and how a player and the
  world change under each command.
- `commands`, `decimal`: the command texts sent to the server.
- `render`, `control`: what is drawn where, mouse clicks, keys and the camera.
- `login`: the sign-in request and the session cookie in the reply.

`app/` is the program around it: the window, the event loop, the network
connections and the chunk files. `tests/` runs the library on concrete values.
