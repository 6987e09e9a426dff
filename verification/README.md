# gpui_sys

A C interface to a native UI engine, with its logic verified by Verus.

An application describes each frame as one command buffer. The library decodes
it, checks the tree it describes and commits it for a view; from then on the
tree is drawn until another one is committed or the text under a key is
replaced. Events travel back in an envelope of five integers; their payloads
are copied while the callback runs.

- `src/` is the library. Verus proves the contract of every function in it, but for those that call outside code.
  - `wire`, `decode`, `commit`, `views`: from bytes to committed trees
  - `encode`: trees written as command buffers, which decode to the same trees
  - `node`, `float`, `text`, `utf16`, `table`, `copy`, `abi`: the data they are made of
  - `style`, `plan`, `render`, `retained`, `row`: what a tree becomes on the screen
  - `events`, `inject`, `input`, `edit`, `keys`, `ime`, `probe`, `scroll`, `recorder`: what happens to it there
  - `window`, `bench`, `report`, `http`, `abi_file`: windows, measurements, images and the shared declarations
  - `grow` and the functions marked `external_body` say what is believed of outside code
- `tests/` runs the library on concrete values.
- `app/` is the C interface itself: everything that touches the engine, the
  network and the clock, and the floating-point arithmetic of the report.

Floats are held by their bits. What they mean as numbers is stated in `float`.
