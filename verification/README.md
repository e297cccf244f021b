# piet

An interpreter for Piet, the language whose programs are images, written in
Verus: its behaviour is stated in `requires`/`ensures` contracts and proved.

- `src/palette.rs`: the twenty Piet colours and the RGBA values they are
  painted with.
- `src/canvas.rs`, `src/canvas/`: an image, decoded in the format its file
  names, read as a grid of codels, and its colour blocks, built by a
  scan-line fill that a search completes; the blocks are proved to be the
  connected regions of one colour, numbered column by column, each knowing
  its size and exit codels.
- `src/interpreter.rs`, `src/interpreter/`: the interpreter's state, the
  commands, one step (leaving a block, or sliding across white), executing a
  command, and a check that the next step can be taken.
- `src/surface.rs`, `src/surface/`: atlases, canvases whose edges are glued
  (torus, Klein bottle, projective plane), and a check that a way over an
  edge is safe to take.
- `src/lexer.rs`: for every block and pointer setting, what leaving the block
  does, blocked exits resolved.
- `app/main.rs`: opening an image file, and reading and printing around a
  run.
