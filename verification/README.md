# kicad2print

Turns KiCad circuit boards into models that can be printed: a substrate with grooves
for the traces and bores for the parts, a stencil and a clamp ring, and a guide that
says how to build the board. It also reads and edits boards and schematics for an
assistant that works on a KiCad project.

- `src/` is the library. Every function states what it does in a contract, and Verus
  proves it.
- `app/` is the program around it: arguments, files, the polygon work in floating
  point, and the server.
- `tests/` runs the library on boards, schematics, settings and models.

Lengths on a board are whole nanometres and settings whole millionths. Turning takes
cosines and sines in billionths, which the caller gives.
