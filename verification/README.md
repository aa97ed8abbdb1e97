# blockgame

The rules of a small shared voxel world, as a verified library: what can be crafted from
what and how a build is planned, the crafting screens' pads and codes and the graphs they
draw, which edits a host lets stand and what they cost, which chunks are wanted around a
player, who may say what on the wire, how a joiner collects a world, and what a host's
name and addresses may look like before anything uses them.

- `src/` is the library. Every function in it carries a contract, and Verus proves each
  body against it; the public proof functions state the laws that span several calls.
- `tests/` runs the library on concrete values.
- `app/` is the program around it: the command line, the clock that seeds a new world,
  the wire encoding, and the floating-point arithmetic of bodies and allowances.

The game itself is not built here: the window, the renderer, the network transport and
the game loop are not part of this crate, so the program only reads its command line,
picks the world a host would start, and says which side of it this machine is on.
