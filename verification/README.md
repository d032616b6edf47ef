# maths_appli_simulation

A large-scale simulation of the probabilistic voter model on a periodic grid of side
`n` in dimension `d` (1, 2 or 3): at every step each cell adopts the opinion of one of
its `2d` neighbours, chosen at random. The starting state comes from a JSON table or
from a square picture whose colours are the opinions.

- `src/` is the verified library (Verus):
  - `grid`: the periodic grid, the voter step as a relation between two grids, and its
    laws (no opinion is created, consensus is absorbing, the neighbour relation is
    symmetric);
  - `simulation`: the device trait, the processor device, and the simulator that sets a
    simulation up from a table or a picture;
  - `renderer`: drawing the grid into an RGBA frame;
  - `statistics`: the number of cells of each opinion;
  - `control`: the decisions of the windowed and the terminal runs;
  - `error`: why a simulation cannot be set up.
- `app/` is the program: arguments, files, the terminal, the window and the floating-point
  statistics (frequencies and entropy).
- `tests/` holds the tests of the library.

The simulation runs on the processor. There is no OpenCL device: the `opencl` build option
and its kernel are not part of this project.
