# draw

Grids, union-find structures, percolation, cellular automata and square carpets, with
their behaviour stated in contracts and proved by Verus.

- `src/` is the verified library.
  - `grid`, `grid_eq`, `grid_text`: the generic grid, its events and wedge reflections, grid
    equality, and the text form of a grid of counts (with its round trip).
  - `algorithms`: quick-find, quick-union, weighted quick-union and the generic union over
    node types of any width, their connectivity laws, percolation grids, the replay of a
    percolation run into color grids, and the colors that follow merging components.
  - `cave_cell`, `cell_auto`: cave generation and cellular automata.
  - `carpet`: carpets of nested squares, drawn side by side or border by border.
  - `random`: the one call into `rand`.
- `tests/` runs the library on concrete values.
- `app/` holds what stays outside the proofs: floating-point colors and shapes, timing, files
  and images, threads, and the runs that stop on a clock or on chance.
