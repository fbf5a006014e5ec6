# life_io

The verified core of Lifewars, a real-time strategy game fought with cellular automata:
two factions place spaceships on a shared Life grid and the larger population wins.

- `src/life` — cells (state and faction), the rule lookup table and its `B/S/4` text, the
  grid with its per-faction populations stepped by a plain or a change-list ("cached")
  algorithm, positions and their mirror images, grid transforms (copy, paste, flip,
  quarter turn), random fills with symmetry, and the plaintext, RLE and apgcode formats.
- `src/pattern` — pattern metadata, classification (still life, oscillator, spaceship,
  dying) and the identification of separate patterns on a grid.
- `src/game.rs`, `src/edit.rs`, `src/search.rs` — placing patterns, pattern timers, the
  computer player's move, the score, the editor's tools and the soup search.
- `src/life/pattern_lib.rs` — the text of the saved pattern library (a RON list of RLE
  texts) and the patterns read from it.
- `app/` — the macroquad program: window, input, drawing, timing and the save file's I/O.

Every function in `src/` carries a `requires`/`ensures` contract checked by Verus; the
public `law_*` proof functions state properties that span several functions, such as
that a grid's plaintext, RLE and apgcode read back as the grid, that rule text such as
`B36/S23` is written back as it was read, that the two stepping
algorithms agree over any number of generations, that populations stay counted, and that
four quarter turns give a grid back.
