# rstris

A falling-blocks game whose rules are verified with Verus.

The library (`src/`) holds the game's logic with contracts that Verus
proves:

- `grid`: the playfield of blocks with an id and a state, figures whose
  faces are the distinct quarter turns of a first face, figure positions,
  the search for the places where a figure comes to rest (a quick drop per
  column and a breadth-first search from the figure's position), the count
  of closed voids, and two path searches (a bounded one and one that
  explores every place the figure can reach).
- `coords`: a playfield and figures whose faces are lists of block
  coordinates, with grids that merge and test for overlap.
- `simple`: a playfield of byte cells, figures with four directions, and a
  player that places and moves them.
- `game`: the player state shared by human and computer players (move
  queue, next figure, figure in play), the rules that place and move a
  figure, locking full lines when a figure lands and throwing them away
  once no figure is in play, the key handling of a human player, and what
  a computer player computes: the places to rest, a scoring of each place, and a path to the
  best one cut into levels.

The program (`app/`) draws the game with SDL2, reads the keys, keeps the
clock and runs the game loop; it also holds the parts that work on floats
(ratings of places and a search paced by a float count of moves).
