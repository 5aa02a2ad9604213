# barnes_hut

The verified core of a Barnes-Hut gravity simulation with collisions, rigid
bonds between bodies that stay in contact, and fusion of long-touching
bodies.

`src/` is the library, proved with Verus:

- `duration`, `metrics`: frame timings and counts averaged over a sliding
  window of recent frames.
- `union_find`: disjoint sets over body indices with path compression and
  union by rank.
- `ids`: the largest body id, id-to-index tables, and the key of an unordered
  pair of ids.
- `contacts`: contact streaks per pair of bodies, the choice of new bonds
  under a per-body cap, and the pairs left for the collision response.
- `components`: clumps of bonded bodies and the members of colliding clumps.
- `fusion`: which bodies merge into which new body.
- `bond_lines`: the segments drawn for the bonds.
- `color`, `threads`: per-body colours and the worker thread count.

`app/` is the program around it: the window and GUI, the clock, the
floating-point physics (integration, gravity, broad phase, collision
response, bond projection, merging of masses), all of which hand plain values
to the library and take plain values back.

`tests/` runs the library on concrete values.
