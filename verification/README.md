# hoomd

The simulation state of particle simulations, with its behaviour proved by
Verus.

A `Microstate` holds bodies in a space defined by boundary conditions. Each
body carries one or more interaction sites; the microstate keeps every site in
the system frame and the ghost images that periodic boundaries place near
their edges. Bodies, sites and ghosts carry tags that identify them while
their storage order changes; freed tags are reused smallest first.

## Layout

- `src/lib.rs`: `Site`, `Body`, the `Transform` trait and the microstate
  `Error`.
- `src/microstate.rs`: `Microstate`, `MicrostateBuilder` and `Tagged`, with
  the well-formedness invariant, the agreement of sites with their bodies
  (`sites_consistent`) and the lemmas that state what every microstate
  satisfies.
- `src/tags.rs`: the tagged vector that stores bodies, sites and ghosts.
- `src/boundary.rs`: the `Wrap`, `GenerateGhosts` and `IsPointInside` traits,
  the `Open`, `Closed` and `OpenSpherical` boundaries, and `image_subsets`.
- `src/ghost_list.rs`: the fixed-capacity list of ghost tags of each site
  (`arrayvec::ArrayVec`), declared to Verus with the contracts of the methods
  used.
- `src/property.rs`: property traits (`Position`, `NetForce`, ...) and the
  `Point`, `OrientedPoint` and custom body property types.
- `src/squares.rs`: the counter-based Middle Square Weyl Sequence random
  number generators.
- `app/lib.rs`: the `rand_core` interfaces of the generators, serde and
  `Display` companions of library types.
- `tests/`: scenarios run against the compiled library.
