# Sand

A falling-sand simulation whose rules are verified with Verus.

The world is a grid of particles (sand, water, steam, fungus, flame, methane,
gunpowder, oil, wood, acid, concrete, empty space and the border that walls
the world in), split into square chunks. Each frame, sources emit new
particles and every particle in a chunk that is due for an update moves,
burns, grows, condenses or eats into its neighbours by the rules of its
material. A chunk is due when something near it changed in the previous
frame. Portals link two cells, so that a step into one leads out of the other.

## Layout

- `src/` is the verified library:
  - `helpers.rs`: the small `I8Vec2` vector and the `PColor` colour;
  - `line.rs`: the cells along a straight line between two points, with
    proofs that the line is connected, stays in its bounding box and ends
    where it should;
  - `particle.rs`: the materials and their properties, particles, and the
    rules of one particle's update, with proofs of what an update keeps:
    moving materials keep their numbers, steam only turns into water, acid
    only destroys, fungus grows only on water it drank, and fire uses up
    fuel and turns water only into steam; and of what it does where chance
    enters: the world keeps a ghost record of the numbers drawn, and the
    contracts say which draw decides a particle's first fall, a fungus's
    neighbour and its growth (never into space crowded by three or more
    fungi), while fire sets alight every neighbour that any draw would and
    fills the gap between two burning neighbours;
  - `world.rs`: chunks, the world grid, sources and portals, and the frame
    update, with the invariant that the border ring stays intact and that,
    unless a source emits border, no border cell changes; the proof that a
    frame is the sources' emission followed by a run of steps that
    together visit every cell of each chunk due for the frame, each step
    either leaving its cell (empty, border or already updated) or updating
    its particle by the rules of `particle.rs`; and the proofs that a world of sand, water and concrete without sources keeps
    its numbers, and that without sources or fungus no water is lost: it
    only turns into steam and back;
  - `placing.rs`: the drawing tools, the square a brush covers, where a
    row of portals may go, and how portals placed one after another pair
    up, with the proof that a waiting portal's partner always exists;
  - `grid.rs` and `random.rs`: the trusted declarations of the `array2d`
    grid and the `rand` generator that the library calls.
- `tests/` exercises the library on concrete values.
- `app/` is the interactive program: window, drawing, colours and input,
  built on `macroquad` and `egui-macroquad`.
