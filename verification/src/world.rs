//! The world: a grid of chunks of particles, with sources and portals laid
//! over it, and the operations the particles' rules use on it.
use vstd::prelude::*;
use array2d::Array2D;
use rand::rngs::ThreadRng;
use crate::helpers::PColor;
use crate::particle::{
    Particle, ParticleType, Tint, countdown_in_range, lemma_flammable_has_fuel, tint_in_range, update_outcome,
};
use crate::grid::{
    particle_rows, particle_columns, particle_cells, chunk_cells, source_cells, portal_cells, is_shape, set_cell, filled_particles,
    filled_chunks, filled_sources, filled_portals, particle_cell, particle_cell_mut, chunk_cell,
    chunk_cell_mut, source_cell, source_cell_mut, portal_cell, portal_cell_mut,
};
use crate::random::{new_thread_rng, random_bool, random_range, shuffle_indices};
use crate::grid::is_filled;
use vstd::arithmetic::div_mod::{lemma_fundamental_div_mod, lemma_fundamental_div_mod_converse};

verus! {

/// A cell that keeps emitting particles of one material.
#[derive(Clone, Copy, PartialEq, Eq, Structural, Debug)]
pub struct ParticleSource {
    pub particle_type: ParticleType,
    pub replaces: bool,
}

impl ParticleSource {
    /// Whether the source removes what it lands on: a source that replaces,
    /// or one of empty space (a sink).
    pub open spec fn spec_hatch_is_dark(self) -> bool {
        self.replaces || self.particle_type == ParticleType::Empty
    }

    /// Whether the source is drawn with a dark hatch: one that replaces or a
    /// sink; other sources get a light hatch.
    pub fn hatch_is_dark(&self) -> (r: bool)
        ensures
            r == self.spec_hatch_is_dark(),
    {
        self.replaces || self.particle_type == ParticleType::Empty
    }
}

/// The four directions a portal can face.
#[derive(Clone, Copy, PartialEq, Eq, Structural, Debug)]
pub enum Direction {
    Up,
    Right,
    Down,
    Left,
}

impl Direction {
    /// The unit offset of the direction (`y` grows downwards).
    pub open spec fn spec_dxdy(self) -> (isize, isize) {
        match self {
            Direction::Up => (0isize, -1isize),
            Direction::Right => (1isize, 0isize),
            Direction::Down => (0isize, 1isize),
            Direction::Left => (-1isize, 0isize),
        }
    }

    /// The unit offset of the direction (`y` grows downwards).
    pub fn dxdy(&self) -> (r: (isize, isize))
        ensures
            r == self.spec_dxdy(),
    {
        match self {
            Direction::Up => (0, -1),
            Direction::Right => (1, 0),
            Direction::Down => (0, 1),
            Direction::Left => (-1, 0),
        }
    }

    /// The strip of its cell a portal facing this way is drawn as, in
    /// quarters of the cell's side: `(x, y, width, height)`.
    pub open spec fn spec_portal_strip(self) -> (u8, u8, u8, u8) {
        match self {
            Direction::Up => (0u8, 0u8, 4u8, 1u8),
            Direction::Right => (3u8, 0u8, 1u8, 4u8),
            Direction::Down => (0u8, 3u8, 4u8, 1u8),
            Direction::Left => (0u8, 0u8, 1u8, 4u8),
        }
    }

    /// The strip of its cell a portal facing this way is drawn as, in
    /// quarters of the cell's side: `(x, y, width, height)`, a quarter thick
    /// along the side the portal leads through.
    pub fn portal_strip(&self) -> (r: (u8, u8, u8, u8))
        ensures
            r == self.spec_portal_strip(),
    {
        match self {
            Direction::Up => (0, 0, 4, 1),
            Direction::Right => (3, 0, 1, 4),
            Direction::Down => (0, 3, 4, 1),
            Direction::Left => (0, 0, 1, 4),
        }
    }

    /// A portal's strip lies inside its cell, a quarter of the side thick,
    /// spanning the whole side that its direction points through.
    pub proof fn lemma_portal_strip_on_its_side(self)
        ensures
            ({
                let (x, y, w, h) = self.spec_portal_strip();
                let (dx, dy) = self.spec_dxdy();
                &&& x + w <= 4 && y + h <= 4
                &&& (dx != 0 ==> w == 1 && h == 4) && (dy != 0 ==> w == 4 && h == 1)
                &&& (dx > 0 ==> x + w == 4) && (dx < 0 ==> x == 0)
                &&& (dy > 0 ==> y + h == 4) && (dy < 0 ==> y == 0)
            }),
    {
    }
}

/// A portal on a cell: stepping from it in `direction` leads to the partner
/// cell, when it has one.
#[derive(Clone, Copy, Debug)]
pub struct Portal {
    pub partner_xy: Option<(usize, usize)>,
    pub direction: Direction,
    pub color: PColor,
}

/// A square block of particles, with the flags that say whether it is updated
/// in this frame and in the next.
#[derive(Clone)]
pub struct WorldChunk {
    pub particle_grid: Array2D<Particle>,
    pub update_this_frame: bool,
    pub update_next_frame: bool,
}


impl WorldChunk {
    /// The chunk's particles, by local column and row.
    pub open spec fn cells(self) -> Seq<Seq<Particle>> {
        particle_cells(self.particle_grid)
    }

    /// The chunk is `size` by `size` and holds only well-formed particles.
    pub open spec fn wf(self, size: int) -> bool {
        &&& is_shape(self.cells(), size, size)
        &&& forall|i: int, j: int| 0 <= i < size && 0 <= j < size ==> (#[trigger] self.cells()[i][j]).wf()
    }
}

impl WorldChunk {
    /// A chunk of `chunk_size` by `chunk_size` copies of one new empty
    /// particle, due to be updated in this frame and the next.
    pub fn new(chunk_size: usize, rng: &mut ThreadRng) -> (c: Self)
        requires
            chunk_size * chunk_size <= usize::MAX,
        ensures
            c.wf(chunk_size as int),
            c.update_this_frame,
            c.update_next_frame,
            c.cells().len() > 0 ==> c.cells()[0][0].is_fresh(ParticleType::Empty),
            forall|i: int, j: int|
                0 <= i < chunk_size && 0 <= j < chunk_size ==> #[trigger] c.cells()[i][j] == c.cells()[0][0],
    {
        let empty = Particle::new(ParticleType::Empty, rng);
        let particle_grid = filled_particles(empty, chunk_size, chunk_size);
        Self { particle_grid, update_this_frame: true, update_next_frame: true }
    }

    /// Clears the per-frame flags of every particle of the chunk.
    pub fn refresh_all_particles(&mut self)
        requires
            is_shape(old(self).cells(), old(self).cells().len() as int, old(self).cells().len() as int),
        ensures
            final(self).update_this_frame == old(self).update_this_frame,
            final(self).update_next_frame == old(self).update_next_frame,
            is_shape(final(self).cells(), old(self).cells().len() as int, old(self).cells().len() as int),
            forall|i: int, j: int|
                0 <= i < old(self).cells().len() && 0 <= j < old(self).cells().len() ==> #[trigger] final(self).cells()[i][j]
                    == old(self).cells()[i][j].refreshed(),
    {
        let ghost n = self.cells().len() as int;
        let ghost c0 = self.cells();
        let x_end = particle_columns(&self.particle_grid);
        let y_end = particle_rows(&self.particle_grid);
        assert(n > 0 ==> x_end == n);
        assert(y_end == n);
        let mut x: usize = 0;
        while x < x_end
            invariant
                0 <= x <= x_end,
                n > 0 ==> x_end == n,
                y_end == n,
                n == c0.len(),
                is_shape(c0, n, n),
                is_shape(self.cells(), n, n),
                self.update_this_frame == old(self).update_this_frame,
                self.update_next_frame == old(self).update_next_frame,
                c0 == old(self).cells(),
                forall|i: int, j: int|
                    0 <= i < n && 0 <= j < n ==> #[trigger] self.cells()[i][j] == if i < x {
                        c0[i][j].refreshed()
                    } else {
                        c0[i][j]
                    },
            decreases x_end - x,
        {
            let mut y: usize = 0;
            while y < y_end
                invariant
                    0 <= x < x_end,
                    0 <= y <= y_end,
                    n > 0 ==> x_end == n,
                    y_end == n,
                    n == c0.len(),
                    is_shape(c0, n, n),
                    is_shape(self.cells(), n, n),
                    self.update_this_frame == old(self).update_this_frame,
                    self.update_next_frame == old(self).update_next_frame,
                    c0 == old(self).cells(),
                    forall|i: int, j: int|
                        0 <= i < n && 0 <= j < n ==> #[trigger] self.cells()[i][j] == if i < x || (i == x && j < y) {
                            c0[i][j].refreshed()
                        } else {
                            c0[i][j]
                        },
                decreases y_end - y,
            {
                let p = particle_cell_mut(&mut self.particle_grid, x, y);
                p.refresh();
                y = y + 1;
            }
            x = x + 1;
        }
    }

    /// Moves the "next frame" flag into the "this frame" flag and clears it.
    pub fn shift_update_flag(&mut self)
        ensures
            *final(self) == (WorldChunk {
                update_this_frame: old(self).update_next_frame,
                update_next_frame: false,
                ..*old(self)
            }),
    {
        self.update_this_frame = self.update_next_frame;
        self.update_next_frame = false;
    }
}

/// `x` splits into the chunk index `x / size` and the offset `x % size`
/// inside the chunk, both in range.
pub proof fn lemma_split_coordinate(x: int, size: int, extent: int)
    requires
        size > 0,
        0 <= x < extent,
        extent % size == 0,
    ensures
        0 <= x / size < extent / size,
        0 <= x % size < size,
        x == (x / size) * size + x % size,
{
    lemma_fundamental_div_mod(x, size);
    lemma_fundamental_div_mod(extent, size);
    let q = x / size;
    let r = x % size;
    let n = extent / size;
    assert(0 <= r < size) by {
        vstd::arithmetic::div_mod::lemma_mod_bound(x, size);
    }
    assert(0 <= q < n) by (nonlinear_arith)
        requires
            x == size * q + r,
            extent == size * n + 0,
            0 <= r < size,
            0 <= x < extent,
            size > 0,
    ;
    assert(x == q * size + r) by (nonlinear_arith)
        requires
            x == size * q + r,
    ;
}

/// Joining a chunk index and an in-chunk offset gives a coordinate in range,
/// which splits back into the same two.
pub proof fn lemma_join_coordinate(chunk: int, local: int, size: int, extent: int)
    requires
        size > 0,
        extent % size == 0,
        0 <= chunk < extent / size,
        0 <= local < size,
    ensures
        0 <= chunk * size + local < extent,
        (chunk * size + local) / size == chunk,
        (chunk * size + local) % size == local,
{
    lemma_fundamental_div_mod(extent, size);
    let n = extent / size;
    assert(0 <= chunk * size + local < extent) by (nonlinear_arith)
        requires
            extent == size * n + extent % size,
            extent % size == 0,
            0 <= chunk < n,
            0 <= local < size,
    ;
    lemma_fundamental_div_mod_converse(chunk * size + local, size, chunk, local);
}

/// The simulated world: `width` by `height` cells, grouped in square chunks
/// of `chunk_size` cells on a side; each cell holds a particle and may hold a
/// source and a portal.
pub struct World {
    chunk_grid: Array2D<WorldChunk>,
    source_grid: Array2D<Option<ParticleSource>>,
    portal_grid: Array2D<Option<Portal>>,
    chunk_size: usize,
    width: usize,
    height: usize,
    rng: ThreadRng,
    /// The numbers drawn through `WorldApi`'s draw functions, in order (a
    /// coin counts as 1 for heads and 0 for tails).
    draws: Ghost<Seq<int>>,
}

/// `b` continues `a`: it holds `a` and then perhaps more.
pub open spec fn draws_extend(a: Seq<int>, b: Seq<int>) -> bool {
    a.len() <= b.len() && forall|i: int| 0 <= i < a.len() ==> #[trigger] b[i] == a[i]
}

impl World {
    pub closed spec fn spec_width(&self) -> int { self.width as int }
    pub closed spec fn spec_height(&self) -> int { self.height as int }
    pub closed spec fn spec_chunk_size(&self) -> int { self.chunk_size as int }

    /// The number of chunks along the x axis.
    pub open spec fn chunks_x(&self) -> int { self.spec_width() / self.spec_chunk_size() }

    /// The number of chunks along the y axis.
    pub open spec fn chunks_y(&self) -> int { self.spec_height() / self.spec_chunk_size() }

    /// Whether `(x, y)` is a cell of the world.
    pub open spec fn in_bounds(&self, x: int, y: int) -> bool {
        0 <= x < self.spec_width() && 0 <= y < self.spec_height()
    }

    /// Whether `(x, y)` lies on the outermost ring of cells.
    pub open spec fn on_ring(&self, x: int, y: int) -> bool {
        x == 0 || x == self.spec_width() - 1 || y == 0 || y == self.spec_height() - 1
    }

    /// The chunk with chunk coordinates `(cx, cy)`.
    pub closed spec fn chunk(&self, cx: int, cy: int) -> WorldChunk {
        chunk_cells(self.chunk_grid)[cx][cy]
    }

    /// The particle in cell `(x, y)`.
    pub closed spec fn cell(&self, x: int, y: int) -> Particle {
        let cs = self.chunk_size as int;
        self.chunk(x / cs, y / cs).cells()[x % cs][y % cs]
    }

    /// The source on cell `(x, y)`, if any.
    pub closed spec fn source(&self, x: int, y: int) -> Option<ParticleSource> {
        source_cells(self.source_grid)[x][y]
    }

    /// The portal on cell `(x, y)`, if any.
    pub closed spec fn portal(&self, x: int, y: int) -> Option<Portal> {
        portal_cells(self.portal_grid)[x][y]
    }

    /// Whether chunk `(cx, cy)` is due to be updated in the next frame.
    pub closed spec fn awake_next(&self, cx: int, cy: int) -> bool {
        self.chunk(cx, cy).update_next_frame
    }

    /// Whether chunk `(cx, cy)` is updated in the current frame.
    pub closed spec fn awake_now(&self, cx: int, cy: int) -> bool {
        self.chunk(cx, cy).update_this_frame
    }

    /// Every cell of the outermost ring holds a border particle.
    pub closed spec fn border_intact(&self) -> bool {
        forall|x: int, y: int|
            self.in_bounds(x, y) && self.on_ring(x, y) ==> (#[trigger] self.cell(x, y)).particle_type
                == ParticleType::Border
    }

    /// Every portal's partner is a cell of the world.
    pub open spec fn portals_in_bounds(&self) -> bool {
        forall|x: int, y: int| self.in_bounds(x, y) ==> self.partner_in_bounds(#[trigger] self.portal(x, y))
    }

    /// The portal, if any, has no partner or one inside the world.
    pub open spec fn partner_in_bounds(&self, portal: Option<Portal>) -> bool {
        match portal {
            Some(p) => match p.partner_xy {
                Some(q) => self.in_bounds(q.0 as int, q.1 as int),
                None => true,
            },
            None => true,
        }
    }

    /// The shape and contents the world keeps between operations.
    pub open spec fn wf(&self) -> bool {
        self.wf_core() && self.border_intact()
    }

    /// The shape of the world, and the well-formedness of its particles and
    /// portals.
    pub closed spec fn wf_core(&self) -> bool {
        let cs = self.chunk_size as int;
        let w = self.width as int;
        let h = self.height as int;
        &&& cs > 0
        &&& (w > 0 && h > 0 ==> cs >= 2)
        &&& w % cs == 0
        &&& h % cs == 0
        &&& cs * cs <= usize::MAX
        &&& w * h <= usize::MAX
        &&& is_shape(chunk_cells(self.chunk_grid), w / cs, h / cs)
        &&& forall|i: int, j: int|
            0 <= i < w / cs && 0 <= j < h / cs ==> (#[trigger] chunk_cells(self.chunk_grid)[i][j]).wf(cs)
        &&& is_shape(source_cells(self.source_grid), w, h)
        &&& is_shape(portal_cells(self.portal_grid), w, h)
        &&& self.portals_in_bounds()
    }

    /// The world is well formed and cell `(x, y)` holds a well-formed particle.
    pub proof fn lemma_cell(&self, x: int, y: int)
        requires
            self.wf_core(),
            self.in_bounds(x, y),
        ensures
            self.cell(x, y).wf(),
            self.chunk_size_facts(),
    {
        let cs = self.chunk_size as int;
        lemma_split_coordinate(x, cs, self.width as int);
        lemma_split_coordinate(y, cs, self.height as int);
        assert(chunk_cells(self.chunk_grid)[x / cs][y / cs].wf(cs));
    }

    /// A well-formed world is walled in: every cell of its outermost ring
    /// holds a well-formed border particle.
    pub proof fn lemma_ring_is_border(&self, x: int, y: int)
        requires
            self.wf(),
            self.in_bounds(x, y),
            self.on_ring(x, y),
        ensures
            self.cell(x, y).particle_type == ParticleType::Border,
            self.cell(x, y).wf(),
    {
        self.lemma_cell(x, y);
    }

    /// Facts about the chunk size that follow from well-formedness.
    pub closed spec fn chunk_size_facts(&self) -> bool {
        &&& self.chunk_size > 0
        &&& (self.width as int) % (self.chunk_size as int) == 0
        &&& (self.height as int) % (self.chunk_size as int) == 0
    }

    /// Well-formedness depends only on the grids and sizes, not on the
    /// random generator.
    proof fn lemma_wf_core_same_parts(a: &World, b: &World)
        requires
            a.wf_core(),
            a.chunk_grid == b.chunk_grid,
            a.source_grid == b.source_grid,
            a.portal_grid == b.portal_grid,
            a.width == b.width,
            a.height == b.height,
            a.chunk_size == b.chunk_size,
        ensures
            b.wf_core(),
            forall|x: int, y: int| #[trigger] b.cell(x, y) == a.cell(x, y),
            forall|i: int, j: int| #[trigger] b.chunk(i, j) == a.chunk(i, j),
            a.border_intact() ==> b.border_intact(),
    {
        let cs = a.chunk_size as int;
        assert forall|i: int, j: int|
            0 <= i < b.chunks_x() && 0 <= j < b.chunks_y() implies #[trigger] chunk_cells(b.chunk_grid)[i][j].wf(cs) by {
            assert(chunk_cells(a.chunk_grid)[i][j].wf(cs));
        }
        assert forall|x: int, y: int| b.in_bounds(x, y) implies b.partner_in_bounds(#[trigger] b.portal(x, y)) by {
            assert(a.partner_in_bounds(a.portal(x, y)));
        }
        if a.border_intact() {
            assert forall|x: int, y: int| b.in_bounds(x, y) && b.on_ring(x, y) implies (#[trigger] b.cell(x, y)).particle_type
                == ParticleType::Border by {
                assert(a.cell(x, y) == b.cell(x, y));
            }
        }
    }

    /// The width of the world in cells.
    pub fn width(&self) -> (w: usize)
        ensures
            w == self.spec_width(),
    {
        self.width
    }

    /// The height of the world in cells.
    pub fn height(&self) -> (h: usize)
        ensures
            h == self.spec_height(),
    {
        self.height
    }

    /// The side of a chunk in cells.
    pub fn chunk_size(&self) -> (cs: usize)
        ensures
            cs == self.spec_chunk_size(),
    {
        self.chunk_size
    }

    /// The cell of the world with index `i` in row-major order.
    pub fn index_to_xy(&self, i: usize) -> (xy: (usize, usize))
        requires
            self.spec_width() > 0,
        ensures
            xy.0 == (i as int) % self.spec_width(),
            xy.1 == (i as int) / self.spec_width(),
    {
        (i % self.width, i / self.width)
    }

    /// The in-chunk offset with index `i` in column-major order.
    fn local_index_to_xy(&self, i: usize) -> (xy: (usize, usize))
        requires
            self.spec_chunk_size() > 0,
        ensures
            xy.0 == (i as int) % self.spec_chunk_size(),
            xy.1 == (i as int) / self.spec_chunk_size(),
    {
        (i % self.chunk_size, i / self.chunk_size)
    }

    /// Splits a cell into its chunk and its offset inside the chunk.
    fn global_xy_to_chunk_xy(&self, xy: (usize, usize)) -> (r: ((usize, usize), (usize, usize)))
        requires
            self.spec_chunk_size() > 0,
        ensures
            r.0.0 == (xy.0 as int) / self.spec_chunk_size(),
            r.0.1 == (xy.1 as int) / self.spec_chunk_size(),
            r.1.0 == (xy.0 as int) % self.spec_chunk_size(),
            r.1.1 == (xy.1 as int) % self.spec_chunk_size(),
    {
        let (global_x, global_y) = xy;
        let chunk_x = global_x / self.chunk_size;
        let local_x = global_x % self.chunk_size;
        let chunk_y = global_y / self.chunk_size;
        let local_y = global_y % self.chunk_size;
        ((chunk_x, chunk_y), (local_x, local_y))
    }

    /// The cell at offset `local_xy` inside chunk `chunk_xy`.
    fn chunk_xy_to_global_xy(&self, chunk_xy: (usize, usize), local_xy: (usize, usize)) -> (xy: (usize, usize))
        requires
            self.wf_core(),
            chunk_xy.0 < self.chunks_x(),
            chunk_xy.1 < self.chunks_y(),
            local_xy.0 < self.spec_chunk_size(),
            local_xy.1 < self.spec_chunk_size(),
        ensures
            xy.0 == (chunk_xy.0 as int) * self.spec_chunk_size() + local_xy.0,
            xy.1 == (chunk_xy.1 as int) * self.spec_chunk_size() + local_xy.1,
            self.in_bounds(xy.0 as int, xy.1 as int),
            (xy.0 as int) / self.spec_chunk_size() == chunk_xy.0,
            (xy.1 as int) / self.spec_chunk_size() == chunk_xy.1,
            (xy.0 as int) % self.spec_chunk_size() == local_xy.0,
            (xy.1 as int) % self.spec_chunk_size() == local_xy.1,
    {
        let cs = self.chunk_size;
        proof {
            lemma_join_coordinate(chunk_xy.0 as int, local_xy.0 as int, cs as int, self.width as int);
            lemma_join_coordinate(chunk_xy.1 as int, local_xy.1 as int, cs as int, self.height as int);
        }
        (chunk_xy.0 * cs + local_xy.0, chunk_xy.1 * cs + local_xy.1)
    }

    /// The particle in cell `xy`.
    pub fn particle_at(&self, xy: (usize, usize)) -> (p: &Particle)
        requires
            self.wf(),
            self.in_bounds(xy.0 as int, xy.1 as int),
        ensures
            *p == self.cell(xy.0 as int, xy.1 as int),
            p.wf(),
    {
        self.get_particle(xy)
    }

    /// The particle in cell `xy`.
    fn get_particle(&self, xy: (usize, usize)) -> (p: &Particle)
        requires
            self.wf_core(),
            self.in_bounds(xy.0 as int, xy.1 as int),
        ensures
            *p == self.cell(xy.0 as int, xy.1 as int),
            p.wf(),
    {
        proof {
            self.lemma_cell(xy.0 as int, xy.1 as int);
            lemma_split_coordinate(xy.0 as int, self.chunk_size as int, self.width as int);
            lemma_split_coordinate(xy.1 as int, self.chunk_size as int, self.height as int);
        }
        let (chunk_xy, local_xy) = self.global_xy_to_chunk_xy(xy);
        let chunk = chunk_cell(&self.chunk_grid, chunk_xy.0, chunk_xy.1);
        particle_cell(&chunk.particle_grid, local_xy.0, local_xy.1)
    }

    /// The chunk, if any, beside chunk column `cx` along x that a change at
    /// in-chunk column `lx` also wakes.
    pub open spec fn x_neighbour_woken(&self, cx: int, lx: int) -> Option<int> {
        let cs = self.spec_chunk_size();
        if lx <= 1 && cx != 0 {
            Some(cx - 1)
        } else if lx >= cs - 2 && cx != self.chunks_x() - 1 {
            Some(cx + 1)
        } else {
            None
        }
    }

    /// The chunk, if any, beside chunk row `cy` along y that a change at
    /// in-chunk row `ly` also wakes.
    pub open spec fn y_neighbour_woken(&self, cy: int, ly: int) -> Option<int> {
        let cs = self.spec_chunk_size();
        if ly <= 0 && cy != 0 {
            Some(cy - 1)
        } else if ly >= cs - 2 && cy != self.chunks_y() - 1 {
            Some(cy + 1)
        } else {
            None
        }
    }

    /// Whether a change at offset `(lx, ly)` of chunk `(cx, cy)` wakes chunk
    /// `(i, j)`: the chunk itself, and a neighbour when the offset lies near
    /// its edge.
    pub open spec fn wakes(&self, cx: int, cy: int, lx: int, ly: int, i: int, j: int) -> bool {
        ||| i == cx && j == cy
        ||| self.x_neighbour_woken(cx, lx) == Some(i) && j == cy
        ||| self.y_neighbour_woken(cy, ly) == Some(j) && i == cx
    }

    /// `self` and `other` have the same size, chunking, sources and portals.
    pub closed spec fn same_layout(&self, other: &World) -> bool {
        &&& self.width == other.width
        &&& self.height == other.height
        &&& self.chunk_size == other.chunk_size
        &&& self.source_grid == other.source_grid
        &&& self.portal_grid == other.portal_grid
    }

    /// No chunk due to be updated in the next frame in `self` has lost that
    /// flag in `other`.
    pub open spec fn next_flags_kept(&self, other: &World) -> bool {
        forall|i: int, j: int|
            0 <= i < self.chunks_x() && 0 <= j < self.chunks_y() && self.awake_next(i, j) ==> #[trigger] other.awake_next(
                i,
                j,
            )
    }

    /// `other` is `self` later in the same frame: the same layout, the same
    /// chunks updated in this frame, and the chunks due for the next frame
    /// still due, perhaps with more.
    pub closed spec fn same_frame(&self, other: &World) -> bool {
        &&& self.same_layout(other)
        &&& self.now_flags_agree(other)
        &&& self.next_flags_kept(other)
        &&& draws_extend(self.draws@, other.draws@)
    }

    /// The numbers drawn through `WorldApi`'s draw functions so far.
    pub closed spec fn draws(&self) -> Seq<int> {
        self.draws@
    }

    /// Worlds of one frame: the later one's draws continue the earlier's.
    pub proof fn lemma_draws_extend(a: &World, b: &World)
        requires
            a.same_frame(b),
        ensures
            draws_extend(a.draws(), b.draws()),
    {
    }

    /// `self` and `other` differ at most in their random generators.
    pub closed spec fn same_content(&self, other: &World) -> bool {
        &&& self.same_frame(other)
        &&& self.chunk_grid == other.chunk_grid
    }

    /// `self` and `other` hold the same random generator: no number was drawn
    /// from it in between.
    pub closed spec fn same_generator(&self, other: &World) -> bool {
        self.rng == other.rng && self.draws == other.draws
    }

    /// `same_content` is transitive.
    pub proof fn lemma_same_content_trans(a: &World, b: &World, c: &World)
        requires
            a.same_content(b),
            b.same_content(c),
        ensures
            a.same_content(c),
    {
    }

    /// Worlds with the same frame have the same size, sources and portals.
    pub proof fn lemma_same_frame(a: &World, b: &World)
        requires
            a.same_frame(b),
        ensures
            a.spec_width() == b.spec_width(),
            a.spec_height() == b.spec_height(),
            a.spec_chunk_size() == b.spec_chunk_size(),
            forall|x: int, y: int| #[trigger] b.source(x, y) == a.source(x, y),
            forall|x: int, y: int| #[trigger] b.portal(x, y) == a.portal(x, y),
            a.now_flags_agree(b),
            a.next_flags_kept(b),
            a.same_layout(b),
    {
    }

    /// Worlds with the same layout have the same size, sources and portals.
    pub proof fn lemma_same_layout(a: &World, b: &World)
        requires
            a.same_layout(b),
        ensures
            a.spec_width() == b.spec_width(),
            a.spec_height() == b.spec_height(),
            a.spec_chunk_size() == b.spec_chunk_size(),
            forall|x: int, y: int| #[trigger] b.source(x, y) == a.source(x, y),
            forall|x: int, y: int| #[trigger] b.portal(x, y) == a.portal(x, y),
    {
    }

    /// `same_layout` is transitive.
    pub proof fn lemma_same_layout_trans(a: &World, b: &World, c: &World)
        requires
            a.same_layout(b),
            b.same_layout(c),
        ensures
            a.same_layout(c),
    {
    }

    /// Worlds with the same content agree on everything the contracts speak
    /// of.
    pub proof fn lemma_same_content(a: &World, b: &World)
        requires
            a.same_content(b),
        ensures
            a.same_frame(b),
            a.same_layout(b),
            a.spec_width() == b.spec_width(),
            a.spec_height() == b.spec_height(),
            a.spec_chunk_size() == b.spec_chunk_size(),
            a.cells_agree(b),
            a.next_flags_agree(b),
            a.now_flags_agree(b),
            a.wf_core() ==> b.wf_core(),
            a.border_intact() ==> b.border_intact(),
            a.wf() ==> b.wf(),
            forall|x: int, y: int| #[trigger] b.cell(x, y) == a.cell(x, y),
            forall|i: int, j: int| #[trigger] b.chunk(i, j) == a.chunk(i, j),
            forall|i: int, j: int| #[trigger] b.awake_now(i, j) == a.awake_now(i, j),
            forall|i: int, j: int| #[trigger] b.awake_next(i, j) == a.awake_next(i, j),
            forall|x: int, y: int| #[trigger] b.source(x, y) == a.source(x, y),
            forall|x: int, y: int| #[trigger] b.portal(x, y) == a.portal(x, y),
    {
        if a.wf_core() {
            World::lemma_wf_core_same_parts(a, b);
        }
        if a.border_intact() {
            assert forall|x: int, y: int| b.in_bounds(x, y) && b.on_ring(x, y) implies (#[trigger] b.cell(x, y)).particle_type
                == ParticleType::Border by {
                assert(a.cell(x, y) == b.cell(x, y));
            }
        }
    }

    /// `same_frame` is transitive.
    pub proof fn lemma_same_frame_trans(a: &World, b: &World, c: &World)
        requires
            a.same_frame(b),
            b.same_frame(c),
        ensures
            a.same_frame(c),
            a.spec_width() == c.spec_width(),
            a.spec_height() == c.spec_height(),
            a.spec_chunk_size() == c.spec_chunk_size(),
    {
        assert forall|i: int, j: int|
            0 <= i < a.chunks_x() && 0 <= j < a.chunks_y() && a.awake_next(i, j) implies #[trigger] c.awake_next(i, j) by {
            assert(b.awake_next(i, j));
        }
        assert forall|i: int, j: int|
            0 <= i < a.chunks_x() && 0 <= j < a.chunks_y() implies #[trigger] c.awake_now(i, j) == a.awake_now(i, j) by {
            assert(b.awake_now(i, j) == a.awake_now(i, j));
        }
    }

    /// `same_frame` is reflexive, and a world agrees with itself.
    pub proof fn lemma_same_frame_refl(a: &World)
        ensures
            a.same_frame(a),
            a.cells_agree(a),
            a.next_flags_agree(a),
            a.now_flags_agree(a),
    {
    }

    /// Worlds with the same frame lead a step to the same cell.
    pub proof fn lemma_relative_same_frame(a: &World, b: &World, x: int, y: int, dx: int, dy: int)
        requires
            a.same_frame(b),
        ensures
            a.relative(x, y, dx, dy) == b.relative(x, y, dx, dy),
        decreases (if dx != 0 && dy != 0 { 1int } else { 0int }),
    {
        if a.in_bounds(x, y) && dx != 0 && dy != 0 && a.in_bounds(x + dx, y) {
            World::lemma_relative_same_frame(a, b, x + dx, y, 0, dy);
        }
    }

    /// A step that leads somewhere leads to a cell of the world.
    pub proof fn lemma_relative_in_bounds(&self, x: int, y: int, dx: int, dy: int)
        requires
            self.portals_in_bounds(),
        ensures
            self.relative(x, y, dx, dy) matches Some(q) ==> self.in_bounds(q.0, q.1),
        decreases (if dx != 0 && dy != 0 { 1int } else { 0int }),
    {
        if self.in_bounds(x, y) {
            assert(self.partner_in_bounds(self.portal(x, y)));
            if dx != 0 && dy != 0 && self.in_bounds(x + dx, y) {
                self.lemma_relative_in_bounds(x + dx, y, 0, dy);
            }
        }
    }

    /// The number of cells among the first `n` in row-major order that hold
    /// material `m`.
    pub open spec fn count_upto(&self, m: ParticleType, n: int) -> int
        decreases n,
    {
        if n <= 0 {
            0
        } else {
            self.count_upto(m, n - 1) + if self.cell((n - 1) % self.spec_width(), (n - 1) / self.spec_width()).particle_type
                == m {
                1int
            } else {
                0int
            }
        }
    }

    /// The number of cells of the world that hold material `m`.
    pub open spec fn material_count(&self, m: ParticleType) -> int {
        self.count_upto(m, self.spec_width() * self.spec_height())
    }

    /// A particle carried from cell `p` of `self` to cell `q` of `other`
    /// took nothing with it: every material is as common in `other` leaving
    /// out `q` as in `self` leaving out `p`, and `q` holds no border if `p`
    /// held none.
    pub open spec fn counts_carried(&self, p: (int, int), other: &World, q: (int, int)) -> bool {
        &&& forall|m: ParticleType|
            #![trigger self.material_count(m)]
            #![trigger other.material_count(m)]
            other.material_count(m) - (if other.cell(q.0, q.1).particle_type == m { 1int } else { 0int })
                == self.material_count(m) - (if self.cell(p.0, p.1).particle_type == m { 1int } else { 0int })
        &&& self.cell(p.0, p.1).particle_type != ParticleType::Border ==> other.cell(q.0, q.1).particle_type
            != ParticleType::Border
    }

    /// Changing the particle in one cell changes the count of a material by
    /// what left and what came in; changing none changes no count.
    pub proof fn lemma_count_after_write(a: &World, b: &World, x: int, y: int)
        requires
            a.same_frame(b),
            a.in_bounds(x, y),
            a.cells_agree_except(b, x, y),
        ensures
            forall|m: ParticleType|
                #![trigger b.material_count(m)]
                #![trigger a.material_count(m)]
                b.material_count(m) == a.material_count(m) - (if a.cell(x, y).particle_type == m { 1int } else { 0int })
                    + (if b.cell(x, y).particle_type == m { 1int } else { 0int }),
    {
        let w = a.spec_width();
        let h = a.spec_height();
        assert forall|m: ParticleType|
            #![trigger b.material_count(m)]
            #![trigger a.material_count(m)]
            b.material_count(m) == a.material_count(m) - (if a.cell(x, y).particle_type == m { 1int } else { 0int })
                + (if b.cell(x, y).particle_type == m { 1int } else { 0int }) by {
            World::lemma_count_upto_after_write(a, b, x, y, m, w * h);
            lemma_row_major_index(x, y, w, h);
        }
    }

    /// `lemma_count_after_write` for the first `n` cells.
    proof fn lemma_count_upto_after_write(a: &World, b: &World, x: int, y: int, m: ParticleType, n: int)
        requires
            a.same_frame(b),
            a.in_bounds(x, y),
            a.cells_agree_except(b, x, y),
            0 <= n <= a.spec_width() * a.spec_height(),
        ensures
            b.count_upto(m, n) == a.count_upto(m, n) - (if n > y * a.spec_width() + x {
                (if a.cell(x, y).particle_type == m { 1int } else { 0int }) - (if b.cell(x, y).particle_type == m {
                    1int
                } else {
                    0int
                })
            } else {
                0int
            }),
        decreases n,
    {
        let w = a.spec_width();
        let h = a.spec_height();
        if n > 0 {
            World::lemma_count_upto_after_write(a, b, x, y, m, n - 1);
            let i = n - 1;
            lemma_row_major(i, w, h);
            lemma_row_major_index(x, y, w, h);
            if i != y * w + x {
                assert(i % w != x || i / w != y);
                assert(b.cell(i % w, i / w) == a.cell(i % w, i / w));
            }
        }
    }

    /// `counts_carried` chains.
    pub proof fn lemma_counts_carried_trans(
        a: &World,
        p: (int, int),
        b: &World,
        q: (int, int),
        c: &World,
        r: (int, int),
    )
        requires
            a.counts_carried(p, b, q),
            b.counts_carried(q, c, r),
        ensures
            a.counts_carried(p, c, r),
    {
        assert forall|m: ParticleType|
            #![trigger a.material_count(m)]
            #![trigger c.material_count(m)]
            c.material_count(m) - (if c.cell(r.0, r.1).particle_type == m { 1int } else { 0int }) == a.material_count(m)
                - (if a.cell(p.0, p.1).particle_type == m { 1int } else { 0int }) by {
            assert(b.material_count(m) == b.material_count(m));
        }
    }

    /// A world that agrees with another on every cell has the same counts,
    /// whichever cell is left out of both.
    pub proof fn lemma_counts_carried_same(a: &World, b: &World, p: (int, int))
        requires
            a.same_frame(b),
            a.cells_agree(b),
            a.in_bounds(p.0, p.1),
        ensures
            a.counts_carried(p, b, p),
    {
        World::lemma_count_agree(a, b);
    }

    /// Rewriting one cell with a particle of the material it held keeps the
    /// counts, whichever cell is left out of both.
    pub proof fn lemma_counts_after_same_material(a: &World, b: &World, x: int, y: int, p: (int, int))
        requires
            a.same_frame(b),
            a.in_bounds(x, y),
            a.in_bounds(p.0, p.1),
            a.cells_agree_except(b, x, y),
            b.cell(x, y).particle_type == a.cell(x, y).particle_type,
        ensures
            a.counts_carried(p, b, p),
    {
        World::lemma_count_after_write(a, b, x, y);
    }

    /// Leaving out cell `p` of `self` and cell `q` of `other`, no material
    /// other than empty space is more common in `other`, there is as much
    /// water and steam together, and `q` holds no border if `p` held none.
    pub open spec fn counts_not_grown(&self, p: (int, int), other: &World, q: (int, int)) -> bool {
        &&& forall|m: ParticleType|
            #![trigger self.material_count(m)]
            #![trigger other.material_count(m)]
            m != ParticleType::Empty ==> other.material_count(m) - (if other.cell(q.0, q.1).particle_type == m {
                1int
            } else {
                0int
            }) <= self.material_count(m) - (if self.cell(p.0, p.1).particle_type == m { 1int } else { 0int })
        &&& other.wet_count() - (if World::is_wet(other.cell(q.0, q.1).particle_type) { 1int } else { 0int })
            == self.wet_count() - (if World::is_wet(self.cell(p.0, p.1).particle_type) { 1int } else { 0int })
        &&& self.cell(p.0, p.1).particle_type != ParticleType::Border ==> other.cell(q.0, q.1).particle_type
            != ParticleType::Border
    }

    /// With cell `p` of `self` left out, no material other than empty space
    /// is more common in `other`, and there is as much water and steam
    /// together: what a particle that is used up leaves behind.
    pub open spec fn counts_dropped(&self, p: (int, int), other: &World) -> bool {
        &&& forall|m: ParticleType|
            #![trigger self.material_count(m)]
            #![trigger other.material_count(m)]
            m != ParticleType::Empty ==> other.material_count(m) <= self.material_count(m) - (if self.cell(
                p.0,
                p.1,
            ).particle_type == m {
                1int
            } else {
                0int
            })
        &&& other.wet_count() == self.wet_count() - (if World::is_wet(self.cell(p.0, p.1).particle_type) {
            1int
        } else {
            0int
        })
    }

    /// Emptying the cell `q` that a particle was carried to, after carrying
    /// it from `p` and growing no count, leaves what a used-up particle does.
    pub proof fn lemma_counts_dropped_after_emptying(start: &World, p: (int, int), a: &World, b: &World, q: (int, int))
        requires
            start.counts_not_grown(p, a, q),
            a.same_frame(b),
            a.in_bounds(q.0, q.1),
            a.cells_agree_except(b, q.0, q.1),
            b.cell(q.0, q.1).particle_type == ParticleType::Empty,
        ensures
            start.counts_dropped(p, b),
    {
        World::lemma_count_after_write(a, b, q.0, q.1);
        assert(a.material_count(ParticleType::Water) == a.material_count(ParticleType::Water));
        assert(a.material_count(ParticleType::Steam) == a.material_count(ParticleType::Steam));
        assert forall|m: ParticleType|
            #![trigger start.material_count(m)]
            #![trigger b.material_count(m)]
            m != ParticleType::Empty implies b.material_count(m) <= start.material_count(m) - (if start.cell(
                p.0,
                p.1,
            ).particle_type == m {
                1int
            } else {
                0int
            }) by {
            assert(a.material_count(m) == a.material_count(m));
        }
    }

    /// Growing no count and then leaving what a used-up particle does leaves
    /// what a used-up particle does.
    pub proof fn lemma_counts_not_grown_then_dropped(a: &World, p: (int, int), b: &World, q: (int, int), c: &World)
        requires
            a.counts_not_grown(p, b, q),
            b.counts_dropped(q, c),
        ensures
            a.counts_dropped(p, c),
    {
        assert forall|m: ParticleType|
            #![trigger a.material_count(m)]
            #![trigger c.material_count(m)]
            m != ParticleType::Empty implies c.material_count(m) <= a.material_count(m) - (if a.cell(
                p.0,
                p.1,
            ).particle_type == m {
                1int
            } else {
                0int
            }) by {
            assert(b.material_count(m) == b.material_count(m));
        }
    }

    /// `counts_not_grown` chains.
    pub proof fn lemma_counts_not_grown_trans(
        a: &World,
        p: (int, int),
        b: &World,
        q: (int, int),
        c: &World,
        r: (int, int),
    )
        requires
            a.counts_not_grown(p, b, q),
            b.counts_not_grown(q, c, r),
        ensures
            a.counts_not_grown(p, c, r),
    {
        assert forall|m: ParticleType|
            #![trigger a.material_count(m)]
            #![trigger c.material_count(m)]
            m != ParticleType::Empty implies c.material_count(m) - (if c.cell(r.0, r.1).particle_type == m {
                1int
            } else {
                0int
            }) <= a.material_count(m) - (if a.cell(p.0, p.1).particle_type == m { 1int } else { 0int }) by {
            assert(b.material_count(m) == b.material_count(m));
        }
    }

    /// Carrying a particle grows no count.
    pub proof fn lemma_counts_carried_not_grown(a: &World, p: (int, int), b: &World, q: (int, int))
        requires
            a.counts_carried(p, b, q),
        ensures
            a.counts_not_grown(p, b, q),
    {
        assert(a.material_count(ParticleType::Water) == a.material_count(ParticleType::Water));
        assert(a.material_count(ParticleType::Steam) == a.material_count(ParticleType::Steam));
        assert forall|m: ParticleType|
            #![trigger a.material_count(m)]
            #![trigger b.material_count(m)]
            m != ParticleType::Empty implies b.material_count(m) - (if b.cell(q.0, q.1).particle_type == m {
                1int
            } else {
                0int
            }) <= a.material_count(m) - (if a.cell(p.0, p.1).particle_type == m { 1int } else { 0int }) by {
            assert(a.material_count(m) == a.material_count(m));
        }
    }

    /// Emptying one cell that held neither water nor steam, or rewriting it
    /// with a particle of the material it held, grows no count, whichever
    /// cell is left out of both.
    pub proof fn lemma_counts_after_emptying(a: &World, b: &World, x: int, y: int, p: (int, int))
        requires
            a.same_frame(b),
            a.in_bounds(x, y),
            a.in_bounds(p.0, p.1),
            a.cells_agree_except(b, x, y),
            b.cell(x, y).particle_type == ParticleType::Empty && !World::is_wet(a.cell(x, y).particle_type)
                || b.cell(x, y).particle_type == a.cell(x, y).particle_type,
        ensures
            a.counts_not_grown(p, b, p),
    {
        World::lemma_count_after_write(a, b, x, y);
        assert(b.material_count(ParticleType::Water) == b.material_count(ParticleType::Water));
        assert(b.material_count(ParticleType::Steam) == b.material_count(ParticleType::Steam));
    }

    /// Whether material `m` is one that burning can make: empty space, flame
    /// or steam.
    pub open spec fn made_by_fire(m: ParticleType) -> bool {
        m == ParticleType::Empty || m == ParticleType::Flame || m == ParticleType::Steam
    }

    /// The number of cells of water and steam together.
    pub open spec fn wet_count(&self) -> int {
        self.material_count(ParticleType::Water) + self.material_count(ParticleType::Steam)
    }

    /// Whether `m` is water or steam.
    pub open spec fn is_wet(m: ParticleType) -> bool {
        m == ParticleType::Water || m == ParticleType::Steam
    }

    /// Leaving out cell `p` of `self` and cell `q` of `other`, no material
    /// that burning cannot make is more common in `other`, there is as much
    /// water and steam together, and `q` holds no border if `p` held none.
    pub open spec fn counts_burnt(&self, p: (int, int), other: &World, q: (int, int)) -> bool {
        &&& forall|m: ParticleType|
            #![trigger self.material_count(m)]
            #![trigger other.material_count(m)]
            !World::made_by_fire(m) ==> other.material_count(m) - (if other.cell(q.0, q.1).particle_type == m {
                1int
            } else {
                0int
            }) <= self.material_count(m) - (if self.cell(p.0, p.1).particle_type == m { 1int } else { 0int })
        &&& other.wet_count() - (if World::is_wet(other.cell(q.0, q.1).particle_type) { 1int } else { 0int })
            == self.wet_count() - (if World::is_wet(self.cell(p.0, p.1).particle_type) { 1int } else { 0int })
        &&& self.cell(p.0, p.1).particle_type != ParticleType::Border ==> other.cell(q.0, q.1).particle_type
            != ParticleType::Border
    }

    /// `counts_burnt` chains.
    pub proof fn lemma_counts_burnt_trans(
        a: &World,
        p: (int, int),
        b: &World,
        q: (int, int),
        c: &World,
        r: (int, int),
    )
        requires
            a.counts_burnt(p, b, q),
            b.counts_burnt(q, c, r),
        ensures
            a.counts_burnt(p, c, r),
    {
        assert forall|m: ParticleType|
            #![trigger a.material_count(m)]
            #![trigger c.material_count(m)]
            !World::made_by_fire(m) implies c.material_count(m) - (if c.cell(r.0, r.1).particle_type == m {
                1int
            } else {
                0int
            }) <= a.material_count(m) - (if a.cell(p.0, p.1).particle_type == m { 1int } else { 0int }) by {
            assert(b.material_count(m) == b.material_count(m));
        }
    }

    /// Carrying a particle keeps the counts as burning does.
    pub proof fn lemma_counts_carried_burnt(a: &World, p: (int, int), b: &World, q: (int, int))
        requires
            a.counts_carried(p, b, q),
        ensures
            a.counts_burnt(p, b, q),
    {
        assert(a.material_count(ParticleType::Water) == a.material_count(ParticleType::Water));
        assert(a.material_count(ParticleType::Steam) == a.material_count(ParticleType::Steam));
        assert forall|m: ParticleType|
            #![trigger a.material_count(m)]
            #![trigger b.material_count(m)]
            !World::made_by_fire(m) implies b.material_count(m) - (if b.cell(q.0, q.1).particle_type == m {
                1int
            } else {
                0int
            }) <= a.material_count(m) - (if a.cell(p.0, p.1).particle_type == m { 1int } else { 0int }) by {
            assert(a.material_count(m) == a.material_count(m));
        }
    }

    /// Worlds that agree on every cell keep the counts as burning does.
    pub proof fn lemma_counts_burnt_same(a: &World, b: &World, p: (int, int))
        requires
            a.same_frame(b),
            a.cells_agree(b),
            a.in_bounds(p.0, p.1),
        ensures
            a.counts_burnt(p, b, p),
    {
        World::lemma_count_agree(a, b);
    }

    /// Rewriting one cell with the same material, a flame in empty space or
    /// steam in place of water keeps the counts as burning does, whichever
    /// cell is left out of both.
    pub proof fn lemma_counts_after_burning(a: &World, b: &World, x: int, y: int, p: (int, int))
        requires
            a.same_frame(b),
            a.in_bounds(x, y),
            a.in_bounds(p.0, p.1),
            a.cells_agree_except(b, x, y),
            ({
                let before = a.cell(x, y).particle_type;
                let after = b.cell(x, y).particle_type;
                ||| after == before
                ||| before == ParticleType::Empty && after == ParticleType::Flame
                ||| before == ParticleType::Water && after == ParticleType::Steam
            }),
        ensures
            a.counts_burnt(p, b, p),
    {
        World::lemma_count_after_write(a, b, x, y);
        assert(b.material_count(ParticleType::Water) == b.material_count(ParticleType::Water));
        assert(b.material_count(ParticleType::Steam) == b.material_count(ParticleType::Steam));
    }

    /// Whether `p` is a fungus holding water it drank.
    pub open spec fn holds_water(p: Particle) -> bool {
        p.particle_type == ParticleType::Fungus && p.watered == Some(true)
    }

    /// The number of cells among the first `n` in row-major order that hold
    /// a fungus holding water.
    pub open spec fn watered_upto(&self, n: int) -> int
        decreases n,
    {
        if n <= 0 {
            0
        } else {
            self.watered_upto(n - 1) + if World::holds_water(
                self.cell((n - 1) % self.spec_width(), (n - 1) / self.spec_width()),
            ) {
                1int
            } else {
                0int
            }
        }
    }

    /// The number of cells of the world that hold a fungus holding water.
    pub open spec fn watered_count(&self) -> int {
        self.watered_upto(self.spec_width() * self.spec_height())
    }

    /// What one particle adds to `fungus_water`: one for a fungus, one for
    /// water, and one more for a fungus holding water.
    pub open spec fn fungus_water_of(p: Particle) -> int {
        (if p.particle_type == ParticleType::Fungus { 1int } else { 0int }) + (if p.particle_type == ParticleType::Water {
            1int
        } else {
            0int
        }) + (if World::holds_water(p) { 1int } else { 0int })
    }

    /// The cells of fungus and of water, and the water that fungi hold,
    /// together.
    pub open spec fn fungus_water(&self) -> int {
        self.material_count(ParticleType::Fungus) + self.material_count(ParticleType::Water) + self.watered_count()
    }

    /// Changing the particle in one cell changes `fungus_water` by what left
    /// and what came in.
    pub proof fn lemma_fungus_water_after_write(a: &World, b: &World, x: int, y: int)
        requires
            a.same_frame(b),
            a.in_bounds(x, y),
            a.cells_agree_except(b, x, y),
        ensures
            b.fungus_water() == a.fungus_water() - World::fungus_water_of(a.cell(x, y)) + World::fungus_water_of(
                b.cell(x, y),
            ),
    {
        World::lemma_count_after_write(a, b, x, y);
        assert(b.material_count(ParticleType::Fungus) == b.material_count(ParticleType::Fungus));
        assert(b.material_count(ParticleType::Water) == b.material_count(ParticleType::Water));
        let w = a.spec_width();
        let h = a.spec_height();
        World::lemma_watered_upto_after_write(a, b, x, y, w * h);
        lemma_row_major_index(x, y, w, h);
    }

    /// `lemma_fungus_water_after_write` for the water fungi hold among the
    /// first `n` cells.
    proof fn lemma_watered_upto_after_write(a: &World, b: &World, x: int, y: int, n: int)
        requires
            a.same_frame(b),
            a.in_bounds(x, y),
            a.cells_agree_except(b, x, y),
            0 <= n <= a.spec_width() * a.spec_height(),
        ensures
            b.watered_upto(n) == a.watered_upto(n) - (if n > y * a.spec_width() + x {
                (if World::holds_water(a.cell(x, y)) { 1int } else { 0int }) - (if World::holds_water(b.cell(x, y)) {
                    1int
                } else {
                    0int
                })
            } else {
                0int
            }),
        decreases n,
    {
        let w = a.spec_width();
        let h = a.spec_height();
        if n > 0 {
            World::lemma_watered_upto_after_write(a, b, x, y, n - 1);
            let i = n - 1;
            lemma_row_major(i, w, h);
            lemma_row_major_index(x, y, w, h);
            if i != y * w + x {
                assert(i % w != x || i / w != y);
                assert(b.cell(i % w, i / w) == a.cell(i % w, i / w));
            }
        }
    }

    /// Worlds that agree on every cell have the same `fungus_water`.
    pub proof fn lemma_fungus_water_agree(a: &World, b: &World)
        requires
            a.same_layout(b),
            a.cells_agree(b),
        ensures
            b.fungus_water() == a.fungus_water(),
    {
        World::lemma_count_agree(a, b);
        assert(b.material_count(ParticleType::Fungus) == b.material_count(ParticleType::Fungus));
        assert(b.material_count(ParticleType::Water) == b.material_count(ParticleType::Water));
        World::lemma_watered_upto_agree(a, b, a.spec_width() * a.spec_height());
    }

    /// `lemma_fungus_water_agree` for the water fungi hold among the first
    /// `n` cells.
    proof fn lemma_watered_upto_agree(a: &World, b: &World, n: int)
        requires
            a.same_layout(b),
            a.cells_agree(b),
            0 <= n <= a.spec_width() * a.spec_height(),
        ensures
            b.watered_upto(n) == a.watered_upto(n),
        decreases n,
    {
        if n > 0 {
            World::lemma_watered_upto_agree(a, b, n - 1);
            let i = n - 1;
            lemma_row_major(i, a.spec_width(), a.spec_height());
            assert(b.cell(i % a.spec_width(), i / a.spec_width()) == a.cell(i % a.spec_width(), i / a.spec_width()));
        }
    }

    /// Whether `m` is a material that neither burns nor turns into another:
    /// sand, water, concrete, empty space or the border.
    pub open spec fn unchanging(m: ParticleType) -> bool {
        ||| m == ParticleType::Sand
        ||| m == ParticleType::Water
        ||| m == ParticleType::Concrete
        ||| m == ParticleType::Empty
        ||| m == ParticleType::Border
    }

    /// Whether every cell holds a material that neither burns nor turns into
    /// another.
    pub open spec fn holds_only_unchanging(&self) -> bool {
        forall|m: ParticleType| !World::unchanging(m) ==> #[trigger] self.material_count(m) == 0
    }

    /// Whether no cell holds a source.
    pub open spec fn has_no_sources(&self) -> bool {
        forall|x: int, y: int| self.in_bounds(x, y) ==> #[trigger] self.source(x, y) is None
    }

    /// No source of the world emits border.
    pub open spec fn emits_no_border(&self) -> bool {
        forall|x: int, y: int|
            self.in_bounds(x, y) && (#[trigger] self.source(x, y)) is Some ==> self.source(x, y).unwrap().particle_type
                != ParticleType::Border
    }

    /// Whether every material is as common in `other` as in `self`.
    pub open spec fn counts_equal(&self, other: &World) -> bool {
        forall|m: ParticleType| #[trigger] other.material_count(m) == self.material_count(m)
    }

    /// The material of a cell of the world occurs in it.
    pub proof fn lemma_count_positive(&self, x: int, y: int)
        requires
            self.in_bounds(x, y),
        ensures
            self.material_count(self.cell(x, y).particle_type) >= 1,
    {
        let w = self.spec_width();
        let h = self.spec_height();
        let m = self.cell(x, y).particle_type;
        let k = y * w + x;
        lemma_row_major_index(x, y, w, h);
        self.lemma_count_upto_nonneg(m, k);
        assert(self.count_upto(m, k + 1) == self.count_upto(m, k) + 1);
        self.lemma_count_upto_monotone(m, k + 1, w * h);
    }

    /// No count is negative.
    proof fn lemma_count_upto_nonneg(&self, m: ParticleType, n: int)
        ensures
            self.count_upto(m, n) >= 0,
        decreases n,
    {
        if n > 0 {
            self.lemma_count_upto_nonneg(m, n - 1);
        }
    }

    /// Counting more cells finds no fewer.
    proof fn lemma_count_upto_monotone(&self, m: ParticleType, a: int, b: int)
        requires
            a <= b,
        ensures
            self.count_upto(m, a) <= self.count_upto(m, b),
        decreases b - a,
    {
        if a < b {
            self.lemma_count_upto_monotone(m, a, b - 1);
            if b > 0 {
                assert(self.count_upto(m, b - 1) <= self.count_upto(m, b));
            }
        }
    }

    /// Worlds that agree on every cell have the same count of every material.
    pub proof fn lemma_count_agree(a: &World, b: &World)
        requires
            a.same_layout(b),
            a.cells_agree(b),
        ensures
            forall|m: ParticleType|
                #![trigger b.material_count(m)]
                #![trigger a.material_count(m)]
                b.material_count(m) == a.material_count(m),
    {
        assert forall|m: ParticleType|
            #![trigger b.material_count(m)]
            #![trigger a.material_count(m)]
            b.material_count(m) == a.material_count(m) by {
            World::lemma_count_upto_agree(a, b, m, a.spec_width() * a.spec_height());
        }
    }

    /// `lemma_count_agree` for the first `n` cells.
    proof fn lemma_count_upto_agree(a: &World, b: &World, m: ParticleType, n: int)
        requires
            a.same_layout(b),
            a.cells_agree(b),
            0 <= n <= a.spec_width() * a.spec_height(),
        ensures
            b.count_upto(m, n) == a.count_upto(m, n),
        decreases n,
    {
        if n > 0 {
            World::lemma_count_upto_agree(a, b, m, n - 1);
            let i = n - 1;
            lemma_row_major(i, a.spec_width(), a.spec_height());
            assert(b.cell(i % a.spec_width(), i / a.spec_width()) == a.cell(i % a.spec_width(), i / a.spec_width()));
        }
    }

    /// Every cell other than `(x, y)` holds the same particle in both worlds.
    pub open spec fn cells_agree_except(&self, other: &World, x: int, y: int) -> bool {
        forall|x2: int, y2: int|
            self.in_bounds(x2, y2) && (x2 != x || y2 != y) ==> #[trigger] other.cell(x2, y2) == self.cell(x2, y2)
    }

    /// Every cell of `self` that holds concrete holds the same particle in
    /// `other`.
    pub open spec fn concrete_kept(&self, other: &World) -> bool {
        forall|x: int, y: int|
            self.in_bounds(x, y) && (#[trigger] self.cell(x, y)).particle_type == ParticleType::Concrete ==> other.cell(
                x,
                y,
            ) == self.cell(x, y)
    }

    /// Apart from cell `p`, every cell that holds a flame gone out in `self`
    /// or in `other` holds the same particle in both.
    pub open spec fn cold_flames_kept(&self, other: &World, p: (int, int)) -> bool {
        forall|x: int, y: int|
            #![trigger other.cell(x, y)]
            #![trigger self.cell(x, y)]
            self.in_bounds(x, y) && (x, y) != p && (Particle::cold_flame(self.cell(x, y)) || Particle::cold_flame(
                other.cell(x, y),
            )) ==> other.cell(x, y) == self.cell(x, y)
    }

    /// `cold_flames_kept` composes with a step that keeps them apart from a
    /// cell `q`, when `q` is `p` or holds no flame gone out before or after.
    pub proof fn lemma_cold_flames_step(a: &World, b: &World, c: &World, p: (int, int), q: (int, int))
        requires
            a.same_frame(b),
            a.cold_flames_kept(b, p),
            b.cold_flames_kept(c, q),
            q == p || (!Particle::cold_flame(b.cell(q.0, q.1)) && !Particle::cold_flame(c.cell(q.0, q.1))),
        ensures
            a.cold_flames_kept(c, p),
    {
        World::lemma_same_frame(a, b);
        assert forall|x: int, y: int|
            a.in_bounds(x, y) && (x, y) != p && (Particle::cold_flame(a.cell(x, y)) || Particle::cold_flame(
                c.cell(x, y),
            )) implies c.cell(x, y) == a.cell(x, y) by {
            if (x, y) != q {
                if Particle::cold_flame(a.cell(x, y)) {
                    assert(b.cell(x, y) == a.cell(x, y));
                } else {
                    assert(c.cell(x, y) == b.cell(x, y));
                    assert(b.cell(x, y) == a.cell(x, y));
                }
            } else {
                assert(b.cell(x, y) != a.cell(x, y) || !Particle::cold_flame(a.cell(x, y)));
            }
        }
    }

    /// A write at `q` of no flame gone out, over none, keeps them.
    pub proof fn lemma_cold_flames_write(a: &World, b: &World, c: &World, p: (int, int), q: (int, int))
        requires
            a.same_frame(b),
            a.cold_flames_kept(b, p),
            b.in_bounds(q.0, q.1),
            b.cells_agree_except(c, q.0, q.1),
            !Particle::cold_flame(b.cell(q.0, q.1)),
            !Particle::cold_flame(c.cell(q.0, q.1)),
        ensures
            a.cold_flames_kept(c, p),
    {
        World::lemma_same_frame(a, b);
        assert forall|x: int, y: int|
            a.in_bounds(x, y) && (x, y) != p && (Particle::cold_flame(a.cell(x, y)) || Particle::cold_flame(
                c.cell(x, y),
            )) implies c.cell(x, y) == a.cell(x, y) by {
            if (x, y) != q {
                assert(c.cell(x, y) == b.cell(x, y));
            } else {
                if Particle::cold_flame(a.cell(x, y)) {
                    assert(b.cell(x, y) == a.cell(x, y));
                }
            }
        }
    }

    /// Every cell that holds a border in `self` or in `other` holds the same
    /// particle in both: no border is made, moved or removed.
    pub open spec fn borders_kept(&self, other: &World) -> bool {
        forall|x: int, y: int|
            #![trigger other.cell(x, y)]
            #![trigger self.cell(x, y)]
            self.in_bounds(x, y) && (self.cell(x, y).particle_type == ParticleType::Border || other.cell(x, y).particle_type
                == ParticleType::Border) ==> other.cell(x, y) == self.cell(x, y)
    }

    /// `borders_kept` is transitive within a frame.
    pub proof fn lemma_borders_kept_trans(a: &World, b: &World, c: &World)
        requires
            a.same_frame(b),
            a.borders_kept(b),
            b.borders_kept(c),
        ensures
            a.borders_kept(c),
    {
        World::lemma_same_frame(a, b);
        assert forall|x: int, y: int|
            a.in_bounds(x, y) && (a.cell(x, y).particle_type == ParticleType::Border || c.cell(x, y).particle_type
                == ParticleType::Border) implies c.cell(x, y) == a.cell(x, y) by {
            if a.cell(x, y).particle_type == ParticleType::Border {
                assert(b.cell(x, y) == a.cell(x, y));
            } else {
                assert(c.cell(x, y) == b.cell(x, y));
                assert(b.cell(x, y) == a.cell(x, y));
            }
        }
    }

    /// `borders_kept` is transitive between worlds of one size.
    pub proof fn lemma_borders_kept_across(a: &World, b: &World, c: &World)
        requires
            a.same_layout(b),
            a.borders_kept(b),
            b.borders_kept(c),
        ensures
            a.borders_kept(c),
    {
        World::lemma_same_layout(a, b);
        assert forall|x: int, y: int|
            a.in_bounds(x, y) && (a.cell(x, y).particle_type == ParticleType::Border || c.cell(x, y).particle_type
                == ParticleType::Border) implies c.cell(x, y) == a.cell(x, y) by {
            if a.cell(x, y).particle_type == ParticleType::Border {
                assert(b.cell(x, y) == a.cell(x, y));
            } else {
                assert(c.cell(x, y) == b.cell(x, y));
                assert(b.cell(x, y) == a.cell(x, y));
            }
        }
    }

    /// A write at `q` that puts no border there, over none, keeps the
    /// borders; so does a step that changes no cell.
    pub proof fn lemma_borders_write(a: &World, b: &World, c: &World, q: (int, int))
        requires
            a.same_frame(b),
            a.borders_kept(b),
            b.cells_agree_except(c, q.0, q.1),
            b.cells_agree(c) || (b.in_bounds(q.0, q.1) && b.cell(q.0, q.1).particle_type != ParticleType::Border
                && c.cell(q.0, q.1).particle_type != ParticleType::Border),
        ensures
            a.borders_kept(c),
    {
        World::lemma_same_frame(a, b);
        assert forall|x: int, y: int|
            a.in_bounds(x, y) && (a.cell(x, y).particle_type == ParticleType::Border || c.cell(x, y).particle_type
                == ParticleType::Border) implies c.cell(x, y) == a.cell(x, y) by {
            if (x, y) != q || b.cells_agree(c) {
                assert(c.cell(x, y) == b.cell(x, y));
                if a.cell(x, y).particle_type == ParticleType::Border {
                    assert(b.cell(x, y) == a.cell(x, y));
                }
            } else {
                if a.cell(x, y).particle_type == ParticleType::Border {
                    assert(b.cell(x, y) == a.cell(x, y));
                }
            }
        }
    }

    /// `concrete_kept` is transitive within a frame.
    pub proof fn lemma_concrete_kept_trans(a: &World, b: &World, c: &World)
        requires
            a.same_frame(b),
            a.concrete_kept(b),
            b.concrete_kept(c),
        ensures
            a.concrete_kept(c),
    {
        World::lemma_same_frame(a, b);
        assert forall|x: int, y: int|
            a.in_bounds(x, y) && (#[trigger] a.cell(x, y)).particle_type == ParticleType::Concrete implies c.cell(x, y)
            == a.cell(x, y) by {
            assert(b.cell(x, y) == a.cell(x, y));
        }
    }

    /// Every chunk is due to be updated in this frame and in the next.
    pub open spec fn all_awake(&self) -> bool {
        forall|i: int, j: int|
            0 <= i < self.chunks_x() && 0 <= j < self.chunks_y() ==> #[trigger] self.awake_now(i, j)
                && self.awake_next(i, j)
    }

    /// Every cell holds the same particle in both worlds.
    pub open spec fn cells_agree(&self, other: &World) -> bool {
        forall|x2: int, y2: int| self.in_bounds(x2, y2) ==> #[trigger] other.cell(x2, y2) == self.cell(x2, y2)
    }

    /// Every chunk has the same "this frame" flag in both worlds.
    pub open spec fn now_flags_agree(&self, other: &World) -> bool {
        forall|i: int, j: int|
            0 <= i < self.chunks_x() && 0 <= j < self.chunks_y() ==> #[trigger] other.awake_now(i, j)
                == self.awake_now(i, j)
    }

    /// Every chunk has the same "next frame" flag in both worlds.
    pub open spec fn next_flags_agree(&self, other: &World) -> bool {
        forall|i: int, j: int|
            0 <= i < self.chunks_x() && 0 <= j < self.chunks_y() ==> #[trigger] other.awake_next(i, j)
                == self.awake_next(i, j)
    }

    /// `other` has the "next frame" flags of `self`, with those that a change
    /// at `(x, y)` wakes set as well.
    pub open spec fn next_flags_woken(&self, other: &World, x: int, y: int) -> bool {
        let cs = self.spec_chunk_size();
        forall|i: int, j: int|
            0 <= i < self.chunks_x() && 0 <= j < self.chunks_y() ==> #[trigger] other.awake_next(i, j) == (
            self.awake_next(i, j) || self.wakes(x / cs, y / cs, x % cs, y % cs, i, j))
    }

    /// Marks chunk `chunk_xy` to be updated in the next frame, and with it the
    /// neighbouring chunk on each axis that a change at `local_xy` may affect.
    fn wake_chunk_from(&mut self, chunk_xy: (usize, usize), local_xy: (usize, usize))
        requires
            old(self).wf_core(),
            chunk_xy.0 < old(self).chunks_x(),
            chunk_xy.1 < old(self).chunks_y(),
            local_xy.0 < old(self).spec_chunk_size(),
            local_xy.1 < old(self).spec_chunk_size(),
        ensures
            final(self).wf_core(),
            old(self).same_frame(final(self)),
            old(self).border_intact() == final(self).border_intact(),
            forall|i: int, j: int|
                0 <= i < old(self).chunks_x() && 0 <= j < old(self).chunks_y() ==> #[trigger] final(self).chunk(i, j)
                    == (WorldChunk {
                    update_next_frame: old(self).chunk(i, j).update_next_frame || old(self).wakes(
                        chunk_xy.0 as int,
                        chunk_xy.1 as int,
                        local_xy.0 as int,
                        local_xy.1 as int,
                        i,
                        j,
                    ),
                    ..old(self).chunk(i, j)
                }),
            old(self).same_generator(final(self)),
    {
        let ghost old_self = *self;
        let (chunk_x, chunk_y) = chunk_xy;
        let (local_x, local_y) = local_xy;
        self.set_next_flag(chunk_x, chunk_y);
        let num_x = self.width / self.chunk_size;
        let num_y = self.height / self.chunk_size;
        if local_x <= 1 && chunk_x != 0 {
            self.set_next_flag(chunk_x - 1, chunk_y);
        } else if local_x >= self.chunk_size - 2 && chunk_x != num_x - 1 {
            self.set_next_flag(chunk_x + 1, chunk_y);
        }
        if local_y <= 0 && chunk_y != 0 {
            self.set_next_flag(chunk_x, chunk_y - 1);
        } else if local_y >= self.chunk_size - 2 && chunk_y != num_y - 1 {
            self.set_next_flag(chunk_x, chunk_y + 1);
        }
    }

    /// Sets the "next frame" flag of chunk `(cx, cy)`.
    fn set_next_flag(&mut self, cx: usize, cy: usize)
        requires
            old(self).wf_core(),
            cx < old(self).chunks_x(),
            cy < old(self).chunks_y(),
        ensures
            final(self).wf_core(),
            old(self).same_frame(final(self)),
            old(self).border_intact() == final(self).border_intact(),
            forall|i: int, j: int|
                0 <= i < old(self).chunks_x() && 0 <= j < old(self).chunks_y() ==> #[trigger] final(self).chunk(i, j)
                    == (if i == cx && j == cy {
                    WorldChunk { update_next_frame: true, ..old(self).chunk(i, j) }
                } else {
                    old(self).chunk(i, j)
                }),
            old(self).same_generator(final(self)),
    {
        let ghost old_self = *self;
        let c = chunk_cell_mut(&mut self.chunk_grid, cx, cy);
        c.update_next_frame = true;
        proof {
            let cs = self.chunk_size as int;
            assert forall|i: int, j: int|
                0 <= i < self.chunks_x() && 0 <= j < self.chunks_y() implies #[trigger] chunk_cells(
                    self.chunk_grid,
                )[i][j].wf(cs) by {
                assert(old_self.chunk(i, j).wf(cs));
                assert(chunk_cells(self.chunk_grid)[i][j].particle_grid == old_self.chunk(i, j).particle_grid);
            }
            assert(is_shape(chunk_cells(self.chunk_grid), self.chunks_x(), self.chunks_y()));
            assert(self.portals_in_bounds()) by {
                assert forall|x: int, y: int| self.in_bounds(x, y) implies self.partner_in_bounds(#[trigger] self.portal(x, y)) by {
                    assert(old_self.partner_in_bounds(old_self.portal(x, y)));
                }
            }
            assert forall|x: int, y: int| self.in_bounds(x, y) implies #[trigger] self.cell(x, y) == old_self.cell(x, y) by {
                lemma_split_coordinate(x, cs, self.width as int);
                lemma_split_coordinate(y, cs, self.height as int);
            }
            assert(self.border_intact() == old_self.border_intact()) by {
                if old_self.border_intact() {
                    assert forall|x: int, y: int| self.in_bounds(x, y) && self.on_ring(x, y) implies (
                    #[trigger] self.cell(x, y)).particle_type == ParticleType::Border by {
                        assert(self.cell(x, y) == old_self.cell(x, y));
                    }
                }
                if self.border_intact() {
                    assert forall|x: int, y: int| old_self.in_bounds(x, y) && old_self.on_ring(x, y) implies (
                    #[trigger] old_self.cell(x, y)).particle_type == ParticleType::Border by {
                        assert(self.cell(x, y) == old_self.cell(x, y));
                    }
                }
            }
        }
    }

    /// Stores `particle` in cell `xy`, leaving every flag as it is.
    fn write_cell(&mut self, xy: (usize, usize), particle: Particle)
        requires
            old(self).wf_core(),
            old(self).in_bounds(xy.0 as int, xy.1 as int),
            particle.wf(),
        ensures
            final(self).wf_core(),
            old(self).same_frame(final(self)),
            final(self).cell(xy.0 as int, xy.1 as int) == particle,
            old(self).cells_agree_except(final(self), xy.0 as int, xy.1 as int),
            old(self).now_flags_agree(final(self)),
            old(self).next_flags_agree(final(self)),
            old(self).border_intact() && (old(self).on_ring(xy.0 as int, xy.1 as int)
                ==> particle.particle_type == ParticleType::Border) ==> final(self).border_intact(),
            old(self).same_generator(final(self)),
    {
        let ghost old_self = *self;
        let ghost cs = self.chunk_size as int;
        proof {
            lemma_split_coordinate(xy.0 as int, cs, self.width as int);
            lemma_split_coordinate(xy.1 as int, cs, self.height as int);
        }
        let (chunk_xy, local_xy) = self.global_xy_to_chunk_xy(xy);
        let c = chunk_cell_mut(&mut self.chunk_grid, chunk_xy.0, chunk_xy.1);
        let slot = particle_cell_mut(&mut c.particle_grid, local_xy.0, local_xy.1);
        *slot = particle;
        proof {
            let cx = chunk_xy.0 as int;
            let cy = chunk_xy.1 as int;
            let lx = local_xy.0 as int;
            let ly = local_xy.1 as int;
            assert forall|i: int, j: int|
                0 <= i < self.chunks_x() && 0 <= j < self.chunks_y() implies #[trigger] chunk_cells(
                    self.chunk_grid,
                )[i][j].wf(cs) by {
                let oc = old_self.chunk(i, j);
                assert(oc.wf(cs));
                if i == cx && j == cy {
                    let nc = chunk_cells(self.chunk_grid)[i][j];
                    assert(nc.cells() == set_cell(oc.cells(), lx, ly, particle));
                    assert forall|a: int, b: int| 0 <= a < cs && 0 <= b < cs implies (#[trigger] nc.cells()[a][b]).wf() by {
                        if a == lx && b == ly {
                        } else {
                            assert(nc.cells()[a][b] == oc.cells()[a][b]);
                        }
                    }
                } else {
                    assert(chunk_cells(self.chunk_grid)[i][j] == oc);
                }
            }
            assert(is_shape(chunk_cells(self.chunk_grid), self.chunks_x(), self.chunks_y()));
            assert(self.portals_in_bounds()) by {
                assert forall|x: int, y: int| self.in_bounds(x, y) implies self.partner_in_bounds(#[trigger] self.portal(x, y)) by {
                    assert(old_self.partner_in_bounds(old_self.portal(x, y)));
                }
            }
            assert forall|x2: int, y2: int|
                old_self.in_bounds(x2, y2) && (x2 != xy.0 || y2 != xy.1) implies #[trigger] self.cell(x2, y2)
                == old_self.cell(x2, y2) by {
                lemma_split_coordinate(x2, cs, self.width as int);
                lemma_split_coordinate(y2, cs, self.height as int);
            }
            assert forall|i: int, j: int|
                0 <= i < old_self.chunks_x() && 0 <= j < old_self.chunks_y() implies #[trigger] self.awake_now(i, j)
                == old_self.awake_now(i, j) && self.awake_next(i, j) == old_self.awake_next(i, j) by {
            }
            if old_self.border_intact() && (old_self.on_ring(xy.0 as int, xy.1 as int) ==> particle.particle_type
                == ParticleType::Border) {
                assert forall|x2: int, y2: int| self.in_bounds(x2, y2) && self.on_ring(x2, y2) implies (
                #[trigger] self.cell(x2, y2)).particle_type == ParticleType::Border by {
                    if x2 != xy.0 || y2 != xy.1 {
                        assert(self.cell(x2, y2) == old_self.cell(x2, y2));
                    }
                }
            }
        }
    }

    /// Puts `particle` in cell `xy`. When it differs from the particle there,
    /// the chunk of the cell (and a neighbour when the cell is near its edge)
    /// is woken for the next frame.
    fn put_particle(&mut self, xy: (usize, usize), particle: Particle)
        requires
            old(self).wf_core(),
            old(self).in_bounds(xy.0 as int, xy.1 as int),
            particle.wf(),
        ensures
            final(self).wf_core(),
            old(self).same_frame(final(self)),
            final(self).cell(xy.0 as int, xy.1 as int) == particle,
            old(self).cells_agree_except(final(self), xy.0 as int, xy.1 as int),
            old(self).now_flags_agree(final(self)),
            old(self).cell(xy.0 as int, xy.1 as int) == particle ==> old(self).next_flags_agree(final(self)),
            old(self).cell(xy.0 as int, xy.1 as int) != particle ==> old(self).next_flags_woken(
                final(self),
                xy.0 as int,
                xy.1 as int,
            ),
            old(self).border_intact() && (old(self).on_ring(xy.0 as int, xy.1 as int)
                ==> particle.particle_type == ParticleType::Border) ==> final(self).border_intact(),
            old(self).same_generator(final(self)),
    {
        let ghost old_self = *self;
        let ghost cs = self.chunk_size as int;
        proof {
            lemma_split_coordinate(xy.0 as int, cs, self.width as int);
            lemma_split_coordinate(xy.1 as int, cs, self.height as int);
        }
        let differs = *self.get_particle(xy) != particle;
        if differs {
            let (chunk_xy, local_xy) = self.global_xy_to_chunk_xy(xy);
            self.wake_chunk_from(chunk_xy, local_xy);
            let ghost woken = *self;
            proof {
                assert forall|x2: int, y2: int| old_self.in_bounds(x2, y2) implies #[trigger] woken.cell(x2, y2)
                    == old_self.cell(x2, y2) by {
                    lemma_split_coordinate(x2, cs, self.width as int);
                    lemma_split_coordinate(y2, cs, self.height as int);
                    assert(woken.chunk(x2 / cs, y2 / cs).particle_grid == old_self.chunk(x2 / cs, y2 / cs).particle_grid);
                }
                assert(woken.border_intact() == old_self.border_intact());
            }
            self.write_cell(xy, particle);
        }
    }

    /// A `width` by `height` world in chunks of `chunk_size`: border particles
    /// on the outermost ring, new empty particles elsewhere, no sources, no
    /// portals, and every chunk due to be updated. The chunk size must divide
    /// both sides, be at least two unless the world is empty, and the cell
    /// counts must fit in `usize`.
    pub fn new(width: usize, height: usize, chunk_size: usize) -> (w: Self)
        requires
            chunk_size > 0,
            width % chunk_size == 0,
            height % chunk_size == 0,
            width > 0 && height > 0 ==> chunk_size >= 2,
            chunk_size * chunk_size <= usize::MAX,
            width * height <= usize::MAX,
        ensures
            w.wf(),
            w.spec_width() == width,
            w.spec_height() == height,
            w.spec_chunk_size() == chunk_size,
            forall|x: int, y: int|
                w.in_bounds(x, y) ==> (#[trigger] w.cell(x, y)).is_fresh(
                    if w.on_ring(x, y) { ParticleType::Border } else { ParticleType::Empty },
                ),
            forall|x: int, y: int| w.in_bounds(x, y) ==> #[trigger] w.source(x, y) == None::<ParticleSource>,
            forall|x: int, y: int| w.in_bounds(x, y) ==> #[trigger] w.portal(x, y) == None::<Portal>,
            w.all_awake(),
    {
        let mut rng = new_thread_rng();
        let ghost cs = chunk_size as int;
        proof {
            lemma_fundamental_div_mod(width as int, cs);
            lemma_fundamental_div_mod(height as int, cs);
            assert((width / chunk_size) * (height / chunk_size) <= width * height) by (nonlinear_arith)
                requires
                    width == chunk_size * (width / chunk_size),
                    height == chunk_size * (height / chunk_size),
                    chunk_size >= 1,
            ;
        }
        let chunk = WorldChunk::new(chunk_size, &mut rng);
        let ghost empty = chunk.cells()[0][0];
        let chunk_grid = filled_chunks(chunk, width / chunk_size, height / chunk_size);
        let source_grid = filled_sources(None, width, height);
        let portal_grid = filled_portals(None, width, height);
        let mut new_world = Self {
            chunk_grid,
            source_grid,
            portal_grid,
            chunk_size,
            width,
            height,
            rng,
            draws: Ghost(Seq::empty()),
        };
        let ghost start = new_world;
        proof {
            assert(new_world.wf_core()) by {
                assert forall|i: int, j: int|
                    0 <= i < (width as int) / cs && 0 <= j < (height as int) / cs implies #[trigger] chunk_cells(
                        new_world.chunk_grid,
                    )[i][j].wf(cs) by {}
                assert forall|x: int, y: int| new_world.in_bounds(x, y) implies new_world.partner_in_bounds(
                    #[trigger] new_world.portal(x, y),
                ) by {}
            }
            assert forall|x: int, y: int| new_world.in_bounds(x, y) implies #[trigger] new_world.cell(x, y) == empty by {
                lemma_split_coordinate(x, cs, width as int);
                lemma_split_coordinate(y, cs, height as int);
            }
            if width > 0 && height > 0 {
                assert(chunk.cells().len() > 0);
            }
        }
        let mut y: usize = 0;
        while y < height
            invariant
                0 <= y <= height,
                new_world.wf_core(),
                start.same_frame(&new_world),
                new_world.spec_width() == width,
                new_world.spec_height() == height,
                new_world.spec_chunk_size() == chunk_size,
                (width > 0 && height > 0) ==> empty.is_fresh(ParticleType::Empty),
                forall|x2: int, y2: int|
                    new_world.in_bounds(x2, y2) ==> (#[trigger] new_world.cell(x2, y2) == if y2 < y && new_world.on_ring(x2, y2) {
                        new_world.cell(x2, y2)
                    } else {
                        empty
                    }),
                forall|x2: int, y2: int|
                    new_world.in_bounds(x2, y2) && y2 < y && new_world.on_ring(x2, y2) ==> (#[trigger] new_world.cell(
                        x2,
                        y2,
                    )).is_fresh(ParticleType::Border),
                new_world.all_awake(),
            decreases height - y,
        {
            let mut x: usize = 0;
            while x < width
                invariant
                    0 <= y < height,
                    0 <= x <= width,
                    new_world.wf_core(),
                    start.same_frame(&new_world),
                    new_world.spec_width() == width,
                    new_world.spec_height() == height,
                    new_world.spec_chunk_size() == chunk_size,
                    (width > 0 && height > 0) ==> empty.is_fresh(ParticleType::Empty),
                    forall|x2: int, y2: int|
                        new_world.in_bounds(x2, y2) ==> (#[trigger] new_world.cell(x2, y2) == if (y2 < y || (y2 == y
                            && x2 < x)) && new_world.on_ring(x2, y2) {
                            new_world.cell(x2, y2)
                        } else {
                            empty
                        }),
                    forall|x2: int, y2: int|
                        new_world.in_bounds(x2, y2) && (y2 < y || (y2 == y && x2 < x)) && new_world.on_ring(x2, y2)
                            ==> (#[trigger] new_world.cell(x2, y2)).is_fresh(ParticleType::Border),
                    new_world.all_awake(),
                decreases width - x,
            {
                if x == 0 || x == width - 1 || y == 0 || y == height - 1 {
                    let ghost pre_rng = new_world;
                    let border_particle = new_world.make_particle(ParticleType::Border);
                    proof {
                        World::lemma_same_content(&pre_rng, &new_world);
                    }
                    let ghost before = new_world;
                    new_world.put_particle((x, y), border_particle);
                    proof {
                        World::lemma_same_frame(&before, &new_world);
                        assert(new_world.all_awake()) by {
                            assert forall|i: int, j: int|
                                0 <= i < new_world.chunks_x() && 0 <= j < new_world.chunks_y() implies #[trigger] new_world.awake_now(
                                i,
                                j,
                            ) && new_world.awake_next(i, j) by {
                                assert(before.chunk(i, j) == pre_rng.chunk(i, j));
                                assert(pre_rng.awake_now(i, j));
                                assert(pre_rng.awake_next(i, j));
                                assert(before.awake_now(i, j) && before.awake_next(i, j));
                                assert(new_world.awake_now(i, j) == before.awake_now(i, j));
                                assert(new_world.awake_next(i, j));
                            }
                        }
                        assert forall|x2: int, y2: int| new_world.in_bounds(x2, y2) implies (#[trigger] new_world.cell(x2, y2)
                            == if (y2 < y || (y2 == y && x2 < x + 1)) && new_world.on_ring(x2, y2) {
                            new_world.cell(x2, y2)
                        } else {
                            empty
                        }) && ((y2 < y || (y2 == y && x2 < x + 1)) && new_world.on_ring(x2, y2) ==> new_world.cell(x2, y2).is_fresh(ParticleType::Border)) by {
                            if x2 != x || y2 != y {
                                assert(new_world.cell(x2, y2) == before.cell(x2, y2));
                                assert(before.cell(x2, y2) == pre_rng.cell(x2, y2));
                            }
                        }
                    }
                }
                x = x + 1;
            }
            y = y + 1;
        }
        proof {
            assert forall|x2: int, y2: int| new_world.in_bounds(x2, y2) && new_world.on_ring(x2, y2) implies (
            #[trigger] new_world.cell(x2, y2)).particle_type == ParticleType::Border by {
                let p = new_world.cell(x2, y2);
                assert(p.is_fresh(ParticleType::Border));
                let (mr, c, t) = choose|mr: bool, c: i16, t: Tint|
                    countdown_in_range(c) && tint_in_range(t) && p == #[trigger] Particle::fresh(ParticleType::Border, mr, c, t);
            }
            assert forall|x2: int, y2: int| new_world.in_bounds(x2, y2) implies #[trigger] new_world.source(x2, y2)
                == None::<ParticleSource> by {}
            assert forall|x2: int, y2: int| new_world.in_bounds(x2, y2) implies #[trigger] new_world.portal(x2, y2)
                == None::<Portal> by {}
        }
        new_world
    }

    /// A new particle of material `t`, drawn from the world's generator.
    pub fn make_particle(&mut self, t: ParticleType) -> (p: Particle)
        ensures
            p.is_fresh(t),
            p.wf(),
            old(self).same_content(final(self)),
            final(self).draws() == old(self).draws(),
    {
        Particle::new(t, &mut self.rng)
    }

    /// Whether `add_new_particle` of material `t` writes into a cell holding
    /// material `old_type`: never over a border, always when either side is
    /// empty space, and otherwise only when asked to replace.
    pub open spec fn adds_over(t: ParticleType, old_type: ParticleType, replace: bool) -> bool {
        old_type != ParticleType::Border && (t == ParticleType::Empty || old_type == ParticleType::Empty
            || replace)
    }

    /// The "next frame" flags of `other` are those of `self`, with the chunks
    /// that a change at `(x, y)` wakes set too when the cell changed.
    pub open spec fn next_flags_after_write(&self, other: &World, x: int, y: int) -> bool {
        if self.cell(x, y) == other.cell(x, y) {
            self.next_flags_agree(other)
        } else {
            self.next_flags_woken(other, x, y)
        }
    }

    /// Puts a new particle of material `new_particle_type` in cell `xy`,
    /// unless the cell holds a border, or it holds something other than empty
    /// space, the new material is not empty space and `replace` is false.
    pub fn add_new_particle(&mut self, new_particle_type: ParticleType, xy: (usize, usize), replace: bool)
        requires
            old(self).wf(),
            old(self).in_bounds(xy.0 as int, xy.1 as int),
        ensures
            final(self).wf(),
            old(self).same_frame(final(self)),
            old(self).now_flags_agree(final(self)),
            old(self).cells_agree_except(final(self), xy.0 as int, xy.1 as int),
            old(self).next_flags_after_write(final(self), xy.0 as int, xy.1 as int),
            World::adds_over(new_particle_type, old(self).cell(xy.0 as int, xy.1 as int).particle_type, replace)
                ==> final(self).cell(xy.0 as int, xy.1 as int).is_fresh(new_particle_type),
            !World::adds_over(new_particle_type, old(self).cell(xy.0 as int, xy.1 as int).particle_type, replace)
                ==> final(self).cell(xy.0 as int, xy.1 as int) == old(self).cell(xy.0 as int, xy.1 as int),
            final(self).draws() == old(self).draws(),
    {
        let ghost old_self = *self;
        let old_particle_type = self.get_particle(xy).particle_type;
        let writes = match (new_particle_type, old_particle_type) {
            (_, ParticleType::Border) => false,
            (ParticleType::Empty, _) | (_, ParticleType::Empty) => true,
            _ => replace,
        };
        if writes {
            let new_particle = self.make_particle(new_particle_type);
            proof {
                World::lemma_same_content(&old_self, self);
            }
            self.put_particle(xy, new_particle);
        } else {
            proof {
                assert(old_self.next_flags_agree(self));
            }
        }
    }

    /// The source on cell `xy`, if any.
    pub fn source_at(&self, xy: (usize, usize)) -> (s: Option<ParticleSource>)
        requires
            self.wf_core(),
            self.in_bounds(xy.0 as int, xy.1 as int),
        ensures
            s == self.source(xy.0 as int, xy.1 as int),
    {
        *source_cell(&self.source_grid, xy.0, xy.1)
    }

    /// The portal on cell `xy`, if any.
    pub fn portal_at(&self, xy: (usize, usize)) -> (p: Option<Portal>)
        requires
            self.wf_core(),
            self.in_bounds(xy.0 as int, xy.1 as int),
        ensures
            p == self.portal(xy.0 as int, xy.1 as int),
    {
        *portal_cell(&self.portal_grid, xy.0, xy.1)
    }

    /// Every cell holds the same source in both worlds, except perhaps
    /// `(x, y)`.
    pub open spec fn sources_agree_except(&self, other: &World, x: int, y: int) -> bool {
        forall|x2: int, y2: int|
            self.in_bounds(x2, y2) && (x2 != x || y2 != y) ==> #[trigger] other.source(x2, y2) == self.source(x2, y2)
    }

    /// Places a source of material `source_type` on cell `xy`, unless one is
    /// there already and `replace` is false.
    pub fn add_new_source(&mut self, source_type: ParticleType, xy: (usize, usize), source_replaces: bool, replace: bool)
        requires
            old(self).wf(),
            old(self).in_bounds(xy.0 as int, xy.1 as int),
        ensures
            final(self).wf(),
            final(self).spec_width() == old(self).spec_width(),
            final(self).spec_height() == old(self).spec_height(),
            final(self).spec_chunk_size() == old(self).spec_chunk_size(),
            old(self).cells_agree(final(self)),
            old(self).now_flags_agree(final(self)),
            old(self).next_flags_agree(final(self)),
            forall|x: int, y: int| #[trigger] final(self).portal(x, y) == old(self).portal(x, y),
            old(self).sources_agree_except(final(self), xy.0 as int, xy.1 as int),
            final(self).source(xy.0 as int, xy.1 as int) == if old(self).source(xy.0 as int, xy.1 as int).is_some()
                && !replace {
                old(self).source(xy.0 as int, xy.1 as int)
            } else {
                Some(ParticleSource { particle_type: source_type, replaces: source_replaces })
            },
    {
        if source_cell(&self.source_grid, xy.0, xy.1).is_some() && !replace {
            return;
        }
        self.set_source(xy, Some(ParticleSource { particle_type: source_type, replaces: source_replaces }));
    }

    /// Removes the source, if any, from cell `xy`.
    pub fn delete_source(&mut self, xy: (usize, usize))
        requires
            old(self).wf(),
            old(self).in_bounds(xy.0 as int, xy.1 as int),
        ensures
            final(self).wf(),
            final(self).spec_width() == old(self).spec_width(),
            final(self).spec_height() == old(self).spec_height(),
            final(self).spec_chunk_size() == old(self).spec_chunk_size(),
            old(self).cells_agree(final(self)),
            old(self).now_flags_agree(final(self)),
            old(self).next_flags_agree(final(self)),
            forall|x: int, y: int| #[trigger] final(self).portal(x, y) == old(self).portal(x, y),
            old(self).sources_agree_except(final(self), xy.0 as int, xy.1 as int),
            final(self).source(xy.0 as int, xy.1 as int) == None::<ParticleSource>,
    {
        self.set_source(xy, None);
    }

    /// Sets the source of cell `xy` to `source`.
    fn set_source(&mut self, xy: (usize, usize), source: Option<ParticleSource>)
        requires
            old(self).wf(),
            old(self).in_bounds(xy.0 as int, xy.1 as int),
        ensures
            final(self).wf(),
            final(self).spec_width() == old(self).spec_width(),
            final(self).spec_height() == old(self).spec_height(),
            final(self).spec_chunk_size() == old(self).spec_chunk_size(),
            final(self).chunk_grid == old(self).chunk_grid,
            final(self).portal_grid == old(self).portal_grid,
            old(self).cells_agree(final(self)),
            old(self).now_flags_agree(final(self)),
            old(self).next_flags_agree(final(self)),
            forall|x: int, y: int| #[trigger] final(self).portal(x, y) == old(self).portal(x, y),
            old(self).sources_agree_except(final(self), xy.0 as int, xy.1 as int),
            final(self).source(xy.0 as int, xy.1 as int) == source,
    {
        let ghost old_self = *self;
        let slot = source_cell_mut(&mut self.source_grid, xy.0, xy.1);
        *slot = source;
        proof {
            World::lemma_wf_core_same_parts_but_sources(&old_self, self);
        }
    }

    /// Well-formedness does not depend on the sources, as long as their grid
    /// keeps its shape.
    proof fn lemma_wf_core_same_parts_but_sources(a: &World, b: &World)
        requires
            a.wf(),
            a.chunk_grid == b.chunk_grid,
            a.portal_grid == b.portal_grid,
            a.width == b.width,
            a.height == b.height,
            a.chunk_size == b.chunk_size,
            is_shape(source_cells(b.source_grid), b.width as int, b.height as int),
        ensures
            b.wf(),
            a.cells_agree(b),
            a.now_flags_agree(b),
            a.next_flags_agree(b),
    {
        let cs = a.chunk_size as int;
        assert forall|i: int, j: int|
            0 <= i < b.chunks_x() && 0 <= j < b.chunks_y() implies #[trigger] chunk_cells(b.chunk_grid)[i][j].wf(cs) by {
            assert(chunk_cells(a.chunk_grid)[i][j].wf(cs));
        }
        assert forall|x: int, y: int| b.in_bounds(x, y) implies b.partner_in_bounds(#[trigger] b.portal(x, y)) by {
            assert(a.partner_in_bounds(a.portal(x, y)));
        }
        assert forall|x: int, y: int| b.in_bounds(x, y) && b.on_ring(x, y) implies (#[trigger] b.cell(x, y)).particle_type
            == ParticleType::Border by {
            assert(a.cell(x, y) == b.cell(x, y));
        }
    }

    /// Whether a portal lies on cell `xy`.
    pub fn portal_exists_at(&self, xy: (usize, usize)) -> (b: bool)
        requires
            self.wf_core(),
            self.in_bounds(xy.0 as int, xy.1 as int),
        ensures
            b == self.portal(xy.0 as int, xy.1 as int).is_some(),
    {
        if portal_cell(&self.portal_grid, xy.0, xy.1).is_some() {
            return true;
        }
        false
    }

    /// Every cell holds the same portal in both worlds, except perhaps the
    /// cells `a` and `b`.
    pub open spec fn portals_agree_except(&self, other: &World, a: (int, int), b: (int, int)) -> bool {
        forall|x2: int, y2: int|
            self.in_bounds(x2, y2) && (x2, y2) != a && (x2, y2) != b ==> #[trigger] other.portal(x2, y2)
                == self.portal(x2, y2)
    }

    /// Places a portal facing `direction` on cell `xy`, linked with the portal
    /// at `partner_xy` if one is given, whose own partner becomes `xy`.
    /// Returns false, and changes nothing, when a portal is already on `xy`.
    /// The partner, when given, must be a cell holding a portal, unless a
    /// portal is on `xy` already.
    pub fn add_new_portal(
        &mut self,
        xy: (usize, usize),
        partner_xy: Option<(usize, usize)>,
        direction: Direction,
        color: PColor,
    ) -> (added: bool)
        requires
            old(self).wf(),
            old(self).in_bounds(xy.0 as int, xy.1 as int),
            old(self).portal(xy.0 as int, xy.1 as int).is_none() ==> (partner_xy matches Some(p) ==> old(self).in_bounds(
                p.0 as int,
                p.1 as int,
            ) && old(self).portal(p.0 as int, p.1 as int).is_some()),
        ensures
            final(self).wf(),
            final(self).spec_width() == old(self).spec_width(),
            final(self).spec_height() == old(self).spec_height(),
            final(self).spec_chunk_size() == old(self).spec_chunk_size(),
            old(self).cells_agree(final(self)),
            old(self).now_flags_agree(final(self)),
            old(self).next_flags_agree(final(self)),
            forall|x: int, y: int| #[trigger] final(self).source(x, y) == old(self).source(x, y),
            added == old(self).portal(xy.0 as int, xy.1 as int).is_none(),
            !added ==> forall|x: int, y: int| #[trigger] final(self).portal(x, y) == old(self).portal(x, y),
            added ==> final(self).portal(xy.0 as int, xy.1 as int) == Some(
                Portal { partner_xy, direction, color },
            ),
            added ==> (partner_xy matches Some(p) ==> final(self).portal(p.0 as int, p.1 as int) == Some(
                Portal { partner_xy: Some(xy), ..old(self).portal(p.0 as int, p.1 as int).unwrap() },
            )),
            added ==> old(self).portals_agree_except(
                final(self),
                (xy.0 as int, xy.1 as int),
                match partner_xy {
                    Some(p) => (p.0 as int, p.1 as int),
                    None => (xy.0 as int, xy.1 as int),
                },
            ),
    {
        if self.portal_exists_at(xy) {
            return false;
        }
        let ghost old_self = *self;
        if let Some(partner) = partner_xy {
            let existing = portal_cell(&self.portal_grid, partner.0, partner.1);
            let linked = match existing {
                Some(p) => Portal { partner_xy: Some(xy), direction: p.direction, color: p.color },
                None => {
                    proof {
                        assert(false);
                    }
                    Portal { partner_xy: Some(xy), direction, color }
                },
            };
            self.set_portal(partner, Some(linked));
        }
        let ghost mid = *self;
        self.set_portal(xy, Some(Portal { partner_xy, direction, color }));
        proof {
            if let Some(p) = partner_xy {
                assert(self.portal(p.0 as int, p.1 as int) == mid.portal(p.0 as int, p.1 as int));
            }
        }
        true
    }

    /// Sets the portal of cell `xy` to `portal`, whose partner, if any, must
    /// be a cell of the world.
    fn set_portal(&mut self, xy: (usize, usize), portal: Option<Portal>)
        requires
            old(self).wf(),
            old(self).in_bounds(xy.0 as int, xy.1 as int),
            old(self).partner_in_bounds(portal),
        ensures
            final(self).wf(),
            final(self).spec_width() == old(self).spec_width(),
            final(self).spec_height() == old(self).spec_height(),
            final(self).spec_chunk_size() == old(self).spec_chunk_size(),
            old(self).cells_agree(final(self)),
            old(self).now_flags_agree(final(self)),
            old(self).next_flags_agree(final(self)),
            forall|x: int, y: int| #[trigger] final(self).source(x, y) == old(self).source(x, y),
            forall|x: int, y: int|
                old(self).in_bounds(x, y) && (x, y) != (xy.0 as int, xy.1 as int) ==> #[trigger] final(self).portal(x, y)
                    == old(self).portal(x, y),
            final(self).portal(xy.0 as int, xy.1 as int) == portal,
    {
        let ghost old_self = *self;
        let slot = portal_cell_mut(&mut self.portal_grid, xy.0, xy.1);
        *slot = portal;
        proof {
            let cs = old_self.chunk_size as int;
            assert forall|i: int, j: int|
                0 <= i < self.chunks_x() && 0 <= j < self.chunks_y() implies #[trigger] chunk_cells(self.chunk_grid)[i][j].wf(cs) by {
                assert(chunk_cells(old_self.chunk_grid)[i][j].wf(cs));
            }
            assert forall|x: int, y: int| self.in_bounds(x, y) implies self.partner_in_bounds(#[trigger] self.portal(x, y)) by {
                if (x, y) != (xy.0 as int, xy.1 as int) {
                    assert(old_self.partner_in_bounds(old_self.portal(x, y)));
                }
            }
            assert forall|x: int, y: int| self.in_bounds(x, y) && self.on_ring(x, y) implies (#[trigger] self.cell(x, y)).particle_type
                == ParticleType::Border by {
                assert(old_self.cell(x, y) == self.cell(x, y));
            }
        }
    }

    /// The cell `(dx, dy)` away from `(x, y)`, if it lies in the world.
    pub open spec fn offset(&self, x: int, y: int, dx: int, dy: int) -> Option<(int, int)> {
        if self.in_bounds(x + dx, y + dy) {
            Some((x + dx, y + dy))
        } else {
            None
        }
    }

    /// The cell reached by stepping `(dx, dy)` from `(x, y)`, if it lies in the
    /// world. A portal with a partner on `(x, y)` leads a step in its own
    /// direction to the partner; a diagonal step from it is taken as a step
    /// along x followed by a step along y from there.
    pub open spec fn relative(&self, x: int, y: int, dx: int, dy: int) -> Option<(int, int)>
        decreases (if dx != 0 && dy != 0 { 1int } else { 0int }),
    {
        if !self.in_bounds(x, y) {
            None
        } else {
            match self.portal(x, y) {
                Some(p) => match p.partner_xy {
                    Some(q) => if dx != 0 && dy != 0 {
                        if self.in_bounds(x + dx, y) {
                            self.relative(x + dx, y, 0, dy)
                        } else {
                            None
                        }
                    } else if p.direction.spec_dxdy().0 == dx && p.direction.spec_dxdy().1 == dy {
                        Some((q.0 as int, q.1 as int))
                    } else {
                        self.offset(x, y, dx, dy)
                    },
                    None => self.offset(x, y, dx, dy),
                },
                None => self.offset(x, y, dx, dy),
            }
        }
    }

    /// A straight step (not diagonal) from a cell of the world goes through
    /// the cell's portal to its partner exactly when the portal has a partner
    /// and faces the way of the step; every other straight step, the step
    /// against the portal's direction among them, is the plain step to the
    /// neighbouring cell, when that lies in the world, and leads nowhere
    /// otherwise.
    pub proof fn law_straight_steps(&self, x: int, y: int, dx: int, dy: int)
        requires
            self.in_bounds(x, y),
            dx == 0 || dy == 0,
        ensures
            (self.portal(x, y) matches Some(p) && p.partner_xy is Some && p.direction.spec_dxdy().0 == dx
                && p.direction.spec_dxdy().1 == dy) ==> self.relative(x, y, dx, dy) == Some(
                (
                    self.portal(x, y).unwrap().partner_xy.unwrap().0 as int,
                    self.portal(x, y).unwrap().partner_xy.unwrap().1 as int,
                ),
            ),
            !(self.portal(x, y) matches Some(p) && p.partner_xy is Some && p.direction.spec_dxdy().0 == dx
                && p.direction.spec_dxdy().1 == dy) ==> self.relative(x, y, dx, dy) == (if 0 <= x + dx
                < self.spec_width() && 0 <= y + dy < self.spec_height() {
                Some((x + dx, y + dy))
            } else {
                None
            }),
    {
    }

    /// The cell `(dx, dy)` away from `xy`, through the portal on `xy` if it
    /// leads there. When that lies outside the world, the coordinates stepped
    /// to are returned as they wrap around in `usize` (see `wrapped`). A
    /// diagonal step from a portal is taken along x first, which must stay in
    /// the world (the portal grid is read there).
    pub fn relative_xy(&self, xy: (usize, usize), dxdy: (isize, isize)) -> (r: (usize, usize))
        requires
            self.wf_core(),
            self.in_bounds(xy.0 as int, xy.1 as int),
            xy.0 <= isize::MAX,
            xy.1 <= isize::MAX,
            isize::MIN <= xy.0 + dxdy.0 <= isize::MAX,
            isize::MIN <= xy.1 + dxdy.1 <= isize::MAX,
            (self.portal(xy.0 as int, xy.1 as int) matches Some(p) && p.partner_xy is Some && dxdy.0 != 0 && dxdy.1
                != 0) ==> self.in_bounds(xy.0 + dxdy.0, xy.1 as int),
        ensures
            match self.relative(xy.0 as int, xy.1 as int, dxdy.0 as int, dxdy.1 as int) {
                Some(q) => (r.0 as int, r.1 as int) == q,
                None => r == (wrapped(xy.0, dxdy.0), wrapped(xy.1, dxdy.1)),
            },
    {
        match self.find_relative(xy, dxdy) {
            Some(q) => q,
            None => ((xy.0 as isize + dxdy.0) as usize, (xy.1 as isize + dxdy.1) as usize),
        }
    }

    /// The cell `(dx, dy)` away from `xy`, through the portal on `xy` if it
    /// leads there, or `None` when that lies outside the world.
    fn find_relative(&self, xy: (usize, usize), dxdy: (isize, isize)) -> (r: Option<(usize, usize)>)
        requires
            self.wf_core(),
            self.in_bounds(xy.0 as int, xy.1 as int),
        ensures
            match r {
                Some(q) => self.relative(xy.0 as int, xy.1 as int, dxdy.0 as int, dxdy.1 as int) == Some(
                    (q.0 as int, q.1 as int),
                ) && self.in_bounds(q.0 as int, q.1 as int),
                None => self.relative(xy.0 as int, xy.1 as int, dxdy.0 as int, dxdy.1 as int) is None,
            },
        decreases (if dxdy.0 != 0 && dxdy.1 != 0 { 1int } else { 0int }),
    {
        let portal = portal_cell(&self.portal_grid, xy.0, xy.1);
        if let Some(portal) = portal {
            if let Some(xy2) = portal.partner_xy {
                proof {
                    assert(self.partner_in_bounds(self.portal(xy.0 as int, xy.1 as int)));
                }
                if dxdy.0 != 0 && dxdy.1 != 0 {
                    let nx: i128 = xy.0 as i128 + dxdy.0 as i128;
                    if 0 <= nx && nx < self.width as i128 {
                        return self.find_relative((nx as usize, xy.1), (0, dxdy.1));
                    } else {
                        return None;
                    }
                }
                let portal_dxdy = portal.direction.dxdy();
                if portal_dxdy.0 == dxdy.0 && portal_dxdy.1 == dxdy.1 {
                    return Some(xy2);
                }
            }
        }
        self.offset_xy(xy, dxdy)
    }

    /// The cell `(dx, dy)` away from `xy`, ignoring portals, if it lies in the
    /// world.
    fn offset_xy(&self, xy: (usize, usize), dxdy: (isize, isize)) -> (r: Option<(usize, usize)>)
        requires
            self.in_bounds(xy.0 as int, xy.1 as int),
        ensures
            match r {
                Some(q) => self.offset(xy.0 as int, xy.1 as int, dxdy.0 as int, dxdy.1 as int) == Some(
                    (q.0 as int, q.1 as int),
                ),
                None => self.offset(xy.0 as int, xy.1 as int, dxdy.0 as int, dxdy.1 as int) is None,
            },
    {
        let nx: i128 = xy.0 as i128 + dxdy.0 as i128;
        let ny: i128 = xy.1 as i128 + dxdy.1 as i128;
        if 0 <= nx && nx < self.width as i128 && 0 <= ny && ny < self.height as i128 {
            Some((nx as usize, ny as usize))
        } else {
            None
        }
    }

    /// Sets the "updated" flag of the particle in cell `xy`, leaving every
    /// chunk flag as it is.
    fn mark_updated(&mut self, xy: (usize, usize))
        requires
            old(self).wf(),
            old(self).in_bounds(xy.0 as int, xy.1 as int),
        ensures
            final(self).wf(),
            old(self).same_frame(final(self)),
            final(self).cell(xy.0 as int, xy.1 as int) == (Particle {
                updated: true,
                ..old(self).cell(xy.0 as int, xy.1 as int)
            }),
            old(self).cells_agree_except(final(self), xy.0 as int, xy.1 as int),
            old(self).now_flags_agree(final(self)),
            old(self).next_flags_agree(final(self)),
    {
        let mut p = *self.get_particle(xy);
        p.updated = true;
        proof {
            self.lemma_cell(xy.0 as int, xy.1 as int);
            assert(p.wf());
        }
        self.write_cell(xy, p);
    }

    /// Wakes the chunk of cell `xy` (and its neighbour when the cell is near
    /// an edge) for the next frame.
    fn wake_cell(&mut self, xy: (usize, usize))
        requires
            old(self).wf(),
            old(self).in_bounds(xy.0 as int, xy.1 as int),
        ensures
            final(self).wf(),
            old(self).same_frame(final(self)),
            old(self).cells_agree(final(self)),
            old(self).now_flags_agree(final(self)),
            old(self).next_flags_woken(final(self), xy.0 as int, xy.1 as int),
            old(self).same_generator(final(self)),
    {
        let ghost old_self = *self;
        let ghost cs = self.chunk_size as int;
        proof {
            lemma_split_coordinate(xy.0 as int, cs, self.width as int);
            lemma_split_coordinate(xy.1 as int, cs, self.height as int);
        }
        let (chunk_xy, local_xy) = self.global_xy_to_chunk_xy(xy);
        self.wake_chunk_from(chunk_xy, local_xy);
        proof {
            assert forall|x2: int, y2: int| old_self.in_bounds(x2, y2) implies #[trigger] self.cell(x2, y2)
                == old_self.cell(x2, y2) by {
                lemma_split_coordinate(x2, cs, self.width as int);
                lemma_split_coordinate(y2, cs, self.height as int);
                assert(self.chunk(x2 / cs, y2 / cs).particle_grid == old_self.chunk(x2 / cs, y2 / cs).particle_grid);
            }
        }
    }


    /// Whether chunk `(i, j)` comes before chunk `(cx, cy)` in the order in
    /// which `refresh` visits them (by column of chunks, then by row).
    pub open spec fn chunk_before(i: int, j: int, cx: int, cy: int) -> bool {
        i < cx || (i == cx && j < cy)
    }

    /// The chunks of `self` are those of `start` with the particles of the
    /// chunks before `(cx, cy)` refreshed.
    closed spec fn refreshed_up_to(&self, start: &World, cx: int, cy: int) -> bool {
        let cs = self.chunk_size as int;
        forall|i: int, j: int|
            0 <= i < self.chunks_x() && 0 <= j < self.chunks_y() ==> {
                let c = #[trigger] self.chunk(i, j);
                let c0 = start.chunk(i, j);
                &&& c.update_this_frame == c0.update_this_frame
                &&& c.update_next_frame == c0.update_next_frame
                &&& is_shape(c.cells(), cs, cs)
                &&& forall|a: int, b: int|
                    0 <= a < cs && 0 <= b < cs ==> #[trigger] c.cells()[a][b] == if World::chunk_before(i, j, cx, cy) {
                        c0.cells()[a][b].refreshed()
                    } else {
                        c0.cells()[a][b]
                    }
            }
    }

    /// Clears the per-frame flags of every particle (not updated, not moved);
    /// the drawing side calls this once per frame.
    pub fn refresh(&mut self)
        requires
            old(self).wf(),
        ensures
            final(self).wf(),
            old(self).same_frame(final(self)),
            old(self).now_flags_agree(final(self)),
            old(self).next_flags_agree(final(self)),
            forall|x: int, y: int|
                old(self).in_bounds(x, y) ==> #[trigger] final(self).cell(x, y) == old(self).cell(x, y).refreshed(),
    {
        let ghost start = *self;
        let ghost cs = self.chunk_size as int;
        let num_chunks_x = self.width / self.chunk_size;
        let num_chunks_y = self.height / self.chunk_size;
        proof {
            assert(self.refreshed_up_to(&start, 0, 0)) by {
                assert forall|i: int, j: int| 0 <= i < self.chunks_x() && 0 <= j < self.chunks_y() implies {
                    let c = #[trigger] self.chunk(i, j);
                    is_shape(c.cells(), cs, cs)
                } by {
                    assert(self.chunk(i, j).wf(cs));
                }
            }
        }
        let mut chunk_x: usize = 0;
        while chunk_x < num_chunks_x
            invariant
                0 <= chunk_x <= num_chunks_x,
                num_chunks_x == self.chunks_x(),
                num_chunks_y == self.chunks_y(),
                cs == self.chunk_size,
                start.same_content_but_chunks(self),
                start.wf(),
                is_shape(chunk_cells(self.chunk_grid), self.chunks_x(), self.chunks_y()),
                self.refreshed_up_to(&start, chunk_x as int, 0),
            decreases num_chunks_x - chunk_x,
        {
            let mut chunk_y: usize = 0;
            while chunk_y < num_chunks_y
                invariant
                    0 <= chunk_x < num_chunks_x,
                    0 <= chunk_y <= num_chunks_y,
                    num_chunks_x == self.chunks_x(),
                    num_chunks_y == self.chunks_y(),
                    cs == self.chunk_size,
                    start.same_content_but_chunks(self),
                    start.wf(),
                    is_shape(chunk_cells(self.chunk_grid), self.chunks_x(), self.chunks_y()),
                    self.refreshed_up_to(&start, chunk_x as int, chunk_y as int),
                decreases num_chunks_y - chunk_y,
            {
                let ghost before = *self;
                let c = chunk_cell_mut(&mut self.chunk_grid, chunk_x, chunk_y);
                proof {
                    assert(before.chunk(chunk_x as int, chunk_y as int) == *c);
                }
                c.refresh_all_particles();
                proof {
                    assert forall|i: int, j: int| 0 <= i < self.chunks_x() && 0 <= j < self.chunks_y() implies {
                        let c = #[trigger] self.chunk(i, j);
                        let c0 = start.chunk(i, j);
                        &&& c.update_this_frame == c0.update_this_frame
                        &&& c.update_next_frame == c0.update_next_frame
                        &&& is_shape(c.cells(), cs, cs)
                        &&& forall|a: int, b: int|
                            0 <= a < cs && 0 <= b < cs ==> #[trigger] c.cells()[a][b] == if World::chunk_before(
                                i,
                                j,
                                chunk_x as int,
                                chunk_y as int + 1,
                            ) {
                                c0.cells()[a][b].refreshed()
                            } else {
                                c0.cells()[a][b]
                            }
                    } by {
                        let b = before.chunk(i, j);
                        let c0 = start.chunk(i, j);
                        assert(is_shape(b.cells(), cs, cs));
                        if i == chunk_x && j == chunk_y {
                            assert(b.cells().len() == cs);
                            assert forall|a: int, b2: int| 0 <= a < cs && 0 <= b2 < cs implies #[trigger] self.chunk(i, j).cells()[a][b2]
                                == c0.cells()[a][b2].refreshed() by {
                                assert(b.cells()[a][b2] == c0.cells()[a][b2]);
                            }
                        } else {
                            assert(self.chunk(i, j) == b);
                        }
                    }
                }
                chunk_y = chunk_y + 1;
            }
            proof {
                assert forall|i: int, j: int| 0 <= i < self.chunks_x() && 0 <= j < self.chunks_y() implies
                    World::chunk_before(i, j, chunk_x as int, num_chunks_y as int) == World::chunk_before(
                    i,
                    j,
                    chunk_x as int + 1,
                    0,
                ) by {}
            }
            chunk_x = chunk_x + 1;
        }
        proof {
            self.lemma_refreshed_all(&start);
        }
    }

    /// All parts but the chunk grid agree.
    closed spec fn same_content_but_chunks(&self, other: &World) -> bool {
        self.same_layout(other) && self.draws == other.draws
    }

    /// Once every chunk is refreshed, every cell holds its refreshed particle
    /// and the world is still well formed.
    proof fn lemma_refreshed_all(&self, start: &World)
        requires
            start.wf(),
            start.same_layout(self),
            is_shape(chunk_cells(self.chunk_grid), self.chunks_x(), self.chunks_y()),
            self.refreshed_up_to(start, self.chunks_x(), 0),
        ensures
            self.wf(),
            start.now_flags_agree(self),
            start.next_flags_agree(self),
            forall|x: int, y: int| start.in_bounds(x, y) ==> #[trigger] self.cell(x, y) == start.cell(x, y).refreshed(),
    {
        let cs = self.chunk_size as int;
        assert forall|x: int, y: int| start.in_bounds(x, y) implies #[trigger] self.cell(x, y) == start.cell(x, y).refreshed() by {
            lemma_split_coordinate(x, cs, self.width as int);
            lemma_split_coordinate(y, cs, self.height as int);
            let c = self.chunk(x / cs, y / cs);
            assert(c.cells()[x % cs][y % cs] == start.chunk(x / cs, y / cs).cells()[x % cs][y % cs].refreshed());
        }
        assert forall|i: int, j: int|
            0 <= i < self.chunks_x() && 0 <= j < self.chunks_y() implies #[trigger] chunk_cells(self.chunk_grid)[i][j].wf(cs) by {
            let c = self.chunk(i, j);
            let c0 = start.chunk(i, j);
            assert(c0.wf(cs));
            assert forall|a: int, b: int| 0 <= a < cs && 0 <= b < cs implies (#[trigger] c.cells()[a][b]).wf() by {
                assert(c0.cells()[a][b].wf());
                assert(c.cells()[a][b] == c0.cells()[a][b].refreshed());
            }
        }
        assert forall|x: int, y: int| self.in_bounds(x, y) implies self.partner_in_bounds(#[trigger] self.portal(x, y)) by {
            assert(start.partner_in_bounds(start.portal(x, y)));
        }
        assert forall|x: int, y: int| self.in_bounds(x, y) && self.on_ring(x, y) implies (#[trigger] self.cell(x, y)).particle_type
            == ParticleType::Border by {
            assert(start.cell(x, y).particle_type == ParticleType::Border);
        }
        assert forall|i: int, j: int| 0 <= i < self.chunks_x() && 0 <= j < self.chunks_y() implies #[trigger] self.awake_now(i, j)
            == start.awake_now(i, j) && self.awake_next(i, j) == start.awake_next(i, j) by {
            let c = self.chunk(i, j);
        }
    }

    /// Moves the "next frame" flag of chunk `(cx, cy)` into its "this frame"
    /// flag and clears it.
    fn shift_chunk_flags(&mut self, cx: usize, cy: usize)
        requires
            old(self).wf(),
            cx < old(self).chunks_x(),
            cy < old(self).chunks_y(),
        ensures
            final(self).wf(),
            old(self).same_layout(final(self)),
            old(self).cells_agree(final(self)),
            final(self).awake_now(cx as int, cy as int) == old(self).awake_next(cx as int, cy as int),
            !final(self).awake_next(cx as int, cy as int),
            forall|i: int, j: int|
                0 <= i < old(self).chunks_x() && 0 <= j < old(self).chunks_y() && (i, j) != (cx as int, cy as int)
                    ==> #[trigger] final(self).awake_now(i, j) == old(self).awake_now(i, j) && final(self).awake_next(i, j)
                    == old(self).awake_next(i, j),
    {
        let ghost old_self = *self;
        let c = chunk_cell_mut(&mut self.chunk_grid, cx, cy);
        c.shift_update_flag();
        proof {
            let cs = self.chunk_size as int;
            assert forall|i: int, j: int|
                0 <= i < self.chunks_x() && 0 <= j < self.chunks_y() implies #[trigger] chunk_cells(
                    self.chunk_grid,
                )[i][j].wf(cs) by {
                assert(old_self.chunk(i, j).wf(cs));
                assert(chunk_cells(self.chunk_grid)[i][j].particle_grid == old_self.chunk(i, j).particle_grid);
            }
            assert(is_shape(chunk_cells(self.chunk_grid), self.chunks_x(), self.chunks_y()));
            assert forall|x: int, y: int| self.in_bounds(x, y) implies self.partner_in_bounds(#[trigger] self.portal(x, y)) by {
                assert(old_self.partner_in_bounds(old_self.portal(x, y)));
            }
            assert forall|x: int, y: int| self.in_bounds(x, y) implies #[trigger] self.cell(x, y) == old_self.cell(x, y) by {
                lemma_split_coordinate(x, cs, self.width as int);
                lemma_split_coordinate(y, cs, self.height as int);
            }
            assert forall|x: int, y: int| self.in_bounds(x, y) && self.on_ring(x, y) implies (
            #[trigger] self.cell(x, y)).particle_type == ParticleType::Border by {
                assert(self.cell(x, y) == old_self.cell(x, y));
            }
        }
    }

    /// Whether chunk `(cx, cy)` is updated in the current frame.
    pub fn chunk_awake(&self, cx: usize, cy: usize) -> (b: bool)
        requires
            self.wf(),
            cx < self.chunks_x(),
            cy < self.chunks_y(),
        ensures
            b == self.awake_now(cx as int, cy as int),
    {
        chunk_cell(&self.chunk_grid, cx, cy).update_this_frame
    }

    /// What a source may leave on cell `(x, y)` of `other`, starting from
    /// `self`: the particle that was there, or, where the cell has a source
    /// whose material `add_new_particle` writes over it, a new particle of
    /// that material.
    pub open spec fn source_outcome(&self, other: &World, x: int, y: int) -> bool {
        ||| other.cell(x, y) == self.cell(x, y)
        ||| (self.source(x, y) matches Some(s) && World::adds_over(
            s.particle_type,
            self.cell(x, y).particle_type,
            s.replaces,
        ) && other.cell(x, y).is_fresh(s.particle_type))
    }

    /// How many of the cells `(x, 1)` up to `(x, y - 1)` hold a source.
    pub open spec fn col_sources(&self, x: int, y: int) -> nat
        decreases y,
    {
        if y <= 1 {
            0
        } else {
            self.col_sources(x, y - 1) + if self.source(x, y - 1) is Some {
                1nat
            } else {
                0nat
            }
        }
    }

    /// How many sources the columns `1` up to `x - 1` hold, from row 1 on.
    pub open spec fn sources_before_col(&self, x: int) -> nat
        decreases x,
    {
        if x <= 1 {
            0
        } else {
            self.sources_before_col(x - 1) + self.col_sources(x - 1, self.spec_height())
        }
    }

    /// The sources' coins are drawn column by column from column 1, each
    /// column from row 1 down: how many sources come before cell `(x, y)`.
    pub open spec fn source_rank(&self, x: int, y: int) -> nat {
        self.sources_before_col(x) + self.col_sources(x, y)
    }

    /// The coin drawn, in the frame that leads from `self` to `after`, for
    /// the source on cell `(x, y)` (1 for emit).
    pub open spec fn source_coin(&self, after: &World, x: int, y: int) -> int {
        after.draws()[(self.draws().len() + self.source_rank(x, y)) as int]
    }

    /// What `add_new_particle` of the source's material, replacing as the
    /// source does, leaves on a cell that held `before`.
    pub open spec fn emitted(s: ParticleSource, before: Particle, after: Particle) -> bool {
        if World::adds_over(s.particle_type, before.particle_type, s.replaces) {
            after.is_fresh(s.particle_type)
        } else {
            after == before
        }
    }

    /// The source on cell `(x, y)`, if any, drew its coin, and emitted into
    /// its cell exactly when the coin said so.
    pub open spec fn source_emits(&self, after: &World, x: int, y: int) -> bool {
        self.source(x, y) matches Some(s) ==> self.draws().len() + self.source_rank(x, y) < after.draws().len() && (
        self.source_coin(after, x, y) == 1 ==> World::emitted(s, self.cell(x, y), after.cell(x, y))) && (
        self.source_coin(after, x, y) != 1 ==> after.cell(x, y) == self.cell(x, y))
    }

    /// Every source emits on the frames its coin says so, whatever its
    /// material: its cell then holds what `add_new_particle` of that material
    /// leaves, and otherwise keeps its particle. In particular a sink, a
    /// source of empty space, empties its cell (unless the cell is a border)
    /// whenever its coin says emit.
    pub proof fn law_sources_emit_on_their_coin(before: World, after: World, x: int, y: int)
        requires
            before.source_emits(&after, x, y),
            before.source(x, y) is Some,
        ensures
            ({
                let s = before.source(x, y).unwrap();
                let c = before.source_coin(&after, x, y);
                &&& c == 1 && before.cell(x, y).particle_type != ParticleType::Border && (s.particle_type
                    == ParticleType::Empty || before.cell(x, y).particle_type == ParticleType::Empty || s.replaces)
                    ==> after.cell(x, y).is_fresh(s.particle_type)
                &&& c == 1 && s.particle_type == ParticleType::Empty && before.cell(x, y).particle_type
                    != ParticleType::Border ==> after.cell(x, y).particle_type == ParticleType::Empty
                &&& c != 1 ==> after.cell(x, y) == before.cell(x, y)
            }),
    {
        let s = before.source(x, y).unwrap();
        if before.source_coin(&after, x, y) == 1 && s.particle_type == ParticleType::Empty
            && before.cell(x, y).particle_type != ParticleType::Border {
            Particle::lemma_fresh_facts(after.cell(x, y), ParticleType::Empty);
        }
    }

    /// A fair coin for a source, recorded among the draws (1 for heads).
    fn draw_coin(&mut self) -> (b: bool)
        ensures
            old(self).same_content(final(self)),
            final(self).draws() == old(self).draws().push(if b { 1int } else { 0int }),
    {
        let b = random_bool(&mut self.rng);
        self.draws = Ghost(self.draws@.push(if b { 1int } else { 0int }));
        b
    }

    /// The source `source` on cell `xy` emits when `emit` holds: then a new
    /// particle of its material is added on the cell as `add_new_particle`
    /// does, replacing what is there when the source replaces; otherwise
    /// nothing changes.
    pub fn emit_from_source(&mut self, xy: (usize, usize), source: ParticleSource, emit: bool)
        requires
            old(self).wf(),
            old(self).in_bounds(xy.0 as int, xy.1 as int),
        ensures
            final(self).wf(),
            old(self).same_frame(final(self)),
            old(self).now_flags_agree(final(self)),
            !emit ==> *final(self) == *old(self),
            emit ==> old(self).cells_agree_except(final(self), xy.0 as int, xy.1 as int),
            emit ==> old(self).next_flags_after_write(final(self), xy.0 as int, xy.1 as int),
            emit && World::adds_over(source.particle_type, old(self).cell(xy.0 as int, xy.1 as int).particle_type, source.replaces)
                ==> final(self).cell(xy.0 as int, xy.1 as int).is_fresh(source.particle_type),
            emit && !World::adds_over(source.particle_type, old(self).cell(xy.0 as int, xy.1 as int).particle_type, source.replaces)
                ==> final(self).cell(xy.0 as int, xy.1 as int) == old(self).cell(xy.0 as int, xy.1 as int),
            final(self).draws() == old(self).draws(),
    {
        if emit {
            self.add_new_particle(source.particle_type, xy, source.replaces);
        } else {
            proof {
                World::lemma_same_frame_refl(self);
            }
        }
    }

    /// Lets every source emit, each with an even chance: a new particle of
    /// its material is added on its cell, replacing what is there when the
    /// source replaces. Each cell ends with the particle it had or, where a
    /// source on it emitted and `add_new_particle` writes, a new particle of
    /// the source's material; cells without a source keep their particles.
    /// Which sources emit rests on chance: each source's coin is drawn, column
    /// by column and down each column, and recorded among the draws, and a
    /// source emits exactly when its coin says so (`source_emits`).
    fn update_all_sources(&mut self)
        requires
            old(self).wf(),
        ensures
            final(self).wf(),
            old(self).same_frame(final(self)),
            old(self).now_flags_agree(final(self)),
            forall|x: int, y: int|
                old(self).in_bounds(x, y) && old(self).source(x, y) is None ==> #[trigger] final(self).cell(x, y)
                    == old(self).cell(x, y),
            forall|x: int, y: int| old(self).in_bounds(x, y) ==> #[trigger] old(self).source_outcome(final(self), x, y),
            forall|x: int, y: int|
                1 <= x < old(self).spec_width() && 1 <= y < old(self).spec_height() ==> #[trigger] old(
                    self,
                ).source_emits(final(self), x, y),
    {
        let ghost start = *self;
        proof {
            World::lemma_same_frame_refl(self);
        }
        let mut x: usize = 1;
        while x < self.width
            invariant
                1 <= x,
                self.wf(),
                start.same_frame(self),
                start.now_flags_agree(self),
                forall|x2: int, y2: int|
                    start.in_bounds(x2, y2) && start.source(x2, y2) is None ==> #[trigger] self.cell(x2, y2)
                        == start.cell(x2, y2),
                forall|x2: int, y2: int| start.in_bounds(x2, y2) ==> #[trigger] start.source_outcome(self, x2, y2),
                forall|x2: int, y2: int|
                    start.in_bounds(x2, y2) && x2 >= x ==> #[trigger] self.cell(x2, y2) == start.cell(x2, y2),
                self.draws().len() == start.draws().len() + start.sources_before_col(x as int),
                draws_extend(start.draws(), self.draws()),
                forall|x2: int, y2: int|
                    1 <= x2 < x && 1 <= y2 < start.spec_height() ==> #[trigger] start.source_emits(self, x2, y2),
            decreases self.width - x,
        {
            let mut y: usize = 1;
            while y < self.height
                invariant
                    1 <= x < self.width,
                    1 <= y,
                    y <= self.height || y == 1,
                    self.height as int == start.spec_height(),
                    self.width as int == start.spec_width(),
                    self.wf(),
                    start.same_frame(self),
                    start.now_flags_agree(self),
                    forall|x2: int, y2: int|
                        start.in_bounds(x2, y2) && start.source(x2, y2) is None ==> #[trigger] self.cell(x2, y2)
                            == start.cell(x2, y2),
                    forall|x2: int, y2: int| start.in_bounds(x2, y2) ==> #[trigger] start.source_outcome(self, x2, y2),
                    forall|x2: int, y2: int|
                        start.in_bounds(x2, y2) && (x2 > x || (x2 == x && y2 >= y)) ==> #[trigger] self.cell(x2, y2)
                            == start.cell(x2, y2),
                    self.draws().len() == start.draws().len() + start.source_rank(x as int, y as int),
                    draws_extend(start.draws(), self.draws()),
                    forall|x2: int, y2: int|
                        1 <= x2 < start.spec_width() && 1 <= y2 < start.spec_height() && (x2 < x || (x2 == x && y2 < y))
                            ==> #[trigger] start.source_emits(self, x2, y2),
                decreases self.height - y,
            {
                let xy = (x, y);
                if let Some(source) = *source_cell(&self.source_grid, x, y) {
                    let ghost w0 = *self;
                    let emit = self.draw_coin();
                    let ghost w1 = *self;
                    proof {
                        World::lemma_same_content(&w0, &w1);
                        World::lemma_same_frame(&start, &w0);
                        assert(start.source(x as int, y as int) == Some(source));
                        assert(w1.cell(x as int, y as int) == start.cell(x as int, y as int));
                    }
                    self.emit_from_source(xy, source, emit);
                    proof {
                        World::lemma_same_frame_trans(&start, &w1, self);
                        assert forall|x2: int, y2: int|
                            start.in_bounds(x2, y2) && start.source(x2, y2) is None implies #[trigger] self.cell(x2, y2)
                            == start.cell(x2, y2) by {
                            assert(w1.cell(x2, y2) == w0.cell(x2, y2));
                        }
                        assert forall|x2: int, y2: int| start.in_bounds(x2, y2) implies #[trigger] start.source_outcome(
                            self,
                            x2,
                            y2,
                        ) by {
                            assert(w1.cell(x2, y2) == w0.cell(x2, y2));
                            assert(start.source_outcome(&w0, x2, y2));
                        }
                        assert forall|x2: int, y2: int|
                            start.in_bounds(x2, y2) && (x2 > x || (x2 == x && y2 >= y + 1)) implies #[trigger] self.cell(
                            x2,
                            y2,
                        ) == start.cell(x2, y2) by {
                            assert(w1.cell(x2, y2) == w0.cell(x2, y2));
                        }
                        World::lemma_same_frame(&w1, self);
                        assert(self.draws() == w1.draws());
                        assert(w1.draws() == w0.draws().push(if emit { 1int } else { 0int }));
                        assert(start.source_coin(self, x as int, y as int) == if emit { 1int } else { 0int });
                        assert(w1.cell(x as int, y as int) == start.cell(x as int, y as int));
                        assert(start.draws().len() + start.source_rank(x as int, y as int) < self.draws().len());
                        if emit {
                            assert(World::emitted(source, start.cell(x as int, y as int), self.cell(x as int, y as int)));
                        } else {
                            assert(self.cell(x as int, y as int) == start.cell(x as int, y as int));
                        }
                        assert(start.source_emits(self, x as int, y as int));
                        assert forall|x2: int, y2: int|
                            1 <= x2 < start.spec_width() && 1 <= y2 < start.spec_height() && (x2 < x || (x2 == x && y2
                                < y + 1)) implies #[trigger] start.source_emits(self, x2, y2) by {
                            if x2 != x || y2 != y {
                                assert(start.source_emits(&w0, x2, y2));
                                if start.source(x2, y2) is Some {
                                    let i2: int = (start.draws().len() + start.source_rank(x2, y2)) as int;
                                    assert(0 <= i2 < w0.draws().len());
                                    assert(w1.draws()[i2] == w0.draws()[i2]);
                                    assert(self.draws()[i2] == w1.draws()[i2]);
                                    assert(start.source_coin(self, x2, y2) == start.source_coin(&w0, x2, y2));
                                }
                                assert(w1.cell(x2, y2) == w0.cell(x2, y2));
                                assert(self.cell(x2, y2) == w1.cell(x2, y2));
                            }
                        }
                    }
                }
                proof {
                    World::lemma_same_frame(&start, self);
                    assert(start.col_sources(x as int, y + 1) == start.col_sources(x as int, y as int) + if start.source(
                        x as int,
                        y as int,
                    ) is Some {
                        1int
                    } else {
                        0int
                    });
                }
                y = y + 1;
            }
            proof {
                assert(start.sources_before_col(x + 1) == start.sources_before_col(x as int) + start.col_sources(
                    x as int,
                    start.spec_height(),
                ));
                World::lemma_same_frame(&start, self);
            }
            x = x + 1;
        }
    }

    /// Whether `v` occurs among the first `n` entries of `s`.
    pub open spec fn seen(s: Seq<usize>, n: int, v: int) -> bool {
        exists|k: int| 0 <= k < n && s[k] == v
    }

    /// While the chunks are visited column by column in the orders `xs` and
    /// `ys`, up to entry `b` of column `xs[a]`: each chunk due for the next
    /// frame at `start` is, once visited, updated in this frame, and until
    /// then still due.
    closed spec fn schedule_kept(&self, start: &World, xs: Seq<usize>, ys: Seq<usize>, a: int, b: int) -> bool {
        forall|i: int, j: int|
            0 <= i < self.chunks_x() && 0 <= j < self.chunks_y() && #[trigger] start.awake_next(i, j) ==> if World::seen(
                xs,
                a,
                i,
            ) || (i == xs[a] && World::seen(ys, b, j)) {
                self.awake_now(i, j)
            } else {
                self.awake_next(i, j)
            }
    }

    /// Later steps in the same frame keep the schedule.
    proof fn lemma_schedule_kept_step(
        w1: &World,
        w2: &World,
        start: &World,
        xs: Seq<usize>,
        ys: Seq<usize>,
        a: int,
        b: int,
    )
        requires
            w1.schedule_kept(start, xs, ys, a, b),
            w1.same_frame(w2),
        ensures
            w2.schedule_kept(start, xs, ys, a, b),
    {
        assert forall|i: int, j: int|
            0 <= i < w2.chunks_x() && 0 <= j < w2.chunks_y() && #[trigger] start.awake_next(i, j) implies if World::seen(
                xs,
                a,
                i,
            ) || (i == xs[a] && World::seen(ys, b, j)) {
                w2.awake_now(i, j)
            } else {
                w2.awake_next(i, j)
            } by {
            assert(w2.awake_now(i, j) == w1.awake_now(i, j));
            if w1.awake_next(i, j) {
                assert(w2.awake_next(i, j));
            }
        }
    }

    /// Every cell that holds concrete in `self` holds the same particle in
    /// `other`, or it marked updated; marked, when its chunk was due to be
    /// updated.
    pub open spec fn concrete_updated(&self, other: &World) -> bool {
        forall|x: int, y: int|
            self.in_bounds(x, y) && (#[trigger] self.cell(x, y)).particle_type == ParticleType::Concrete ==> (other.cell(
                x,
                y,
            ) == self.cell(x, y) || other.cell(x, y) == Particle::marked(self.cell(x, y))) && (self.awake_next(
                x / self.spec_chunk_size(),
                y / self.spec_chunk_size(),
            ) ==> other.cell(x, y) == Particle::marked(self.cell(x, y)))
    }

    /// The index of cell `(x, y)` inside its chunk, row by row.
    pub open spec fn local_index(&self, x: int, y: int) -> int {
        (y % self.spec_chunk_size()) * self.spec_chunk_size() + x % self.spec_chunk_size()
    }

    /// While the chunks are visited in the orders `xs` and `ys` (see
    /// `schedule_kept`): every cell that holds concrete at `start` holds the
    /// same particle, or it marked updated; and it is marked once its chunk,
    /// due at `start`, was visited.
    closed spec fn concrete_marked(&self, start: &World, xs: Seq<usize>, ys: Seq<usize>, a: int, b: int) -> bool {
        forall|x: int, y: int|
            start.in_bounds(x, y) && (#[trigger] start.cell(x, y)).particle_type == ParticleType::Concrete ==> {
                let i = x / start.spec_chunk_size();
                let j = y / start.spec_chunk_size();
                &&& (self.cell(x, y) == start.cell(x, y) || self.cell(x, y) == Particle::marked(start.cell(x, y)))
                &&& start.awake_next(i, j) && (World::seen(xs, a, i) || (i == xs[a] && World::seen(ys, b, j)))
                    ==> self.cell(x, y) == Particle::marked(start.cell(x, y))
            }
    }

    /// Inside chunk `(cx, cy)`, the cells whose index is among the first `k`
    /// of `idx` that hold concrete at `start` are marked.
    closed spec fn concrete_marked_in(&self, start: &World, cx: int, cy: int, idx: Seq<usize>, k: int) -> bool {
        forall|x: int, y: int|
            start.in_bounds(x, y) && (#[trigger] start.cell(x, y)).particle_type == ParticleType::Concrete && x
                / start.spec_chunk_size() == cx && y / start.spec_chunk_size() == cy && World::seen(
                idx,
                k,
                start.local_index(x, y),
            ) ==> self.cell(x, y) == Particle::marked(start.cell(x, y))
    }

    /// No cell of a chunk due to be updated that held a waiting flame gone
    /// out in `self` holds a flame gone out in `other`.
    pub open spec fn cold_flames_gone(&self, other: &World) -> bool {
        forall|x: int, y: int|
            self.in_bounds(x, y) && World::waiting_cold_flame(#[trigger] self.cell(x, y)) && self.awake_next(
                x / self.spec_chunk_size(),
                y / self.spec_chunk_size(),
            ) ==> !Particle::cold_flame(other.cell(x, y))
    }

    /// One step of a frame from `w` to `w2`. With `None`: only chunk flags
    /// or the random generator changed. With `Some(g)`: cell `g` was visited;
    /// empty space, a border or a particle already updated in this frame is
    /// skipped (nothing changes), and any other particle is marked updated
    /// and then updated as `Particle::update` states (`update_outcome`).
    pub open spec fn frame_step(w: World, w2: World, c: Option<(int, int)>) -> bool {
        match c {
            None => w.cells_agree(&w2) && w.same_layout(&w2),
            Some(g) => {
                let p = w.cell(g.0, g.1);
                &&& w.in_bounds(g.0, g.1)
                &&& if p.particle_type == ParticleType::Empty || p.particle_type == ParticleType::Border || p.updated {
                    w2 == w
                } else {
                    exists|wm: World, s1: Particle, api: WorldApi|
                        #![trigger update_outcome(Particle::marked(p), s1, api, wm, w2)]
                        api.pos() == g && wm.cell(g.0, g.1) == Particle::marked(p) && w.cells_agree_except(
                            &wm,
                            g.0,
                            g.1,
                        ) && w.same_frame(&wm) && update_outcome(Particle::marked(p), s1, api, wm, w2)
                }
            },
        }
    }

    /// `trace` runs from `start` to `end` by the steps `visits`.
    pub open spec fn frame_fold(start: World, end: World, trace: Seq<World>, visits: Seq<Option<(int, int)>>) -> bool {
        &&& trace.len() == visits.len() + 1
        &&& trace[0] == start
        &&& trace.last() == end
        &&& forall|i: int| 0 <= i < visits.len() ==> #[trigger] World::frame_step(trace[i], trace[i + 1], visits[i])
    }

    /// A further step extends a fold.
    proof fn lemma_fold_push(
        start: World,
        end: World,
        trace: Seq<World>,
        visits: Seq<Option<(int, int)>>,
        w2: World,
        v: Option<(int, int)>,
    )
        requires
            World::frame_fold(start, end, trace, visits),
            World::frame_step(end, w2, v),
        ensures
            World::frame_fold(start, w2, trace.push(w2), visits.push(v)),
    {
        let t2 = trace.push(w2);
        let v2 = visits.push(v);
        assert forall|i: int| 0 <= i < v2.len() implies #[trigger] World::frame_step(t2[i], t2[i + 1], v2[i]) by {
            if i < visits.len() {
                assert(t2[i] == trace[i] && t2[i + 1] == trace[i + 1] && v2[i] == visits[i]);
            }
        }
    }

    /// Every cell of a chunk due at `start` is visited.
    pub open spec fn visits_due(start: World, visits: Seq<Option<(int, int)>>) -> bool {
        forall|x: int, y: int|
            start.in_bounds(x, y) && start.awake_next(x / start.spec_chunk_size(), y / start.spec_chunk_size())
                ==> #[trigger] World::visited(visits, x, y)
    }

    /// Cell `(x, y)` is among the visits.
    pub open spec fn visited(visits: Seq<Option<(int, int)>>, x: int, y: int) -> bool {
        exists|k: int| 0 <= k < visits.len() && visits[k] == Some((x, y))
    }

    /// While the chunks are visited: every cell of a chunk due at `start` that
    /// was passed is visited.
    closed spec fn visits_cover(
        start: World,
        visits: Seq<Option<(int, int)>>,
        xs: Seq<usize>,
        ys: Seq<usize>,
        a: int,
        b: int,
    ) -> bool {
        forall|x: int, y: int|
            start.in_bounds(x, y) && start.awake_next(x / start.spec_chunk_size(), y / start.spec_chunk_size())
                && World::passed(xs, ys, a, b, x / start.spec_chunk_size(), y / start.spec_chunk_size())
                ==> #[trigger] World::visited(visits, x, y)
    }

    /// Inside chunk `(cx, cy)`, the cells whose index is among the first `k`
    /// of `idx` are visited.
    closed spec fn visits_cover_in(start: World, visits: Seq<Option<(int, int)>>, cx: int, cy: int, idx: Seq<usize>, k: int) -> bool {
        forall|x: int, y: int|
            start.in_bounds(x, y) && x / start.spec_chunk_size() == cx && y / start.spec_chunk_size() == cy
                && World::seen(idx, k, start.local_index(x, y)) ==> #[trigger] World::visited(visits, x, y)
    }

    /// Adding a step keeps the cells visited.
    proof fn lemma_cover_push(
        start: World,
        visits: Seq<Option<(int, int)>>,
        v: Option<(int, int)>,
        xs: Seq<usize>,
        ys: Seq<usize>,
        a: int,
        b: int,
        cx: int,
        cy: int,
        idx: Seq<usize>,
        k: int,
    )
        ensures
            World::visits_cover(start, visits, xs, ys, a, b) ==> World::visits_cover(start, visits.push(v), xs, ys, a, b),
            World::visits_cover_in(start, visits, cx, cy, idx, k) ==> World::visits_cover_in(
                start,
                visits.push(v),
                cx,
                cy,
                idx,
                k,
            ),
            forall|x: int, y: int| World::visited(visits, x, y) ==> #[trigger] World::visited(visits.push(v), x, y),
    {
        assert forall|x: int, y: int| World::visited(visits, x, y) implies #[trigger] World::visited(
            visits.push(v),
            x,
            y,
        ) by {
            let j = choose|j: int| 0 <= j < visits.len() && visits[j] == Some((x, y));
            assert(visits.push(v)[j] == Some((x, y)));
        }
    }

    /// Visiting cell `g`, the one at entry `k` of `idx` in chunk
    /// `(cx, cy)`, extends the chunk's visited cells by one.
    proof fn lemma_cover_visit(
        start: World,
        visits: Seq<Option<(int, int)>>,
        cx: int,
        cy: int,
        idx: Seq<usize>,
        k: int,
        g: (int, int),
    )
        requires
            World::visits_cover_in(start, visits, cx, cy, idx, k),
            0 <= k < idx.len(),
            start.chunk_size_facts(),
            start.in_bounds(g.0, g.1),
            g.0 / start.spec_chunk_size() == cx,
            g.1 / start.spec_chunk_size() == cy,
            start.local_index(g.0, g.1) == idx[k],
        ensures
            World::visits_cover_in(start, visits.push(Some(g)), cx, cy, idx, k + 1),
    {
        let cs = start.spec_chunk_size();
        let v2 = visits.push(Some(g));
        World::lemma_cover_push(start, visits, Some(g), Seq::empty(), Seq::empty(), 0, 0, cx, cy, idx, k);
        assert forall|x: int, y: int|
            start.in_bounds(x, y) && x / cs == cx && y / cs == cy && World::seen(idx, k + 1, start.local_index(x, y))
                implies #[trigger] World::visited(v2, x, y) by {
            if (x, y) == g {
                assert(v2[visits.len() as int] == Some((x, y)));
            } else if !World::seen(idx, k, start.local_index(x, y)) {
                let j = choose|j: int| 0 <= j < k + 1 && idx[j] == start.local_index(x, y);
                assert(j == k);
                lemma_local_index_unique(x, y, g.0, g.1, cs);
            }
        }
    }

    /// Leaving the chunk at entry `b` of column `xs[a]`: either it was not
    /// due, or all its cells were visited.
    proof fn lemma_cover_leave(
        start: World,
        visits: Seq<Option<(int, int)>>,
        xs: Seq<usize>,
        ys: Seq<usize>,
        a: int,
        b: int,
        idx: Seq<usize>,
        entered: bool,
    )
        requires
            World::visits_cover(start, visits, xs, ys, a, b),
            0 <= a < xs.len(),
            0 <= b < ys.len(),
            start.chunk_size_facts(),
            !entered ==> !start.awake_next(xs[a] as int, ys[b] as int),
            entered ==> World::visits_cover_in(start, visits, xs[a] as int, ys[b] as int, idx, idx.len() as int)
                && forall|v: int|
                0 <= v < start.spec_chunk_size() * start.spec_chunk_size() ==> World::seen(idx, idx.len() as int, v),
        ensures
            World::visits_cover(start, visits, xs, ys, a, b + 1),
    {
        let cs = start.spec_chunk_size();
        assert forall|x: int, y: int|
            start.in_bounds(x, y) && start.awake_next(x / cs, y / cs) && World::passed(xs, ys, a, b + 1, x / cs, y / cs)
                implies #[trigger] World::visited(visits, x, y) by {
            let i = x / cs;
            let j = y / cs;
            if !World::passed(xs, ys, a, b, i, j) {
                let kk = choose|kk: int| 0 <= kk < b + 1 && ys[kk] == j;
                assert(kk == b);
                lemma_local_index_in_square(x, y, cs, start.spec_width(), start.spec_height());
                assert(World::seen(idx, idx.len() as int, start.local_index(x, y)));
            }
        }
    }

    /// Once every row of column `xs[a]` is visited, moving on to the next
    /// column.
    proof fn lemma_cover_next_column(start: World, visits: Seq<Option<(int, int)>>, xs: Seq<usize>, ys: Seq<usize>, a: int)
        requires
            World::visits_cover(start, visits, xs, ys, a, ys.len() as int),
            0 <= a < xs.len(),
            start.chunk_size_facts(),
            forall|j: int| 0 <= j < start.chunks_y() ==> World::seen(ys, ys.len() as int, j),
        ensures
            World::visits_cover(start, visits, xs, ys, a + 1, 0),
    {
        let cs = start.spec_chunk_size();
        assert forall|x: int, y: int|
            start.in_bounds(x, y) && start.awake_next(x / cs, y / cs) && World::passed(xs, ys, a + 1, 0, x / cs, y / cs)
                implies #[trigger] World::visited(visits, x, y) by {
            let i = x / cs;
            let j = y / cs;
            lemma_split_coordinate(y, cs, start.spec_height());
            assert(World::seen(ys, ys.len() as int, j));
            if World::seen(xs, a + 1, i) && !World::seen(xs, a, i) {
                let kk = choose|kk: int| 0 <= kk < a + 1 && xs[kk] == i;
                assert(kk == a);
            }
        }
    }

    /// Once every column is visited, every cell of a due chunk is visited.
    proof fn lemma_cover_done(start: World, visits: Seq<Option<(int, int)>>, xs: Seq<usize>, ys: Seq<usize>)
        requires
            World::visits_cover(start, visits, xs, ys, xs.len() as int, 0),
            start.chunk_size_facts(),
            forall|i: int| 0 <= i < start.chunks_x() ==> World::seen(xs, xs.len() as int, i),
        ensures
            World::visits_due(start, visits),
    {
        let cs = start.spec_chunk_size();
        assert forall|x: int, y: int|
            start.in_bounds(x, y) && start.awake_next(x / cs, y / cs) implies #[trigger] World::visited(visits, x, y) by {
            lemma_split_coordinate(x, cs, start.spec_width());
            assert(World::seen(xs, xs.len() as int, x / cs));
        }
    }

    /// A flame gone out that had not been updated yet.
    pub open spec fn waiting_cold_flame(p: Particle) -> bool {
        Particle::cold_flame(p) && !p.updated
    }

    /// Whether the chunk `(i, j)` comes before entry `b` of column `xs[a]` in
    /// the visiting order.
    pub open spec fn passed(xs: Seq<usize>, ys: Seq<usize>, a: int, b: int, i: int, j: int) -> bool {
        World::seen(xs, a, i) || (i == xs[a] && World::seen(ys, b, j))
    }

    /// While the chunks are visited, for every cell that holds a waiting flame
    /// gone out at `start`: it is unchanged until its chunk comes (the chunk
    /// at entry `b` of column `xs[a]` excepted when `ex`), it is unchanged or
    /// holds no flame gone out, and it holds none once its chunk, due at
    /// `start`, was visited.
    closed spec fn cold_gone(&self, start: &World, xs: Seq<usize>, ys: Seq<usize>, a: int, b: int, ex: bool) -> bool {
        forall|x: int, y: int|
            start.in_bounds(x, y) && World::waiting_cold_flame(#[trigger] start.cell(x, y)) ==> {
                let i = x / start.spec_chunk_size();
                let j = y / start.spec_chunk_size();
                &&& !World::passed(xs, ys, a, b, i, j) && !(ex && i == xs[a] && j == ys[b]) ==> self.cell(x, y)
                    == start.cell(x, y)
                &&& (self.cell(x, y) == start.cell(x, y) || !Particle::cold_flame(self.cell(x, y)))
                &&& start.awake_next(i, j) && World::passed(xs, ys, a, b, i, j) ==> !Particle::cold_flame(
                    self.cell(x, y),
                )
            }
    }

    /// Inside chunk `(cx, cy)`, a cell holding a waiting flame gone out at
    /// `start` holds none once its index is among the first `k` of `idx`, and
    /// is unchanged before.
    closed spec fn cold_gone_in(&self, start: &World, cx: int, cy: int, idx: Seq<usize>, k: int) -> bool {
        forall|x: int, y: int|
            start.in_bounds(x, y) && World::waiting_cold_flame(#[trigger] start.cell(x, y)) && x
                / start.spec_chunk_size() == cx && y / start.spec_chunk_size() == cy ==> if World::seen(
                idx,
                k,
                start.local_index(x, y),
            ) {
                !Particle::cold_flame(self.cell(x, y))
            } else {
                self.cell(x, y) == start.cell(x, y)
            }
    }

    /// The cold-flame bookkeeping depends on the cells alone.
    proof fn lemma_cold_gone_same_cells(
        w1: &World,
        w2: &World,
        start: &World,
        xs: Seq<usize>,
        ys: Seq<usize>,
        a: int,
        b: int,
    )
        requires
            w1.cold_gone(start, xs, ys, a, b, false),
            start.same_layout(w1),
            w1.cells_agree(w2),
        ensures
            w2.cold_gone(start, xs, ys, a, b, false),
    {
        World::lemma_same_layout(start, w1);
        assert forall|x: int, y: int|
            start.in_bounds(x, y) && World::waiting_cold_flame(#[trigger] start.cell(x, y)) implies w2.cell(x, y)
            == w1.cell(x, y) by {
        }
    }

    /// Once every chunk is visited, no cell of a chunk that was due holds a
    /// flame gone out that was waiting there.
    proof fn lemma_cold_done(w: &World, start: &World, xs: Seq<usize>, ys: Seq<usize>)
        requires
            w.cold_gone(start, xs, ys, xs.len() as int, 0, false),
            start.chunk_size_facts(),
            forall|i: int| 0 <= i < start.chunks_x() ==> World::seen(xs, xs.len() as int, i),
        ensures
            start.cold_flames_gone(w),
    {
        let cs = start.spec_chunk_size();
        assert forall|x: int, y: int|
            start.in_bounds(x, y) && World::waiting_cold_flame(#[trigger] start.cell(x, y)) && start.awake_next(
                x / cs,
                y / cs,
            ) implies !Particle::cold_flame(w.cell(x, y)) by {
            lemma_split_coordinate(x, cs, start.spec_width());
            assert(World::seen(xs, xs.len() as int, x / cs));
        }
    }

    /// Entering the chunk at entry `b` of column `xs[a]`.
    proof fn lemma_cold_enter(w: &World, start: &World, xs: Seq<usize>, ys: Seq<usize>, a: int, b: int, idx: Seq<usize>)
        requires
            w.cold_gone(start, xs, ys, a, b, false),
            0 <= a < xs.len(),
            0 <= b < ys.len(),
            ys.no_duplicates(),
            xs.no_duplicates(),
        ensures
            w.cold_gone(start, xs, ys, a, b, true),
            w.cold_gone_in(start, xs[a] as int, ys[b] as int, idx, 0),
    {
        let cs = start.spec_chunk_size();
        assert forall|x: int, y: int|
            start.in_bounds(x, y) && World::waiting_cold_flame(#[trigger] start.cell(x, y)) && x / cs == xs[a] && y / cs
                == ys[b] implies (if World::seen(idx, 0, start.local_index(x, y)) {
            !Particle::cold_flame(w.cell(x, y))
        } else {
            w.cell(x, y) == start.cell(x, y)
        }) by {
            if World::seen(xs, a, x / cs) {
                let k = choose|k: int| 0 <= k < a && xs[k] == x / cs;
                assert(xs[k] == xs[a]);
            }
            if World::seen(ys, b, y / cs) {
                let k = choose|k: int| 0 <= k < b && ys[k] == y / cs;
                assert(ys[k] == ys[b]);
            }
        }
    }

    /// Leaving the chunk at entry `b` of column `xs[a]`: either it was
    /// skipped, not due and unchanged, or all its cells were visited.
    proof fn lemma_cold_leave(
        w: &World,
        start: &World,
        xs: Seq<usize>,
        ys: Seq<usize>,
        a: int,
        b: int,
        idx: Seq<usize>,
        visited: bool,
    )
        requires
            0 <= a < xs.len(),
            0 <= b < ys.len(),
            start.chunk_size_facts(),
            !visited ==> w.cold_gone(start, xs, ys, a, b, false) && !start.awake_next(xs[a] as int, ys[b] as int),
            visited ==> w.cold_gone(start, xs, ys, a, b, true) && w.cold_gone_in(
                start,
                xs[a] as int,
                ys[b] as int,
                idx,
                idx.len() as int,
            ) && forall|v: int|
                0 <= v < start.spec_chunk_size() * start.spec_chunk_size() ==> World::seen(idx, idx.len() as int, v),
        ensures
            w.cold_gone(start, xs, ys, a, b + 1, false),
    {
        let cs = start.spec_chunk_size();
        assert forall|x: int, y: int|
            start.in_bounds(x, y) && World::waiting_cold_flame(#[trigger] start.cell(x, y)) implies {
                let i = x / cs;
                let j = y / cs;
                &&& !World::passed(xs, ys, a, b + 1, i, j) && !(false && i == xs[a] && j == ys[b]) ==> w.cell(x, y)
                    == start.cell(x, y)
                &&& (w.cell(x, y) == start.cell(x, y) || !Particle::cold_flame(w.cell(x, y)))
                &&& start.awake_next(i, j) && World::passed(xs, ys, a, b + 1, i, j) ==> !Particle::cold_flame(
                    w.cell(x, y),
                )
            } by {
            let i = x / cs;
            let j = y / cs;
            assert(World::seen(ys, b + 1, j) == (World::seen(ys, b, j) || ys[b] == j)) by {
                if World::seen(ys, b + 1, j) && ys[b] != j {
                    let k = choose|k: int| 0 <= k < b + 1 && ys[k] == j;
                    assert(k < b);
                }
                if ys[b] == j {
                    assert(0 <= b < b + 1 && ys[b] == j);
                }
            }
            if visited && i == xs[a] && j == ys[b] {
                lemma_local_index_in_square(x, y, cs, start.spec_width(), start.spec_height());
                assert(World::seen(idx, idx.len() as int, start.local_index(x, y)));
            }
        }
    }

    /// Once every row of column `xs[a]` is visited, moving on to the next
    /// column.
    proof fn lemma_cold_next_column(w: &World, start: &World, xs: Seq<usize>, ys: Seq<usize>, a: int)
        requires
            w.cold_gone(start, xs, ys, a, ys.len() as int, false),
            0 <= a < xs.len(),
            start.chunk_size_facts(),
            forall|j: int| 0 <= j < start.chunks_y() ==> World::seen(ys, ys.len() as int, j),
        ensures
            w.cold_gone(start, xs, ys, a + 1, 0, false),
    {
        let cs = start.spec_chunk_size();
        assert forall|x: int, y: int|
            start.in_bounds(x, y) && World::waiting_cold_flame(#[trigger] start.cell(x, y)) implies {
                let i = x / cs;
                let j = y / cs;
                &&& !World::passed(xs, ys, a + 1, 0, i, j) && !(false && i == xs[a + 1] && j == ys[0]) ==> w.cell(
                    x,
                    y,
                ) == start.cell(x, y)
                &&& (w.cell(x, y) == start.cell(x, y) || !Particle::cold_flame(w.cell(x, y)))
                &&& start.awake_next(i, j) && World::passed(xs, ys, a + 1, 0, i, j) ==> !Particle::cold_flame(
                    w.cell(x, y),
                )
            } by {
            let i = x / cs;
            let j = y / cs;
            lemma_split_coordinate(y, cs, start.spec_height());
            assert(World::seen(ys, ys.len() as int, j));
            assert(!World::seen(ys, 0, j));
            assert(World::seen(xs, a + 1, i) == (World::seen(xs, a, i) || xs[a] == i)) by {
                if World::seen(xs, a + 1, i) && xs[a] != i {
                    let k = choose|k: int| 0 <= k < a + 1 && xs[k] == i;
                    assert(k < a);
                }
                if xs[a] == i {
                    assert(0 <= a < a + 1 && xs[a] == i);
                }
            }
        }
    }

    /// A visit of cell `g`, the one at entry `k` of `idx` in chunk
    /// `(xs[a], ys[b])`, that leaves no flame gone out at `g` when one was
    /// waiting there, and changes no cell holding one elsewhere, nor makes one.
    proof fn lemma_cold_visit(
        cur: &World,
        after: &World,
        start: &World,
        xs: Seq<usize>,
        ys: Seq<usize>,
        a: int,
        b: int,
        idx: Seq<usize>,
        k: int,
        g: (int, int),
    )
        requires
            cur.cold_gone(start, xs, ys, a, b, true),
            cur.cold_gone_in(start, xs[a] as int, ys[b] as int, idx, k),
            0 <= k < idx.len(),
            start.chunk_size_facts(),
            start.in_bounds(g.0, g.1),
            g.0 / start.spec_chunk_size() == xs[a],
            g.1 / start.spec_chunk_size() == ys[b],
            start.local_index(g.0, g.1) == idx[k],
            forall|x: int, y: int|
                start.in_bounds(x, y) && World::waiting_cold_flame(#[trigger] start.cell(x, y)) ==> if (x, y) == g {
                    !Particle::cold_flame(after.cell(x, y))
                } else {
                    (Particle::cold_flame(cur.cell(x, y)) || Particle::cold_flame(after.cell(x, y))) ==> after.cell(
                        x,
                        y,
                    ) == cur.cell(x, y)
                },
        ensures
            after.cold_gone(start, xs, ys, a, b, true),
            after.cold_gone_in(start, xs[a] as int, ys[b] as int, idx, k + 1),
    {
        let cs = start.spec_chunk_size();
        assert forall|x: int, y: int|
            start.in_bounds(x, y) && World::waiting_cold_flame(#[trigger] start.cell(x, y)) && x / cs == xs[a] && y / cs
                == ys[b] implies (if World::seen(idx, k + 1, start.local_index(x, y)) {
            !Particle::cold_flame(after.cell(x, y))
        } else {
            after.cell(x, y) == start.cell(x, y)
        }) by {
            if (x, y) != g {
                if World::seen(idx, k + 1, start.local_index(x, y)) && !World::seen(idx, k, start.local_index(x, y)) {
                    let j = choose|j: int| 0 <= j < k + 1 && idx[j] == start.local_index(x, y);
                    assert(j == k);
                    lemma_local_index_unique(x, y, g.0, g.1, cs);
                }
                if !World::seen(idx, k + 1, start.local_index(x, y)) {
                    assert(!World::seen(idx, k, start.local_index(x, y))) by {
                        if World::seen(idx, k, start.local_index(x, y)) {
                            let j = choose|j: int| 0 <= j < k && idx[j] == start.local_index(x, y);
                            assert(0 <= j < k + 1);
                        }
                    }
                }
            } else {
                assert(World::seen(idx, k + 1, start.local_index(x, y))) by {
                    assert(idx[k] == start.local_index(x, y));
                }
            }
        }
    }

    /// A chunk that was not due, or whose cells were all marked, moves the
    /// marking on to the next chunk of the column.
    proof fn lemma_concrete_next_chunk(
        w: &World,
        start: &World,
        xs: Seq<usize>,
        ys: Seq<usize>,
        a: int,
        b: int,
        idx: Seq<usize>,
    )
        requires
            w.concrete_marked(start, xs, ys, a, b),
            0 <= a < xs.len(),
            0 <= b < ys.len(),
            start.chunk_size_facts(),
            !start.awake_next(xs[a] as int, ys[b] as int) || (w.concrete_marked_in(
                start,
                xs[a] as int,
                ys[b] as int,
                idx,
                idx.len() as int,
            ) && forall|v: int|
                0 <= v < start.spec_chunk_size() * start.spec_chunk_size() ==> World::seen(idx, idx.len() as int, v)),
        ensures
            w.concrete_marked(start, xs, ys, a, b + 1),
    {
        let cs = start.spec_chunk_size();
        assert forall|x: int, y: int|
            start.in_bounds(x, y) && (#[trigger] start.cell(x, y)).particle_type == ParticleType::Concrete implies {
                let i = x / cs;
                let j = y / cs;
                &&& (w.cell(x, y) == start.cell(x, y) || w.cell(x, y) == Particle::marked(start.cell(x, y)))
                &&& start.awake_next(i, j) && (World::seen(xs, a, i) || (i == xs[a] && World::seen(ys, b + 1, j)))
                    ==> w.cell(x, y) == Particle::marked(start.cell(x, y))
            } by {
            let i = x / cs;
            let j = y / cs;
            if start.awake_next(i, j) && i == xs[a] && World::seen(ys, b + 1, j) && !World::seen(ys, b, j) {
                let k = choose|k: int| 0 <= k < b + 1 && ys[k] == j;
                assert(k == b);
                lemma_local_index_in_square(x, y, cs, start.spec_width(), start.spec_height());
                assert(World::seen(idx, idx.len() as int, start.local_index(x, y)));
            }
        }
    }

    /// A visit of cell `g`, the one at entry `k` of `idx` in chunk `(cx, cy)`,
    /// that marks the concrete there and leaves every other concrete cell as
    /// it was, moves the marking in the chunk on by one cell.
    proof fn lemma_concrete_visit(
        cur: &World,
        after: &World,
        start: &World,
        xs: Seq<usize>,
        ys: Seq<usize>,
        a: int,
        b: int,
        idx: Seq<usize>,
        k: int,
        g: (int, int),
    )
        requires
            cur.concrete_marked(start, xs, ys, a, b),
            cur.concrete_marked_in(start, xs[a] as int, ys[b] as int, idx, k),
            0 <= k < idx.len(),
            start.chunk_size_facts(),
            start.in_bounds(g.0, g.1),
            g.0 / start.spec_chunk_size() == xs[a],
            g.1 / start.spec_chunk_size() == ys[b],
            start.local_index(g.0, g.1) == idx[k],
            forall|x: int, y: int|
                start.in_bounds(x, y) && (#[trigger] start.cell(x, y)).particle_type == ParticleType::Concrete ==> after.cell(
                    x,
                    y,
                ) == (if (x, y) == g {
                    Particle::marked(start.cell(x, y))
                } else {
                    cur.cell(x, y)
                }),
        ensures
            after.concrete_marked(start, xs, ys, a, b),
            after.concrete_marked_in(start, xs[a] as int, ys[b] as int, idx, k + 1),
    {
        let cs = start.spec_chunk_size();
        assert forall|x: int, y: int|
            start.in_bounds(x, y) && (#[trigger] start.cell(x, y)).particle_type == ParticleType::Concrete && x / cs
                == xs[a] && y / cs == ys[b] && World::seen(idx, k + 1, start.local_index(x, y)) implies after.cell(x, y)
            == Particle::marked(start.cell(x, y)) by {
            if (x, y) != g {
                if !World::seen(idx, k, start.local_index(x, y)) {
                    let j = choose|j: int| 0 <= j < k + 1 && idx[j] == start.local_index(x, y);
                    assert(j == k);
                    lemma_local_index_unique(x, y, g.0, g.1, cs);
                }
            }
        }
    }

    /// The marking depends on the cells alone.
    proof fn lemma_concrete_marked_same_cells(
        w1: &World,
        w2: &World,
        start: &World,
        xs: Seq<usize>,
        ys: Seq<usize>,
        a: int,
        b: int,
    )
        requires
            w1.concrete_marked(start, xs, ys, a, b),
            start.same_layout(w1),
            w1.cells_agree(w2),
        ensures
            w2.concrete_marked(start, xs, ys, a, b),
    {
        World::lemma_same_layout(start, w1);
        assert forall|x: int, y: int|
            start.in_bounds(x, y) && (#[trigger] start.cell(x, y)).particle_type == ParticleType::Concrete implies w2.cell(
                x,
                y,
            ) == w1.cell(x, y) by {
        }
    }

    /// Once every chunk is visited, every concrete cell of a chunk that was
    /// due is marked.
    proof fn lemma_concrete_done(w: &World, start: &World, xs: Seq<usize>, ys: Seq<usize>)
        requires
            w.concrete_marked(start, xs, ys, xs.len() as int, 0),
            start.chunk_size_facts(),
            forall|i: int| 0 <= i < start.chunks_x() ==> World::seen(xs, xs.len() as int, i),
        ensures
            start.concrete_updated(w),
    {
        let cs = start.spec_chunk_size();
        assert forall|x: int, y: int|
            start.in_bounds(x, y) && (#[trigger] start.cell(x, y)).particle_type == ParticleType::Concrete implies (w.cell(
                x,
                y,
            ) == start.cell(x, y) || w.cell(x, y) == Particle::marked(start.cell(x, y))) && (start.awake_next(
                x / cs,
                y / cs,
            ) ==> w.cell(x, y) == Particle::marked(start.cell(x, y))) by {
            lemma_split_coordinate(x, cs, start.spec_width());
            assert(World::seen(xs, xs.len() as int, x / cs));
        }
    }

    /// Once every row of column `xs[a]` is visited, the marking moves on to
    /// the next column.
    proof fn lemma_concrete_next_column(w: &World, start: &World, xs: Seq<usize>, ys: Seq<usize>, a: int)
        requires
            w.concrete_marked(start, xs, ys, a, ys.len() as int),
            0 <= a < xs.len(),
            start.chunk_size_facts(),
            forall|j: int| 0 <= j < start.chunks_y() ==> World::seen(ys, ys.len() as int, j),
        ensures
            w.concrete_marked(start, xs, ys, a + 1, 0),
    {
        let cs = start.spec_chunk_size();
        assert forall|x: int, y: int|
            start.in_bounds(x, y) && (#[trigger] start.cell(x, y)).particle_type == ParticleType::Concrete implies {
                let i = x / cs;
                let j = y / cs;
                &&& (w.cell(x, y) == start.cell(x, y) || w.cell(x, y) == Particle::marked(start.cell(x, y)))
                &&& start.awake_next(i, j) && (World::seen(xs, a + 1, i) || (i == xs[a + 1] && World::seen(ys, 0, j)))
                    ==> w.cell(x, y) == Particle::marked(start.cell(x, y))
            } by {
            let i = x / cs;
            let j = y / cs;
            lemma_split_coordinate(y, cs, start.spec_height());
            assert(World::seen(ys, ys.len() as int, j));
            if World::seen(xs, a + 1, i) && !World::seen(xs, a, i) {
                let k = choose|k: int| 0 <= k < a + 1 && xs[k] == i;
                assert(k == a);
            }
        }
    }

    /// Every chunk due to be updated in the next frame in `self` is updated
    /// in the current frame of `other`.
    pub open spec fn woken_chunks_updated(&self, other: &World) -> bool {
        forall|i: int, j: int|
            0 <= i < self.chunks_x() && 0 <= j < self.chunks_y() && self.awake_next(i, j) ==> #[trigger] other.awake_now(
                i,
                j,
            )
    }

    /// A particle's update in a world without fungus keeps the water and
    /// steam together, and makes no fungus: the laws of `Particle::update`
    /// put together.
    proof fn lemma_update_keeps_water(before: &World, after: &World, p: Particle, x: int, y: int)
        requires
            before.wf(),
            before.same_frame(after),
            before.in_bounds(x, y),
            before.cell(x, y) == p,
            p.wf(),
            before.material_count(ParticleType::Fungus) == 0,
            p.is_inert() ==> after.cell(x, y) == p && before.cells_agree_except(after, x, y),
            p.particle_type == ParticleType::Flame && !p.burning ==> after.cell(x, y).is_fresh(ParticleType::Empty)
                && before.cells_agree_except(after, x, y),
            p.particle_type.auto_move() && !p.burning ==> forall|m: ParticleType|
                #[trigger] after.material_count(m) == before.material_count(m),
            p.particle_type == ParticleType::Steam ==> (forall|m: ParticleType|
                #[trigger] after.material_count(m) == before.material_count(m)) || (forall|m: ParticleType|
                #[trigger] after.material_count(m) == before.material_count(m) - (if m == ParticleType::Steam {
                1int
            } else {
                0int
            }) + (if m == ParticleType::Water {
                1int
            } else {
                0int
            })),
            p.particle_type == ParticleType::Acid ==> (forall|m: ParticleType|
                m != ParticleType::Empty ==> #[trigger] after.material_count(m) <= before.material_count(m))
                && after.wet_count() == before.wet_count(),
            p.burning && p.particle_type != ParticleType::Fungus ==> (forall|m: ParticleType|
                !World::made_by_fire(m) ==> #[trigger] after.material_count(m) <= before.material_count(m))
                && after.wet_count() == before.wet_count(),
        ensures
            after.wet_count() == before.wet_count(),
            after.material_count(ParticleType::Fungus) == 0,
    {
        before.lemma_count_positive(x, y);
        after.lemma_count_upto_nonneg(ParticleType::Fungus, after.spec_width() * after.spec_height());
        assert(p.particle_type != ParticleType::Fungus);
        lemma_flammable_has_fuel(p.particle_type);
        if p.is_inert() || (p.particle_type == ParticleType::Flame && !p.burning) {
            World::lemma_count_after_write(before, after, x, y);
            if !p.is_inert() {
                Particle::lemma_fresh_facts(after.cell(x, y), ParticleType::Empty);
            }
            assert(after.material_count(ParticleType::Water) == before.material_count(ParticleType::Water));
            assert(after.material_count(ParticleType::Steam) == before.material_count(ParticleType::Steam));
            assert(after.material_count(ParticleType::Fungus) == before.material_count(ParticleType::Fungus));
        } else if p.particle_type == ParticleType::Steam {
            assert(after.material_count(ParticleType::Water) == after.material_count(ParticleType::Water));
            assert(after.material_count(ParticleType::Steam) == after.material_count(ParticleType::Steam));
            assert(after.material_count(ParticleType::Fungus) == after.material_count(ParticleType::Fungus));
        } else {
            assert(after.material_count(ParticleType::Water) == after.material_count(ParticleType::Water));
            assert(after.material_count(ParticleType::Steam) == after.material_count(ParticleType::Steam));
            assert(after.material_count(ParticleType::Fungus) == after.material_count(ParticleType::Fungus));
        }
    }

    /// One update of the particles: the chunks are visited in a random order
    /// (shuffled columns of chunks, and within each the shuffled rows), and
    /// each chunk's "next frame" flag becomes its "this frame" flag. In a chunk
    /// to be updated, its cells are visited in a random order (shuffled once
    /// for the frame), and each particle other than empty space and borders
    /// that was not updated yet in this frame is marked updated and updated.
    /// Every chunk that was due for this update is updated: among others, its
    /// waiting flames gone out are cleared, and, in a world of materials that
    /// never change, its concrete is marked updated.
    #[verifier::rlimit(100)]
    #[verifier::spinoff_prover]
    fn update_all_particles(&mut self)
        requires
            old(self).wf(),
        ensures
            final(self).wf(),
            old(self).same_layout(final(self)),
            old(self).woken_chunks_updated(final(self)),
            old(self).holds_only_unchanging() ==> old(self).counts_equal(final(self)),
            old(self).material_count(ParticleType::Fungus) == 0 ==> final(self).wet_count() == old(self).wet_count()
                && final(self).material_count(ParticleType::Fungus) == 0,
            old(self).holds_only_unchanging() ==> old(self).concrete_updated(final(self)),
            old(self).cold_flames_gone(final(self)),
            old(self).borders_kept(final(self)),
            exists|trace: Seq<World>, visits: Seq<Option<(int, int)>>|
                #[trigger] World::frame_fold(*old(self), *final(self), trace, visits) && World::visits_due(
                    *old(self),
                    visits,
                ),
    {
        let ghost start = *self;
        let ghost cs = self.chunk_size as int;
        let num_chunks_x = self.width / self.chunk_size;
        let num_chunks_y = self.height / self.chunk_size;
        let mut idx_range = range_vec(self.chunk_size * self.chunk_size);
        let mut chunk_x_range = range_vec(num_chunks_x);
        let mut chunk_y_range = range_vec(num_chunks_y);
        let ghost w0 = *self;
        let ghost mut trace: Seq<World> = seq![*self];
        let ghost mut visits: Seq<Option<(int, int)>> = Seq::empty();
        shuffle_indices(&mut self.rng, &mut idx_range);
        shuffle_indices(&mut self.rng, &mut chunk_x_range);
        shuffle_indices(&mut self.rng, &mut chunk_y_range);
        let ghost xs = chunk_x_range@;
        let ghost ys = chunk_y_range@;
        proof {
            World::lemma_same_content(&w0, self);
            World::lemma_count_agree(&w0, self);
            lemma_shuffled_range_bounded(idx_range@, (self.chunk_size * self.chunk_size) as nat);
            lemma_shuffled_range_permutes(idx_range@, (self.chunk_size * self.chunk_size) as nat);
            lemma_shuffled_range_permutes(xs, num_chunks_x as nat);
            lemma_shuffled_range_permutes(ys, num_chunks_y as nat);
            assert(self.schedule_kept(&start, xs, ys, 0, 0));
            World::lemma_same_content(&w0, self);
            assert(self.concrete_marked(&start, xs, ys, 0, 0));
            World::lemma_fold_push(start, w0, trace, visits, *self, None);
            trace = trace.push(*self);
            visits = visits.push(None);
            assert(self.cold_gone(&start, xs, ys, 0, 0, false));
            assert(start.borders_kept(self));
        }
        let nx = chunk_x_range.len();
        let ny = chunk_y_range.len();
        let ni = idx_range.len();
        for a in 0..nx
            invariant
                nx == chunk_x_range@.len(),
                ny == chunk_y_range@.len(),
                ni == idx_range@.len(),
                xs == chunk_x_range@,
                ys == chunk_y_range@,
                xs.no_duplicates(),
                ys.no_duplicates(),
                nx == num_chunks_x,
                ny == num_chunks_y,
                forall|j: int| 0 <= j < num_chunks_y ==> World::seen(ys, ny as int, j),
                forall|k: int| 0 <= k < nx ==> #[trigger] chunk_x_range@[k] < num_chunks_x,
                forall|k: int| 0 <= k < ny ==> #[trigger] chunk_y_range@[k] < num_chunks_y,
                forall|k: int| 0 <= k < ni ==> #[trigger] idx_range@[k] < cs * cs,
                num_chunks_x == self.chunks_x(),
                num_chunks_y == self.chunks_y(),
                cs == self.chunk_size,
                self.wf(),
                start.same_layout(self),
                self.schedule_kept(&start, xs, ys, a as int, 0),
                start.holds_only_unchanging() ==> start.counts_equal(self),
                start.material_count(ParticleType::Fungus) == 0 ==> self.wet_count() == start.wet_count()
                    && self.material_count(ParticleType::Fungus) == 0,
                start.chunk_size_facts(),
                forall|v: int| 0 <= v < cs * cs ==> World::seen(idx_range@, ni as int, v),
                start.holds_only_unchanging() ==> self.concrete_marked(&start, xs, ys, a as int, 0),
                idx_range@.no_duplicates(),
                self.cold_gone(&start, xs, ys, a as int, 0, false),
                World::frame_fold(start, *self, trace, visits),
                World::visits_cover(start, visits, xs, ys, a as int, 0),
                start.borders_kept(self),
        {
            let chunk_x = chunk_x_range[a];
            for b in 0..ny
                invariant
                    nx == chunk_x_range@.len(),
                    ny == chunk_y_range@.len(),
                    ni == idx_range@.len(),
                    xs == chunk_x_range@,
                    ys == chunk_y_range@,
                    xs.no_duplicates(),
                    ys.no_duplicates(),
                    0 <= a < nx,
                    chunk_x == xs[a as int],
                    chunk_x < num_chunks_x,
                    forall|k: int| 0 <= k < ny ==> #[trigger] chunk_y_range@[k] < num_chunks_y,
                    forall|k: int| 0 <= k < ni ==> #[trigger] idx_range@[k] < cs * cs,
                    num_chunks_x == self.chunks_x(),
                    num_chunks_y == self.chunks_y(),
                    cs == self.chunk_size,
                    self.wf(),
                    start.same_layout(self),
                    self.schedule_kept(&start, xs, ys, a as int, b as int),
                    start.holds_only_unchanging() ==> start.counts_equal(self),
                    start.material_count(ParticleType::Fungus) == 0 ==> self.wet_count() == start.wet_count()
                        && self.material_count(ParticleType::Fungus) == 0,
                    start.chunk_size_facts(),
                    forall|v: int| 0 <= v < cs * cs ==> World::seen(idx_range@, ni as int, v),
                    start.holds_only_unchanging() ==> self.concrete_marked(&start, xs, ys, a as int, b as int),
                    idx_range@.no_duplicates(),
                    self.cold_gone(&start, xs, ys, a as int, b as int, false),
                    World::frame_fold(start, *self, trace, visits),
                    World::visits_cover(start, visits, xs, ys, a as int, b as int),
                    start.borders_kept(self),
            {
                let chunk_y = chunk_y_range[b];
                let ghost ws = *self;
                self.shift_chunk_flags(chunk_x, chunk_y);
                proof {
                    World::lemma_same_layout_trans(&start, &ws, self);
                    World::lemma_schedule_after_shift(&ws, self, &start, xs, ys, a as int, b as int);
                    World::lemma_count_agree(&ws, self);
                    if start.holds_only_unchanging() {
                        World::lemma_concrete_marked_same_cells(&ws, self, &start, xs, ys, a as int, b as int);
                    }
                    World::lemma_cold_gone_same_cells(&ws, self, &start, xs, ys, a as int, b as int);
                    assert(ws.borders_kept(self));
                    World::lemma_borders_kept_across(&start, &ws, self);
                    World::lemma_fold_push(start, ws, trace, visits, *self, None);
                    World::lemma_cover_push(start, visits, None, xs, ys, a as int, b as int, 0, 0, idx_range@, 0);
                    trace = trace.push(*self);
                    visits = visits.push(None);
                }
                let ghost wa = *self;
                let awake = self.chunk_awake(chunk_x, chunk_y);
                proof {
                    if !awake {
                        assert(World::seen(ys, b + 1, ys[b as int] as int)) by {
                            assert(0 <= b < b + 1 && ys[b as int] == ys[b as int]);
                        }
                        assert(!start.awake_next(chunk_x as int, chunk_y as int));
                    }
                }
                if awake {
                    proof {
                        World::lemma_cold_enter(self, &start, xs, ys, a as int, b as int, idx_range@);
                    }
                    for k in 0..ni
                        invariant
                            ni == idx_range@.len(),
                            0 <= a < nx,
                            nx == xs.len(),
                            chunk_x < num_chunks_x,
                            chunk_y < num_chunks_y,
                            forall|k: int| 0 <= k < ni ==> #[trigger] idx_range@[k] < cs * cs,
                            num_chunks_x == self.chunks_x(),
                            num_chunks_y == self.chunks_y(),
                            cs == self.chunk_size,
                            self.wf(),
                            start.same_layout(self),
                            self.schedule_kept(&start, xs, ys, a as int, b + 1),
                            start.holds_only_unchanging() ==> start.counts_equal(self),
                            start.material_count(ParticleType::Fungus) == 0 ==> self.wet_count() == start.wet_count()
                                && self.material_count(ParticleType::Fungus) == 0,
                            start.chunk_size_facts(),
                            xs == chunk_x_range@,
                            ys == chunk_y_range@,
                            chunk_x == xs[a as int],
                            0 <= b < ys.len(),
                            chunk_y == ys[b as int],
                            start.holds_only_unchanging() ==> self.concrete_marked(&start, xs, ys, a as int, b as int)
                                && self.concrete_marked_in(&start, chunk_x as int, chunk_y as int, idx_range@, k as int),
                            idx_range@.no_duplicates(),
                            xs.no_duplicates(),
                            ys.no_duplicates(),
                            self.cold_gone(&start, xs, ys, a as int, b as int, true),
                            self.cold_gone_in(&start, chunk_x as int, chunk_y as int, idx_range@, k as int),
                            World::frame_fold(start, *self, trace, visits),
                            World::visits_cover(start, visits, xs, ys, a as int, b as int),
                            World::visits_cover_in(start, visits, chunk_x as int, chunk_y as int, idx_range@, k as int),
                            start.borders_kept(self),
                    {
                        let idx = idx_range[k];
                        proof {
                            lemma_index_in_square(idx as int, cs);
                        }
                        let local_xy = self.local_index_to_xy(idx);
                        let global_xy = self.chunk_xy_to_global_xy((chunk_x, chunk_y), local_xy);
                        let particle = *self.get_particle(global_xy);
                        let ghost wc = *self;
                        let ghost g = (global_xy.0 as int, global_xy.1 as int);
                        proof {
                            World::lemma_same_layout(&start, self);
                            lemma_local_index_of(idx as int, cs, g.0, g.1);
                            assert(start.local_index(g.0, g.1) == idx_range@[k as int]);
                            if World::seen(idx_range@, k as int, idx_range@[k as int] as int) {
                                let j = choose|j: int| 0 <= j < k && idx_range@[j] == idx_range@[k as int];
                                assert(idx_range@[j] == idx_range@[k as int]);
                            }
                            if World::waiting_cold_flame(start.cell(g.0, g.1)) {
                                assert(wc.cell(g.0, g.1) == start.cell(g.0, g.1));
                            }
                        }
                        if !(particle.particle_type == ParticleType::Empty || particle.particle_type
                            == ParticleType::Border || particle.updated) {
                            let ghost wm = *self;
                            self.mark_updated(global_xy);
                            let mut particle_clone = *self.get_particle(global_xy);
                            let ghost wu = *self;
                            proof {
                                assert(!self.on_ring(global_xy.0 as int, global_xy.1 as int));
                                World::lemma_count_after_write(&wm, &wu, global_xy.0 as int, global_xy.1 as int);
                                if start.holds_only_unchanging() {
                                    wm.lemma_count_positive(global_xy.0 as int, global_xy.1 as int);
                                    lemma_flammable_has_fuel(particle_clone.particle_type);
                                    assert(World::unchanging(particle_clone.particle_type));
                                    assert(particle_clone.wf());
                                }
                            }
                            let ghost pc = particle_clone;
                            let api = WorldApi::new(global_xy);
                            let ghost gapi = api;
                            let ghost s_before = particle_clone;
                            particle_clone.update(api, self);
                            proof {
                                assert(update_outcome(Particle::marked(particle), particle_clone, gapi, wu, *self));
                                assert(World::frame_step(wc, *self, Some(g)));
                                World::lemma_fold_push(start, wc, trace, visits, *self, Some(g));
                                World::lemma_cover_push(
                                    start,
                                    visits,
                                    Some(g),
                                    xs,
                                    ys,
                                    a as int,
                                    b as int,
                                    chunk_x as int,
                                    chunk_y as int,
                                    idx_range@,
                                    k as int,
                                );
                                World::lemma_cover_visit(start, visits, chunk_x as int, chunk_y as int, idx_range@, k as int, g);
                                trace = trace.push(*self);
                                visits = visits.push(Some(g));
                            }
                            proof {
                                World::lemma_same_frame_refl(&wm);
                                assert(wm.borders_kept(&wm));
                                World::lemma_borders_write(&wm, &wm, &wu, g);
                                World::lemma_borders_kept_trans(&wm, &wu, self);
                                World::lemma_borders_kept_across(&start, &wm, self);
                                World::lemma_same_frame_trans(&wm, &wu, self);
                                World::lemma_same_frame(&wm, self);
                                World::lemma_same_layout_trans(&start, &wm, self);
                                World::lemma_schedule_kept_step(&wm, self, &start, xs, ys, a as int, b + 1);
                                if start.holds_only_unchanging() && pc.is_inert() {
                                    World::lemma_count_after_write(&wu, self, global_xy.0 as int, global_xy.1 as int);
                                }
                                if start.material_count(ParticleType::Fungus) == 0 {
                                    World::lemma_update_keeps_water(&wu, self, pc, global_xy.0 as int, global_xy.1 as int);
                                }
                                World::lemma_same_layout(&start, &wu);
                                World::lemma_same_layout(&start, &wm);
                                assert forall|x: int, y: int|
                                    start.in_bounds(x, y) && World::waiting_cold_flame(#[trigger] start.cell(x, y)) implies (if (
                                    x,
                                    y,
                                ) == g {
                                    !Particle::cold_flame(self.cell(x, y))
                                } else {
                                    (Particle::cold_flame(wc.cell(x, y)) || Particle::cold_flame(self.cell(x, y)))
                                        ==> self.cell(x, y) == wc.cell(x, y)
                                }) by {
                                    if (x, y) != g {
                                        assert(wu.cell(x, y) == wm.cell(x, y));
                                    } else {
                                        Particle::lemma_fresh_facts(self.cell(x, y), ParticleType::Empty);
                                    }
                                }
                                World::lemma_cold_visit(
                                    &wc,
                                    self,
                                    &start,
                                    xs,
                                    ys,
                                    a as int,
                                    b as int,
                                    idx_range@,
                                    k as int,
                                    g,
                                );
                                if start.holds_only_unchanging() {
                                    World::lemma_same_layout(&start, &wu);
                                    World::lemma_same_layout(&start, &wm);
                                    assert forall|x: int, y: int|
                                        start.in_bounds(x, y) && (#[trigger] start.cell(x, y)).particle_type
                                            == ParticleType::Concrete implies self.cell(x, y) == (if (x, y) == g {
                                        Particle::marked(start.cell(x, y))
                                    } else {
                                        wc.cell(x, y)
                                    }) by {
                                        if (x, y) != g {
                                            assert(wu.cell(x, y) == wm.cell(x, y));
                                        }
                                    }
                                    World::lemma_concrete_visit(
                                        &wc,
                                        self,
                                        &start,
                                        xs,
                                        ys,
                                        a as int,
                                        b as int,
                                        idx_range@,
                                        k as int,
                                        g,
                                    );
                                }
                            }
                        } else {
                            proof {
                                assert(World::frame_step(wc, *self, Some(g)));
                                World::lemma_fold_push(start, wc, trace, visits, *self, Some(g));
                                World::lemma_cover_push(
                                    start,
                                    visits,
                                    Some(g),
                                    xs,
                                    ys,
                                    a as int,
                                    b as int,
                                    chunk_x as int,
                                    chunk_y as int,
                                    idx_range@,
                                    k as int,
                                );
                                World::lemma_cover_visit(start, visits, chunk_x as int, chunk_y as int, idx_range@, k as int, g);
                                trace = trace.push(*self);
                                visits = visits.push(Some(g));
                                World::lemma_cold_visit(
                                    &wc,
                                    self,
                                    &start,
                                    xs,
                                    ys,
                                    a as int,
                                    b as int,
                                    idx_range@,
                                    k as int,
                                    g,
                                );
                                if start.holds_only_unchanging() {
                                    World::lemma_concrete_visit(
                                        &wc,
                                        self,
                                        &start,
                                        xs,
                                        ys,
                                        a as int,
                                        b as int,
                                        idx_range@,
                                        k as int,
                                        g,
                                    );
                                }
                            }
                        }
                    }
                }
                proof {
                    if start.holds_only_unchanging() {
                        World::lemma_concrete_next_chunk(self, &start, xs, ys, a as int, b as int, idx_range@);
                    }
                    World::lemma_cold_leave(self, &start, xs, ys, a as int, b as int, idx_range@, awake);
                    World::lemma_cover_leave(start, visits, xs, ys, a as int, b as int, idx_range@, awake);
                }
            }
            proof {
                World::lemma_schedule_next_column(self, &start, xs, ys, a as int);
                if start.holds_only_unchanging() {
                    World::lemma_concrete_next_column(self, &start, xs, ys, a as int);
                }
                World::lemma_cold_next_column(self, &start, xs, ys, a as int);
                World::lemma_cover_next_column(start, visits, xs, ys, a as int);
            }
        }
        proof {
            World::lemma_schedule_done(self, &start, xs, ys);
            if start.holds_only_unchanging() {
                World::lemma_concrete_done(self, &start, xs, ys);
            }
            World::lemma_cold_done(self, &start, xs, ys);
            World::lemma_cover_done(start, visits, xs, ys);
        }
    }

    /// Shifting the flags of the chunk at entry `b` of column `xs[a]` moves
    /// the schedule one chunk on.
    proof fn lemma_schedule_after_shift(
        ws: &World,
        w: &World,
        start: &World,
        xs: Seq<usize>,
        ys: Seq<usize>,
        a: int,
        b: int,
    )
        requires
            ws.schedule_kept(start, xs, ys, a, b),
            start.same_layout(ws),
            ws.same_layout(w),
            xs.no_duplicates(),
            ys.no_duplicates(),
            0 <= a < xs.len(),
            0 <= b < ys.len(),
            xs[a] < ws.chunks_x(),
            ys[b] < ws.chunks_y(),
            w.awake_now(xs[a] as int, ys[b] as int) == ws.awake_next(xs[a] as int, ys[b] as int),
            forall|i: int, j: int|
                0 <= i < ws.chunks_x() && 0 <= j < ws.chunks_y() && (i, j) != (xs[a] as int, ys[b] as int)
                    ==> #[trigger] w.awake_now(i, j) == ws.awake_now(i, j) && w.awake_next(i, j) == ws.awake_next(i, j),
        ensures
            w.schedule_kept(start, xs, ys, a, b + 1),
    {
        let ci = xs[a] as int;
        let cj = ys[b] as int;
        assert forall|i: int, j: int|
            0 <= i < w.chunks_x() && 0 <= j < w.chunks_y() && #[trigger] start.awake_next(i, j) implies if World::seen(
                xs,
                a,
                i,
            ) || (i == xs[a] && World::seen(ys, b + 1, j)) {
                w.awake_now(i, j)
            } else {
                w.awake_next(i, j)
            } by {
            if (i, j) == (ci, cj) {
                if World::seen(xs, a, i) {
                    let k = choose|k: int| 0 <= k < a && xs[k] == i;
                    assert(xs[k] == xs[a]);
                }
                if World::seen(ys, b, j) {
                    let k = choose|k: int| 0 <= k < b && ys[k] == j;
                    assert(ys[k] == ys[b]);
                }
                assert(ws.awake_next(i, j));
                assert(World::seen(ys, b + 1, j)) by {
                    assert(ys[b] == j);
                }
            } else {
                assert(World::seen(ys, b + 1, j) == (World::seen(ys, b, j) || ys[b] == j)) by {
                    if World::seen(ys, b + 1, j) && ys[b] != j {
                        let k = choose|k: int| 0 <= k < b + 1 && ys[k] == j;
                        assert(k < b);
                    }
                    if ys[b] == j {
                        assert(0 <= b < b + 1 && ys[b] == j);
                    }
                }
                assert(w.awake_now(i, j) == ws.awake_now(i, j) && w.awake_next(i, j) == ws.awake_next(i, j));
            }
        }
    }

    /// Once every row of column `xs[a]` is visited, the schedule moves on to
    /// the next column.
    proof fn lemma_schedule_next_column(w: &World, start: &World, xs: Seq<usize>, ys: Seq<usize>, a: int)
        requires
            w.schedule_kept(start, xs, ys, a, ys.len() as int),
            0 <= a < xs.len(),
            forall|j: int| 0 <= j < w.chunks_y() ==> World::seen(ys, ys.len() as int, j),
        ensures
            w.schedule_kept(start, xs, ys, a + 1, 0),
    {
        assert forall|i: int, j: int|
            0 <= i < w.chunks_x() && 0 <= j < w.chunks_y() && #[trigger] start.awake_next(i, j) implies if World::seen(
                xs,
                a + 1,
                i,
            ) || (i == xs[a + 1] && World::seen(ys, 0, j)) {
                w.awake_now(i, j)
            } else {
                w.awake_next(i, j)
            } by {
            assert(World::seen(ys, ys.len() as int, j));
            assert(!World::seen(ys, 0, j));
            assert(World::seen(xs, a + 1, i) == (World::seen(xs, a, i) || xs[a] == i)) by {
                if World::seen(xs, a + 1, i) && xs[a] != i {
                    let k = choose|k: int| 0 <= k < a + 1 && xs[k] == i;
                    assert(k < a);
                }
                if xs[a] == i {
                    assert(xs[a] == i);
                }
            }
        }
    }

    /// Once every column is visited, every chunk that was due is updated.
    proof fn lemma_schedule_done(w: &World, start: &World, xs: Seq<usize>, ys: Seq<usize>)
        requires
            w.schedule_kept(start, xs, ys, xs.len() as int, 0),
            start.same_layout(w),
            forall|i: int| 0 <= i < w.chunks_x() ==> World::seen(xs, xs.len() as int, i),
        ensures
            start.woken_chunks_updated(w),
    {
        assert forall|i: int, j: int|
            0 <= i < start.chunks_x() && 0 <= j < start.chunks_y() && start.awake_next(i, j) implies #[trigger] w.awake_now(
                i,
                j,
            ) by {
            assert(World::seen(xs, xs.len() as int, i));
        }
    }

    /// One frame of the simulation: the sources emit, then the particles are
    /// updated. The border ring stays whole, and where no source emits
    /// border, every border cell keeps its particle and no new one appears.
    /// In a world without sources whose
    /// cells hold only sand, water, concrete, empty space and the border,
    /// every material keeps its number of cells, and the concrete of every
    /// chunk due for this frame is marked updated and otherwise left as it
    /// was; in a world without sources or fungus, the cells of water and of
    /// steam stay as many together, whatever burns or condenses; and in a world
    /// without sources, a flame gone out in a chunk due for this frame is gone
    /// after it.
    pub fn update_all(&mut self)
        requires
            old(self).wf(),
        ensures
            final(self).wf(),
            old(self).same_layout(final(self)),
            old(self).woken_chunks_updated(final(self)),
            old(self).holds_only_unchanging() && old(self).has_no_sources() ==> old(self).counts_equal(final(self)),
            old(self).has_no_sources() && old(self).material_count(ParticleType::Fungus) == 0 ==> final(self).wet_count()
                == old(self).wet_count() && final(self).material_count(ParticleType::Fungus) == 0,
            forall|x: int, y: int|
                final(self).in_bounds(x, y) && final(self).on_ring(x, y) ==> (#[trigger] final(self).cell(
                    x,
                    y,
                )).particle_type == ParticleType::Border,
            old(self).holds_only_unchanging() && old(self).has_no_sources() ==> old(self).concrete_updated(final(self)),
            old(self).has_no_sources() ==> old(self).cold_flames_gone(final(self)),
            old(self).emits_no_border() ==> old(self).borders_kept(final(self)),
            exists|mid: World, trace: Seq<World>, visits: Seq<Option<(int, int)>>|
                #![trigger World::frame_fold(mid, *final(self), trace, visits)]
                old(self).same_frame(&mid) && (forall|x: int, y: int|
                    old(self).in_bounds(x, y) ==> #[trigger] old(self).source_outcome(&mid, x, y)) && (forall|
                    x: int,
                    y: int,
                |
                    1 <= x < old(self).spec_width() && 1 <= y < old(self).spec_height() ==> #[trigger] old(
                        self,
                    ).source_emits(&mid, x, y))
                    && World::frame_fold(mid, *final(self), trace, visits) && World::visits_due(mid, visits)
                    && World::visits_due(*old(self), visits),
    {
        let ghost start = *self;
        self.update_all_sources();
        let ghost mid = *self;
        self.update_all_particles();
        proof {
            let (trace, visits) = choose|trace: Seq<World>, visits: Seq<Option<(int, int)>>|
                #[trigger] World::frame_fold(mid, *self, trace, visits) && World::visits_due(mid, visits);
            World::lemma_same_frame(&start, &mid);
            assert forall|x: int, y: int|
                start.in_bounds(x, y) && start.awake_next(x / start.spec_chunk_size(), y / start.spec_chunk_size())
                    implies #[trigger] World::visited(visits, x, y) by {
                lemma_split_coordinate(x, start.spec_chunk_size(), start.spec_width());
                lemma_split_coordinate(y, start.spec_chunk_size(), start.spec_height());
                assert(mid.awake_next(x / start.spec_chunk_size(), y / start.spec_chunk_size()));
            }
            assert(World::frame_fold(mid, *self, trace, visits));
            World::lemma_same_frame(&start, &mid);
            World::lemma_same_layout_trans(&start, &mid, self);
            if start.has_no_sources() {
                assert(start.cells_agree(&mid));
                World::lemma_count_agree(&start, &mid);
                assert(mid.material_count(ParticleType::Water) == start.material_count(ParticleType::Water));
                assert(mid.material_count(ParticleType::Steam) == start.material_count(ParticleType::Steam));
                assert(mid.material_count(ParticleType::Fungus) == start.material_count(ParticleType::Fungus));
                assert forall|x: int, y: int|
                    start.in_bounds(x, y) && World::waiting_cold_flame(#[trigger] start.cell(x, y)) && start.awake_next(
                        x / start.spec_chunk_size(),
                        y / start.spec_chunk_size(),
                    ) implies !Particle::cold_flame(self.cell(x, y)) by {
                    assert(mid.cell(x, y) == start.cell(x, y));
                    lemma_split_coordinate(x, start.spec_chunk_size(), start.spec_width());
                    lemma_split_coordinate(y, start.spec_chunk_size(), start.spec_height());
                    assert(mid.awake_next(x / start.spec_chunk_size(), y / start.spec_chunk_size()));
                }
                if start.holds_only_unchanging() {
                    assert forall|m: ParticleType| !World::unchanging(m) implies #[trigger] mid.material_count(m) == 0 by {
                        assert(start.material_count(m) == 0);
                    }
                    assert forall|x: int, y: int|
                        start.in_bounds(x, y) && (#[trigger] start.cell(x, y)).particle_type == ParticleType::Concrete implies (
                        self.cell(x, y) == start.cell(x, y) || self.cell(x, y) == Particle::marked(start.cell(x, y)))
                        && (start.awake_next(x / start.spec_chunk_size(), y / start.spec_chunk_size()) ==> self.cell(x, y)
                        == Particle::marked(start.cell(x, y))) by {
                        assert(mid.cell(x, y) == start.cell(x, y));
                        lemma_split_coordinate(x, start.spec_chunk_size(), start.spec_width());
                        lemma_split_coordinate(y, start.spec_chunk_size(), start.spec_height());
                        if start.awake_next(x / start.spec_chunk_size(), y / start.spec_chunk_size()) {
                            assert(mid.awake_next(x / start.spec_chunk_size(), y / start.spec_chunk_size()));
                        }
                    }
                }
            }
            assert forall|x: int, y: int| self.in_bounds(x, y) && self.on_ring(x, y) implies (#[trigger] self.cell(
                x,
                y,
            )).particle_type == ParticleType::Border by {
                self.lemma_ring_is_border(x, y);
            }
            if start.emits_no_border() {
                assert forall|x: int, y: int|
                    start.in_bounds(x, y) && (start.cell(x, y).particle_type == ParticleType::Border || mid.cell(
                        x,
                        y,
                    ).particle_type == ParticleType::Border) implies #[trigger] mid.cell(x, y) == start.cell(x, y) by {
                    assert(start.source_outcome(&mid, x, y));
                    if mid.cell(x, y) != start.cell(x, y) {
                        assert(start.source(x, y) is Some);
                        Particle::lemma_fresh_facts(mid.cell(x, y), start.source(x, y).unwrap().particle_type);
                    }
                }
                assert(start.borders_kept(&mid));
                World::lemma_borders_kept_across(&start, &mid, self);
            }
        }
    }
}

/// The numbers `0..n` in order.
fn range_vec(n: usize) -> (v: Vec<usize>)
    ensures
        v@ == Seq::new(n as nat, |i: int| i as usize),
{
    let mut v: Vec<usize> = Vec::new();
    let mut i: usize = 0;
    while i < n
        invariant
            0 <= i <= n,
            v@ == Seq::new(i as nat, |k: int| k as usize),
        decreases n - i,
    {
        v.push(i);
        proof {
            assert(v@ =~= Seq::new((i + 1) as nat, |k: int| k as usize));
        }
        i = i + 1;
    }
    v
}

/// A shuffle of `0..n` holds only numbers below `n`.
proof fn lemma_shuffled_range_bounded(v: Seq<usize>, n: nat)
    requires
        v.to_multiset() == Seq::new(n, |i: int| i as usize).to_multiset(),
    ensures
        forall|k: int| 0 <= k < v.len() ==> #[trigger] v[k] < n,
{
    broadcast use vstd::seq_lib::group_to_multiset_ensures;
    let s = Seq::new(n, |i: int| i as usize);
    assert forall|k: int| 0 <= k < v.len() implies #[trigger] v[k] < n by {
        let e = v[k];
        assert(v.contains(e));
        assert(v.to_multiset().count(e) > 0);
        assert(s.to_multiset().count(e) > 0);
        assert(s.contains(e));
        let j = choose|j: int| 0 <= j < s.len() && s[j] == e;
        assert(s[j] == j as usize);
    }
}

/// A shuffle of `0..n` is a permutation of it: it has `n` entries, each
/// below `n`, none twice, and every number below `n` among them.
proof fn lemma_shuffled_range_permutes(v: Seq<usize>, n: nat)
    requires
        n <= usize::MAX,
        v.to_multiset() == Seq::new(n, |i: int| i as usize).to_multiset(),
    ensures
        v.len() == n,
        forall|k: int| 0 <= k < v.len() ==> #[trigger] v[k] < n,
        v.no_duplicates(),
        forall|i: int| 0 <= i < n ==> World::seen(v, n as int, i),
{
    broadcast use vstd::seq_lib::group_to_multiset_ensures;
    let s = Seq::new(n, |i: int| i as usize);
    lemma_shuffled_range_bounded(v, n);
    assert(v.len() == n) by {
        assert(v.to_multiset().len() == v.len());
        assert(s.to_multiset().len() == s.len());
    }
    assert forall|i: int, j: int| 0 <= i < s.len() && 0 <= j < s.len() && i != j implies s[i] != s[j] by {
        assert(s[i] == i && s[j] == j);
    }
    assert(s.no_duplicates());
    s.lemma_multiset_has_no_duplicates();
    v.lemma_multiset_has_no_duplicates_conv();
    assert forall|i: int| 0 <= i < n implies World::seen(v, n as int, i) by {
        assert(s[i] == i as usize);
        assert(s.contains(i as usize));
        assert(v.to_multiset().count(i as usize) > 0);
        assert(v.contains(i as usize));
        let k = choose|k: int| 0 <= k < v.len() && v[k] == i as usize;
        assert(v[k] == i);
        assert(0 <= k < n && v[k] == i);
    }
}

/// An index below `w * h` names the cell `(i % w, i / w)` of a `w` by `h`
/// grid.
proof fn lemma_row_major(i: int, w: int, h: int)
    requires
        w >= 0,
        h >= 0,
        0 <= i < w * h,
    ensures
        w > 0,
        0 <= i % w < w,
        0 <= i / w < h,
        i == (i / w) * w + i % w,
{
    if w == 0 {
        assert(w * h == 0);
    }
    lemma_fundamental_div_mod(i, w);
    vstd::arithmetic::div_mod::lemma_mod_bound(i, w);
    let q = i / w;
    let r = i % w;
    assert(0 <= q < h) by (nonlinear_arith)
        requires
            i == w * q + r,
            0 <= r < w,
            0 <= i < w * h,
            w > 0,
    ;
    assert(i == q * w + r) by (nonlinear_arith)
        requires
            i == w * q + r,
    ;
}

/// The cell `(x, y)` of a `w` by `h` grid has the row-major index
/// `y * w + x`, which names it back.
proof fn lemma_row_major_index(x: int, y: int, w: int, h: int)
    requires
        0 <= x < w,
        0 <= y < h,
    ensures
        0 <= y * w + x < w * h,
        (y * w + x) % w == x,
        (y * w + x) / w == y,
{
    assert(0 <= y * w + x < w * h) by (nonlinear_arith)
        requires
            0 <= x < w,
            0 <= y < h,
    ;
    lemma_fundamental_div_mod_converse(y * w + x, w, y, x);
}

/// An index below `size * size` splits into a column and a row below `size`.
/// The in-chunk index of a cell of the world lies in the chunk's square.
proof fn lemma_local_index_in_square(x: int, y: int, cs: int, w: int, h: int)
    requires
        cs > 0,
        0 <= x < w,
        0 <= y < h,
    ensures
        0 <= (y % cs) * cs + x % cs < cs * cs,
{
    vstd::arithmetic::div_mod::lemma_mod_bound(x, cs);
    vstd::arithmetic::div_mod::lemma_mod_bound(y, cs);
    let lx = x % cs;
    let ly = y % cs;
    assert(0 <= ly * cs + lx < cs * cs) by (nonlinear_arith)
        requires
            0 <= lx < cs,
            0 <= ly < cs,
    ;
}

/// The cell placed at local index `idx` of its chunk has that local index.
proof fn lemma_local_index_of(idx: int, cs: int, gx: int, gy: int)
    requires
        cs > 0,
        0 <= idx,
        gx % cs == idx % cs,
        gy % cs == idx / cs,
    ensures
        (gy % cs) * cs + gx % cs == idx,
{
    lemma_fundamental_div_mod(idx, cs);
    assert((idx / cs) * cs == cs * (idx / cs)) by (nonlinear_arith);
}

/// A cell of chunk `(cx, cy)` is the one at the chunk's local index `idx`
/// when its own local index is `idx`.
proof fn lemma_local_index_unique(x: int, y: int, gx: int, gy: int, cs: int)
    requires
        cs > 0,
        x >= 0,
        y >= 0,
        gx >= 0,
        gy >= 0,
        x / cs == gx / cs,
        y / cs == gy / cs,
        (y % cs) * cs + x % cs == (gy % cs) * cs + gx % cs,
    ensures
        x == gx,
        y == gy,
{
    vstd::arithmetic::div_mod::lemma_mod_bound(x, cs);
    vstd::arithmetic::div_mod::lemma_mod_bound(y, cs);
    vstd::arithmetic::div_mod::lemma_mod_bound(gx, cs);
    vstd::arithmetic::div_mod::lemma_mod_bound(gy, cs);
    let v = (y % cs) * cs + x % cs;
    lemma_fundamental_div_mod_converse(v, cs, y % cs, x % cs);
    lemma_fundamental_div_mod_converse(v, cs, gy % cs, gx % cs);
    lemma_fundamental_div_mod(x, cs);
    lemma_fundamental_div_mod(y, cs);
    lemma_fundamental_div_mod(gx, cs);
    lemma_fundamental_div_mod(gy, cs);
}

proof fn lemma_index_in_square(idx: int, size: int)
    requires
        size > 0,
        0 <= idx < size * size,
    ensures
        0 <= idx % size < size,
        0 <= idx / size < size,
{
    lemma_fundamental_div_mod(idx, size);
    vstd::arithmetic::div_mod::lemma_mod_bound(idx, size);
    let q = idx / size;
    let r = idx % size;
    assert(0 <= q < size) by (nonlinear_arith)
        requires
            idx == size * q + r,
            0 <= r < size,
            0 <= idx < size * size,
            size > 0,
    ;
}

/// `v + d` taken as an `isize` and then as a `usize`, as a step off the
/// world wraps around.
pub open spec fn wrapped(v: usize, d: isize) -> usize {
    (v as isize + d) as usize
}

/// The stand-in for a cell outside the world: an immovable, non-flammable
/// border particle.
pub open spec fn outside_particle() -> Particle {
    Particle::fresh(ParticleType::Border, false, 1, Tint { sat_permille: 1000, val_permille: 1000 })
}

/// What a particle at a cell sees of the world around it.
#[derive(Clone, Copy, Debug)]
pub struct WorldApi {
    xy: (usize, usize),
}

impl WorldApi {
    /// Worlds with the same frame and the same particles show a particle the
    /// same neighbours.
    pub proof fn lemma_neighbour_agree(&self, a: &World, b: &World, dxdy: (isize, isize))
        requires
            a.wf(),
            a.same_frame(b),
            a.cells_agree(b),
        ensures
            self.target(a, dxdy) == self.target(b, dxdy),
            self.neighbour_spec(a, dxdy) == self.neighbour_spec(b, dxdy),
            self.target(a, dxdy) matches Some(q) ==> a.in_bounds(q.0, q.1),
    {
        World::lemma_relative_same_frame(a, b, self.pos().0, self.pos().1, dxdy.0 as int, dxdy.1 as int);
        a.lemma_relative_in_bounds(self.pos().0, self.pos().1, dxdy.0 as int, dxdy.1 as int);
    }

    /// A step that leads somewhere leads to a cell of the world.
    pub proof fn lemma_target_in_bounds(&self, world: &World, dxdy: (isize, isize))
        requires
            self.wf(world),
        ensures
            self.target(world, dxdy) matches Some(q) ==> world.in_bounds(q.0, q.1),
    {
        world.lemma_relative_in_bounds(self.pos().0, self.pos().1, dxdy.0 as int, dxdy.1 as int);
    }

    /// A step of `(0, 0)` stays on the particle's own cell.
    pub proof fn lemma_target_self(&self, world: &World)
        requires
            self.wf(world),
        ensures
            self.target(world, (0, 0)) == Some(self.pos()),
            self.neighbour_spec(world, (0, 0)) == world.cell(self.pos().0, self.pos().1),
    {
    }

    /// A neighbour other than the border stand-in lies in the world.
    pub proof fn lemma_target_of_non_border(&self, world: &World, dxdy: (isize, isize))
        requires
            self.neighbour_spec(world, dxdy).particle_type != ParticleType::Border,
        ensures
            self.target(world, dxdy) is Some,
    {
    }

    /// The cell of the particle being updated.
    pub closed spec fn pos(&self) -> (int, int) {
        (self.xy.0 as int, self.xy.1 as int)
    }

    /// The world is well formed and the particle's cell lies inside the
    /// border ring.
    pub open spec fn wf(&self, world: &World) -> bool {
        &&& world.wf()
        &&& world.in_bounds(self.pos().0, self.pos().1)
        &&& !world.on_ring(self.pos().0, self.pos().1)
    }

    /// The cell `dxdy` away from the particle, as `World::relative` gives it.
    pub open spec fn target(&self, world: &World, dxdy: (isize, isize)) -> Option<(int, int)> {
        world.relative(self.pos().0, self.pos().1, dxdy.0 as int, dxdy.1 as int)
    }

    /// The particle `dxdy` away, or the border stand-in outside the world.
    pub open spec fn neighbour_spec(&self, world: &World, dxdy: (isize, isize)) -> Particle {
        match self.target(world, dxdy) {
            Some(q) => world.cell(q.0, q.1),
            None => outside_particle(),
        }
    }

    /// A view of the world from cell `xy`.
    pub fn new(xy: (usize, usize)) -> (api: Self)
        ensures
            api.pos() == (xy.0 as int, xy.1 as int),
    {
        WorldApi { xy }
    }

    /// The cell of the particle being updated.
    pub fn xy(&self) -> (xy: (usize, usize))
        ensures
            (xy.0 as int, xy.1 as int) == self.pos(),
    {
        self.xy
    }

    /// A fair coin from the world's generator.
    pub fn random(&self, world: &mut World) -> (b: bool)
        ensures
            old(world).same_content(final(world)),
            final(world).draws() == old(world).draws().push(if b { 1int } else { 0int }),
    {
        let b = random_bool(&mut world.rng);
        world.draws = Ghost(world.draws@.push(if b { 1int } else { 0int }));
        b
    }

    /// An integer drawn uniformly from `low..high`.
    pub fn random_range(&self, world: &mut World, low: i64, high: i64) -> (r: i64)
        requires
            low < high,
        ensures
            low <= r < high,
            old(world).same_content(final(world)),
            final(world).draws() == old(world).draws().push(r as int),
    {
        let r = random_range(&mut world.rng, low, high);
        world.draws = Ghost(world.draws@.push(r as int));
        r
    }

    /// A random fraction `r / 2^24` with `r` drawn uniformly from `0..2^24`,
    /// the resolution of a uniform `f32` in `[0, 1)`.
    pub fn random_fraction(&self, world: &mut World) -> (r: u32)
        ensures
            r < FRACTION_SCALE,
            old(world).same_content(final(world)),
            final(world).draws() == old(world).draws().push(r as int),
    {
        let r = random_range(&mut world.rng, 0, FRACTION_SCALE as i64) as u32;
        world.draws = Ghost(world.draws@.push(r as int));
        r
    }

    /// The particle `dxdy` away (through a portal when it leads there), or a
    /// border stand-in when that lies outside the world.
    pub fn neighbour(&self, world: &World, dxdy: (isize, isize)) -> (p: Particle)
        requires
            self.wf(world),
        ensures
            p == self.neighbour_spec(world, dxdy),
            p.wf(),
    {
        match world.find_relative(self.xy, dxdy) {
            Some(q) => *world.get_particle(q),
            None => outside(),
        }
    }

    /// The particle `dxdy` away, as `neighbour` gives it, about to be changed:
    /// the chunk of its cell is woken for the next frame.
    pub fn neighbour_mut(&self, world: &mut World, dxdy: (isize, isize)) -> (p: Particle)
        requires
            self.wf(old(world)),
        ensures
            self.wf(final(world)),
            p == self.neighbour_spec(old(world), dxdy),
            p.wf(),
            old(world).same_frame(final(world)),
            old(world).cells_agree(final(world)),
            old(world).now_flags_agree(final(world)),
            match self.target(old(world), dxdy) {
                Some(q) => old(world).next_flags_woken(final(world), q.0, q.1),
                None => old(world).next_flags_agree(final(world)),
            },
    {
        match world.find_relative(self.xy, dxdy) {
            Some(q) => {
                world.wake_cell(q);
                *world.get_particle(q)
            },
            None => outside(),
        }
    }

    /// Moves the particle's cell to the one `dxdy` away, which must lie in the
    /// world and not hold a border: the old cell gets a copy of the particle
    /// found there.
    pub fn swap_with(&mut self, world: &mut World, dxdy: (isize, isize))
        requires
            old(self).wf(old(world)),
            old(self).target(old(world), dxdy) is Some,
            old(self).neighbour_spec(old(world), dxdy).particle_type != ParticleType::Border,
        ensures
            final(self).wf(final(world)),
            Some(final(self).pos()) == old(self).target(old(world), dxdy),
            old(world).same_frame(final(world)),
            old(world).now_flags_agree(final(world)),
            final(world).cell(old(self).pos().0, old(self).pos().1) == old(self).neighbour_spec(old(world), dxdy),
            old(world).cells_agree_except(final(world), old(self).pos().0, old(self).pos().1),
            old(world).next_flags_after_write(final(world), old(self).pos().0, old(self).pos().1),
            old(world).counts_carried(old(self).pos(), final(world), final(self).pos()),
    {
        let ghost w0 = *world;
        let other_xy = world.find_relative(self.xy, dxdy).unwrap();
        let other = *world.get_particle(other_xy);
        world.put_particle(self.xy, other);
        proof {
            World::lemma_count_after_write(&w0, world, self.xy.0 as int, self.xy.1 as int);
            if (other_xy.0 as int, other_xy.1 as int) != (self.xy.0 as int, self.xy.1 as int) {
                assert(world.cell(other_xy.0 as int, other_xy.1 as int) == w0.cell(other_xy.0 as int, other_xy.1 as int));
            }
        }
        self.xy = other_xy;
    }

    /// Puts a new particle of material `particle_type` in the cell `dxdy`
    /// away, which must lie in the world, as `World::add_new_particle` does
    /// with replacing allowed.
    pub fn replace_with_new(&self, world: &mut World, dxdy: (isize, isize), particle_type: ParticleType)
        requires
            self.wf(old(world)),
            self.target(old(world), dxdy) is Some,
        ensures
            self.wf(final(world)),
            old(world).same_frame(final(world)),
            old(world).now_flags_agree(final(world)),
            ({
                let q = self.target(old(world), dxdy).unwrap();
                &&& old(world).cells_agree_except(final(world), q.0, q.1)
                &&& old(world).next_flags_after_write(final(world), q.0, q.1)
                &&& World::adds_over(particle_type, old(world).cell(q.0, q.1).particle_type, true) ==> final(world).cell(
                    q.0,
                    q.1,
                ).is_fresh(particle_type)
                &&& !World::adds_over(particle_type, old(world).cell(q.0, q.1).particle_type, true) ==> final(world).cell(
                    q.0,
                    q.1,
                ) == old(world).cell(q.0, q.1)
            }),
    {
        let xy = world.find_relative(self.xy, dxdy).unwrap();
        world.add_new_particle(particle_type, xy, true);
    }

    /// A new particle of material `particle_type`, drawn from the world's
    /// generator.
    pub fn new_particle(&self, world: &mut World, particle_type: ParticleType) -> (p: Particle)
        ensures
            p.is_fresh(particle_type),
            p.wf(),
            old(world).same_content(final(world)),
    {
        world.make_particle(particle_type)
    }

    /// Puts `particle` in the cell `dxdy` away, which must lie in the world
    /// and, unless `particle` is a border, not hold a border.
    pub fn replace_with(&self, world: &mut World, dxdy: (isize, isize), particle: Particle)
        requires
            self.wf(old(world)),
            self.target(old(world), dxdy) is Some,
            particle.wf(),
            self.neighbour_spec(old(world), dxdy).particle_type != ParticleType::Border || particle.particle_type
                == ParticleType::Border,
        ensures
            self.wf(final(world)),
            old(world).same_frame(final(world)),
            old(world).now_flags_agree(final(world)),
            ({
                let q = self.target(old(world), dxdy).unwrap();
                &&& final(world).cell(q.0, q.1) == particle
                &&& old(world).cells_agree_except(final(world), q.0, q.1)
                &&& old(world).next_flags_after_write(final(world), q.0, q.1)
            }),
    {
        let xy = world.find_relative(self.xy, dxdy).unwrap();
        world.put_particle(xy, particle);
    }

    /// Puts `particle`, which must not be a border, back in the particle's
    /// own cell.
    pub fn update_in_world(&self, world: &mut World, particle: Particle)
        requires
            self.wf(old(world)),
            particle.wf(),
        ensures
            self.wf(final(world)),
            old(world).same_frame(final(world)),
            old(world).now_flags_agree(final(world)),
            final(world).cell(self.pos().0, self.pos().1) == particle,
            old(world).cells_agree_except(final(world), self.pos().0, self.pos().1),
            old(world).next_flags_after_write(final(world), self.pos().0, self.pos().1),
            old(world).same_generator(final(world)),
            old(world).cell(self.pos().0, self.pos().1) == particle ==> old(world).next_flags_agree(final(world)),
    {
        world.put_particle(self.xy, particle);
    }

    /// Keeps the particle's chunk awake for the next frame: the particle may
    /// still change by chance even though it did not this time.
    pub fn might_update(&self, world: &mut World)
        requires
            self.wf(old(world)),
        ensures
            self.wf(final(world)),
            old(world).same_frame(final(world)),
            old(world).cells_agree(final(world)),
            old(world).now_flags_agree(final(world)),
            old(world).next_flags_woken(final(world), self.pos().0, self.pos().1),
            final(world).draws() == old(world).draws(),
    {
        world.wake_cell(self.xy);
    }
}

/// The number of equally likely values a random fraction can take.
pub const FRACTION_SCALE: u32 = 16777216;

/// The stand-in for a cell outside the world.
pub fn outside() -> (p: Particle)
    ensures
        p == outside_particle(),
        p.wf(),
{
    Particle::from_draws(ParticleType::Border, false, 1, Tint { sat_permille: 1000, val_permille: 1000 })
}
} // verus!
