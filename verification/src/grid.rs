//! The fixed-size two-dimensional arrays of `array2d` that hold the world's
//! chunks, particles, sources and portals. Each array is described by its
//! rows: `cells(a)[row][column]` is the element at `(row, column)`.
use vstd::prelude::*;
use array2d::Array2D;
use crate::particle::Particle;
use crate::world::{WorldChunk, ParticleSource, Portal};

verus! {

#[verifier::external_type_specification]
#[verifier::external_body]
#[verifier::reject_recursive_types(T)]
pub struct ExArray2D<T: Clone>(Array2D<T>);

/// `Array2D`'s derived `clone`: a copy of the array, element by element.
/// Nothing is claimed of its result; the arrays here are only cloned inside
/// `Array2D::filled_with`.
pub assume_specification<T: Clone + Clone>[ <Array2D<T> as Clone>::clone ](a: &Array2D<T>) -> Array2D<T>;

/// The rows of an array of particles.
pub uninterp spec fn particle_cells(a: Array2D<Particle>) -> Seq<Seq<Particle>>;

/// The rows of an array of chunks.
pub uninterp spec fn chunk_cells(a: Array2D<WorldChunk>) -> Seq<Seq<WorldChunk>>;

/// The rows of an array of optional sources.
pub uninterp spec fn source_cells(a: Array2D<Option<ParticleSource>>) -> Seq<Seq<Option<ParticleSource>>>;

/// The rows of an array of optional portals.
pub uninterp spec fn portal_cells(a: Array2D<Option<Portal>>) -> Seq<Seq<Option<Portal>>>;

/// Whether `rows` has `n` rows of `m` elements each.
pub open spec fn is_shape<T>(rows: Seq<Seq<T>>, n: int, m: int) -> bool {
    &&& rows.len() == n
    &&& forall|r: int| 0 <= r < n ==> (#[trigger] rows[r]).len() == m
}

/// Whether every element of `rows` (shaped `n` by `m`) equals `e`.
pub open spec fn is_filled<T>(rows: Seq<Seq<T>>, n: int, m: int, e: T) -> bool {
    &&& is_shape(rows, n, m)
    &&& forall|r: int, c: int| 0 <= r < n && 0 <= c < m ==> #[trigger] rows[r][c] == e
}

/// `rows` with the element at `(r, c)` replaced by `e`.
pub open spec fn set_cell<T>(rows: Seq<Seq<T>>, r: int, c: int, e: T) -> Seq<Seq<T>> {
    rows.update(r, rows[r].update(c, e))
}

/// Calls `Array2D::filled_with`: an array of `num_rows` rows of `num_columns`
/// copies of `element`. The element count must fit in `usize`.
#[verifier::external_body]
pub(crate) fn filled_particles(element: Particle, num_rows: usize, num_columns: usize) -> (a: Array2D<Particle>)
    requires
        num_rows * num_columns <= usize::MAX,
    ensures
        is_filled(particle_cells(a), num_rows as int, num_columns as int, element),
{
    Array2D::filled_with(element, num_rows, num_columns)
}

/// Calls `Array2D::filled_with` for chunks, as `filled_particles` does.
#[verifier::external_body]
pub(crate) fn filled_chunks(element: WorldChunk, num_rows: usize, num_columns: usize) -> (a: Array2D<WorldChunk>)
    requires
        num_rows * num_columns <= usize::MAX,
    ensures
        is_filled(chunk_cells(a), num_rows as int, num_columns as int, element),
{
    Array2D::filled_with(element, num_rows, num_columns)
}

/// Calls `Array2D::filled_with` for optional sources, as `filled_particles`
/// does.
#[verifier::external_body]
pub(crate) fn filled_sources(element: Option<ParticleSource>, num_rows: usize, num_columns: usize) -> (a: Array2D<Option<ParticleSource>>)
    requires
        num_rows * num_columns <= usize::MAX,
    ensures
        is_filled(source_cells(a), num_rows as int, num_columns as int, element),
{
    Array2D::filled_with(element, num_rows, num_columns)
}

/// Calls `Array2D::filled_with` for optional portals, as `filled_particles`
/// does.
#[verifier::external_body]
pub(crate) fn filled_portals(element: Option<Portal>, num_rows: usize, num_columns: usize) -> (a: Array2D<Option<Portal>>)
    requires
        num_rows * num_columns <= usize::MAX,
    ensures
        is_filled(portal_cells(a), num_rows as int, num_columns as int, element),
{
    Array2D::filled_with(element, num_rows, num_columns)
}

/// Indexes an array of particles (`Index`): the element at `(row, column)`,
/// which must lie in the array.
#[verifier::external_body]
pub(crate) fn particle_cell(a: &Array2D<Particle>, row: usize, column: usize) -> (e: &Particle)
    requires
        row < particle_cells(*a).len(),
        column < particle_cells(*a)[row as int].len(),
    ensures
        *e == particle_cells(*a)[row as int][column as int],
{
    &a[(row, column)]
}

/// Indexes an array of particles mutably (`IndexMut`): a reference to the
/// element at `(row, column)`; the array afterwards holds what the reference
/// last held there and is unchanged elsewhere.
#[verifier::external_body]
pub(crate) fn particle_cell_mut(a: &mut Array2D<Particle>, row: usize, column: usize) -> (e: &mut Particle)
    requires
        row < particle_cells(*old(a)).len(),
        column < particle_cells(*old(a))[row as int].len(),
    ensures
        *e == particle_cells(*old(a))[row as int][column as int],
        particle_cells(*final(a)) == set_cell(particle_cells(*old(a)), row as int, column as int, *final(e)),
{
    &mut a[(row, column)]
}

/// Calls `Array2D::column_len`: the number of rows.
#[verifier::external_body]
pub(crate) fn particle_rows(a: &Array2D<Particle>) -> (n: usize)
    ensures
        n == particle_cells(*a).len(),
{
    a.column_len()
}

/// Calls `Array2D::row_len`: the number of columns, which is the length of
/// every row.
#[verifier::external_body]
pub(crate) fn particle_columns(a: &Array2D<Particle>) -> (n: usize)
    ensures
        particle_cells(*a).len() > 0 ==> n == particle_cells(*a)[0].len(),
{
    a.row_len()
}

/// Indexes an array of chunks (`Index`), as `particle_cell` does.
#[verifier::external_body]
pub(crate) fn chunk_cell(a: &Array2D<WorldChunk>, row: usize, column: usize) -> (e: &WorldChunk)
    requires
        row < chunk_cells(*a).len(),
        column < chunk_cells(*a)[row as int].len(),
    ensures
        *e == chunk_cells(*a)[row as int][column as int],
{
    &a[(row, column)]
}

/// Indexes an array of chunks mutably (`IndexMut`), as `particle_cell_mut`
/// does.
#[verifier::external_body]
pub(crate) fn chunk_cell_mut(a: &mut Array2D<WorldChunk>, row: usize, column: usize) -> (e: &mut WorldChunk)
    requires
        row < chunk_cells(*old(a)).len(),
        column < chunk_cells(*old(a))[row as int].len(),
    ensures
        *e == chunk_cells(*old(a))[row as int][column as int],
        chunk_cells(*final(a)) == set_cell(chunk_cells(*old(a)), row as int, column as int, *final(e)),
{
    &mut a[(row, column)]
}

/// Indexes an array of optional sources (`Index`), as `particle_cell` does.
#[verifier::external_body]
pub(crate) fn source_cell(a: &Array2D<Option<ParticleSource>>, row: usize, column: usize) -> (e: &Option<ParticleSource>)
    requires
        row < source_cells(*a).len(),
        column < source_cells(*a)[row as int].len(),
    ensures
        *e == source_cells(*a)[row as int][column as int],
{
    &a[(row, column)]
}

/// Indexes an array of optional sources mutably (`IndexMut`), as
/// `particle_cell_mut` does.
#[verifier::external_body]
pub(crate) fn source_cell_mut(a: &mut Array2D<Option<ParticleSource>>, row: usize, column: usize) -> (e: &mut Option<ParticleSource>)
    requires
        row < source_cells(*old(a)).len(),
        column < source_cells(*old(a))[row as int].len(),
    ensures
        *e == source_cells(*old(a))[row as int][column as int],
        source_cells(*final(a)) == set_cell(source_cells(*old(a)), row as int, column as int, *final(e)),
{
    &mut a[(row, column)]
}

/// Indexes an array of optional portals (`Index`), as `particle_cell` does.
#[verifier::external_body]
pub(crate) fn portal_cell(a: &Array2D<Option<Portal>>, row: usize, column: usize) -> (e: &Option<Portal>)
    requires
        row < portal_cells(*a).len(),
        column < portal_cells(*a)[row as int].len(),
    ensures
        *e == portal_cells(*a)[row as int][column as int],
{
    &a[(row, column)]
}

/// Indexes an array of optional portals mutably (`IndexMut`), as
/// `particle_cell_mut` does.
#[verifier::external_body]
pub(crate) fn portal_cell_mut(a: &mut Array2D<Option<Portal>>, row: usize, column: usize) -> (e: &mut Option<Portal>)
    requires
        row < portal_cells(*old(a)).len(),
        column < portal_cells(*old(a))[row as int].len(),
    ensures
        *e == portal_cells(*old(a))[row as int][column as int],
        portal_cells(*final(a)) == set_cell(portal_cells(*old(a)), row as int, column as int, *final(e)),
{
    &mut a[(row, column)]
}

} // verus!
