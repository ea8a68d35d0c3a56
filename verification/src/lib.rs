//! A falling-sand simulation: particles of different materials on a grid of
//! chunks, with sources that emit particles and portals that connect cells.
pub mod grid;
pub mod helpers;
pub mod line;
pub mod particle;
pub mod placing;
pub mod random;
pub mod world;
