// A self-organising ring of particles that grows by splitting its edges.
//
// Coordinates are fixed-point integers (`geometry::UNIT` steps per world
// unit), randomness comes in as caller-supplied rolls, and every step keeps
// the ring's links closed and every position within `geometry::MAX_COORD`.

pub mod color;
pub mod geometry;
pub mod system;
