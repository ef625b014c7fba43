//! An R*-tree over points of the integer plane: insertion with forced
//! reinsertion and node splitting, and best-first nearest-neighbour search.
pub mod envelope;
pub mod nearest_neighbor;
pub mod node;
pub mod rstar;
