//! Verified core of the Frey world simulator: mesh topology, river-network
//! graphs, sink (fill-and-spill) topology, plate partitions, the erosion
//! work queue, era scheduling and snapshot naming.
use vstd::prelude::*;

pub mod flow;
pub mod geology_types;
pub mod mesh;
pub mod plates;
pub mod components;
pub mod era;
pub mod sinks;
pub mod snapshot;
pub mod surface_material;
pub mod text;
pub mod active_queue;
pub mod automaton;
pub mod icosphere;
pub mod icosphere_count;
pub mod polity;
pub mod neighborhood;
pub mod basins;
pub mod donor;
pub mod boundary_vertices;
pub mod partial_rebuild;
pub mod downstream;

verus! {

} // verus!
