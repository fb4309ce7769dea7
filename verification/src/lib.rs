//! The core of a lidar simulation on an exact integer lattice: occupancy
//! maps with their connected components and boundary edges, a bounding volume
//! hierarchy over the edges, nearest-hit ray queries, and the schedule that
//! keeps at most one sensing job per agent in flight.
//!
//! Every coordinate is an integer on a lattice with 1024 units to the side
//! of a grid cell, every distance along a ray an exact fraction, and time a
//! count of ticks: nothing is rounded but where a contract says so.

pub mod ratio;
pub mod math;
pub mod store;
pub mod bvh;
pub mod lbvh;
pub mod raycast;
pub mod scene;
pub mod agent;
pub mod sensors;
pub mod track_file;
