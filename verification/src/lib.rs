//! Topology reconstruction for a mesh border router: a flat snapshot of
//! nodes with parent pointers is assembled into the lines of a tree diagram.

pub mod hex;
pub mod order;
pub mod directory;
pub mod sort;
pub mod children;
pub mod tree;
pub mod status;
pub mod stability;
pub mod params;
pub mod props;
