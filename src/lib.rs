//! Arena trees of linked nodes, and the joint-space bookkeeping of kinematic
//! chains built on them.

pub mod idtree;
pub mod joints;
