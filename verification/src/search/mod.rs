pub mod beam;
pub mod successors;
