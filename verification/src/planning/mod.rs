pub mod adjacency;
pub mod corral_ordering;
pub mod doorway_scheduling;
pub mod rooms;
pub mod strategic;
