pub mod barnes_hut;
pub mod body;
pub mod integrator;
pub mod screen;
pub mod simulation;
