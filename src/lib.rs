pub mod body;
pub mod collision;
pub mod geometry;
pub mod index_laws;
pub mod quadtree;
pub mod simulation;
pub mod steering;
