pub mod laws;
pub mod model;
pub mod quadrant;
pub mod quadtree;
pub mod routes;
