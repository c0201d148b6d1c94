pub mod events;
pub mod ids;
pub mod paths;
pub mod render;
pub mod summary;
pub mod laws;
