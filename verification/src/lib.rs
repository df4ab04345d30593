pub mod declarations;
pub mod diff_engine;
pub mod errors;
pub mod graph;
pub mod project;
pub mod reach;
pub mod resolution;
pub mod workspace;
