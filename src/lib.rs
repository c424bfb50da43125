//! A shared, rooted binary decision diagram held in an arena, with cursors
//! that navigate it and an exporter that describes a rooted sub-graph as a
//! directed-graph text, visiting every shared node once.

pub mod diagram;
pub mod node_handler;
pub mod export;
pub mod walk_laws;
