//! Routing of directed connector lines between the rectangular nodes of a
//! control-flow diagram, with the leveling that places the nodes in rows.

pub mod astar;
pub mod field;
pub mod geom;
pub mod graph;
pub mod grid;
pub mod level;
pub mod matching;
pub mod ports;
pub mod route;
pub mod types;
