pub mod bitset;
pub mod config;
pub mod consistency;
pub mod debug;
pub mod geometry;
pub mod grid;
pub mod lemmas;
pub mod rules;
pub mod solver;
pub mod text;
pub mod sockets;
pub mod weights;
pub mod learn;
pub mod overlap;
pub mod runtime;
pub mod step;
