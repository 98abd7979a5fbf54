//! Complete state graph of three-in-a-row on a 3x3 board, with a
//! reachability summary label computed for every reachable position.
pub mod code;
pub mod game;
pub mod graph;
pub mod label;
pub mod outcome;
