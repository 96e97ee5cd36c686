pub mod filter;
pub mod graph;
pub mod pattern;
pub mod reach;
pub mod retain;
