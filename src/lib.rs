pub mod builder;
pub mod cost;
pub mod flow;
pub mod mincost;
pub mod network;
pub mod paths;
pub mod solver;
