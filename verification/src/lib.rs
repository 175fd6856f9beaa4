use vstd::prelude::*;

pub mod graph;
pub mod cluster_finding;
pub mod utils;
pub mod routing;
pub mod gray_code;
pub mod placement;
pub mod block_zxz;
pub mod basis;
pub mod cluster_symmetry;
pub mod swap_round_trip;
pub mod level_blocks;
pub mod relay_laws;
pub mod gray_counts;
