pub mod castro_d3;
pub mod castro_grid;
pub mod castro_h3;
pub mod edge_list;
pub mod erdos_renyi;
pub mod fixed_edge_count;
pub mod traits;
pub mod tree_search;
