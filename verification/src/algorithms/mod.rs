pub mod bmssp_o_6;
pub mod dijkstra_opt;
pub mod epoch_map;
pub mod node_pivot;
pub mod path;
pub mod transform;
