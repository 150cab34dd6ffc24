//! Generators and analysis tools for large sparse graphs: adjacency-set graphs,
//! breadth-first search, connected components below a separator, elimination
//! trees, lowest common ancestors, and synthetic graph families.
pub mod cbrt_grid;
pub mod cch;
pub mod collections;
pub mod components;
pub mod csr;
pub mod edge_text;
pub mod example;
pub mod generators;
pub mod graph;
pub mod lca;
pub mod library;
pub mod mst;
pub mod nested_grid;
pub mod osm;
pub mod osm_xml;
pub mod pace;
pub mod point_graph;
pub mod random;
pub mod random_set;
pub mod reach;
pub mod search;
pub mod separator;
pub mod thinning;
pub mod sparse_grid;
pub mod tree;
pub mod tree_distance;
