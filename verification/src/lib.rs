pub mod bitset;
pub mod clonetools;
pub mod coordinate_compression;
pub mod graph;
pub mod io;
pub mod math;
pub mod maze;
pub mod my_itertools;
pub mod search;
pub mod segment_tree;
pub mod union_find;
pub mod vectools;
