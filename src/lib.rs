pub mod treap;
pub mod binary_search;
pub mod prefix_sum;
pub mod union_find;
pub mod number;
pub mod matrix;
pub mod dijkstra;
