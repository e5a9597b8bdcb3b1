pub mod tree;
pub mod shape;
pub mod dock;
pub mod serialize;
