pub mod codec;
pub mod keys;
pub mod leaf;
pub mod node;
pub mod tree;
