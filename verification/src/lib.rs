pub mod block;
pub mod iterators;
pub mod keys;
pub mod wire;
