pub mod buffer_pool;
pub mod page;
