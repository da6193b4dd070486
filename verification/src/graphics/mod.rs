pub mod atlas;
pub mod buffer;
pub mod handle;
pub mod pool;
pub mod staging;
