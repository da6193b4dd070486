pub mod bits;
pub mod rle;
