pub mod geometry;
pub mod index;
pub mod collection;
pub mod storage;
pub mod snapshot;
pub mod shared;
