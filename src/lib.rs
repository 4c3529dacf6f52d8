//! A fixed-size object pool: one contiguous region carved into equal slots
//! that are handed out and taken back in constant time, last freed first
//! reused.
pub mod layout;
pub mod pool;
