//! Container primitives for kernel resource tracking: a packed bit vector,
//! a buddy descriptor, an arena-backed doubly linked queue, a chained hash
//! table and a circular byte buffer.
//!
//! None of the containers is synchronised; callers serialise access.

pub mod arena;
pub mod bitmap;
pub mod queue;
pub mod ringbuf;
pub mod hashmap;
pub mod buddy;
