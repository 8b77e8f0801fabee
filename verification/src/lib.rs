//! Streams an effectively unbounded tiled world around a moving observer.
//!
//! The library decides which square tiles ("chunks") of the world should
//! exist, bounds how much generation work may run at once, orders that work
//! by proximity to the observer, and drives every chunk entity through its
//! lifecycle. The surrounding program owns the engine: it runs the tick
//! loop, performs the generation tasks that this library schedules, and
//! reports their completion back as plain values.

pub mod admission;
pub mod area;
pub mod chunk;
pub mod collider;
pub mod console;
pub mod lifecycle;
pub mod limiter;
pub mod manager;
pub mod scheduler;
