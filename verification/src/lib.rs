//! A verified load-balancing dispatcher: a coordinator routes work items to a
//! fixed pool of workers, tracks each worker's outstanding load, and supports
//! two routing policies (least-loaded and round-robin), together with the
//! small exercises that ship alongside it.

pub mod dispatcher;
pub mod monty;
pub mod pool;
pub mod stats;
pub mod whisper;
