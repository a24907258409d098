//! Core of a static, interrupt-driven, preemptive priority scheduler for
//! single-core embedded targets: fixed-capacity payload slot pools with
//! free-index queues, per-priority-level ready queues drained by dispatchers,
//! a priority-ceiling critical-section discipline, and a time-ordered queue
//! of deferred activations driven by a monotonic clock.

pub mod fifo;
pub mod kernel;
pub mod pool;
pub mod resource;
pub mod seqs;
pub mod time;
pub mod timer;
