//! Core of a preemptive round-robin kernel for a single-core microcontroller:
//! register snapshots, a fixed-capacity task table with the tick-driven
//! context switch, and a guard for state shared with the tick handler.

pub mod context;
pub mod guard;
pub mod scheduler;
pub mod sim;
pub mod table;
