//! Laws of the machine: what holds of every guest, every slice and every run.
pub mod addressing;
pub mod alike;
pub mod emulation;
pub mod exits;
pub mod independence;
pub mod instructions;
pub mod isolation;
pub mod listing;
pub mod memory;
pub mod passes;
pub mod programs;
pub mod random;
pub mod ring;
pub mod scheduling;
pub mod setup;
pub mod slicing;
pub mod stepping;
pub mod views;
