//! Witness-generation pipeline of a zero-knowledge virtual machine: decoding of
//! execution traces, planning bookkeeping, instance dispatch and the memory
//! consistency table.

pub mod asm_min_traces;
pub mod executor;
pub mod fcall;
pub mod le_bytes;
pub mod mem_sm;
pub mod metrics;
pub mod plan;
