//! A container of task slots for a work-stealing scheduler.
//!
//! One owner adds tasks at the active end of the container and takes them
//! back from the same end; thieves take from that end too. Every operation
//! borrows the container exclusively, so operations never overlap: whatever
//! shares a container between execution contexts has to serialize its calls.
//!
//! * [`slots`] is the mathematical model: a sequence of optional tasks and
//!   what each operation does to it.
//! * [`schedule`] is the executable container, specified over that model.
//! * [`laws`] states what follows for whole runs of operations.

pub mod laws;
pub mod schedule;
pub mod slots;
