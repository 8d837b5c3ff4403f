//! Multiprocessor task scheduling: task records, several queueing
//! strategies (earliest deadline first, fair share, LIFO global queue,
//! per-core partitions, two-level queues, work stealing) and the split of a
//! task list across cores, each with a machine-checked contract.
pub mod task;
pub mod sorting;
pub mod scheduler;
pub mod assignment;
