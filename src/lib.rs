//! A MapReduce engine: the job contract, the intermediate-data pipeline, the
//! master's fault-tolerant scheduler and the worker's execution state machine.
//!
//! Everything that touches the disk, the network or a clock lives with the
//! caller; this crate decides and computes, and states what it computes.
//!
//! - `common`: records, operations, the `Job` contract and the RPC messages.
//! - `word_count`: the reference job.
//! - `split`: normalizing the input and cutting it into map inputs.
//! - `data`: file names, partitioning, merging and line framing.
//! - `sequential`: the single-process pipeline.
//! - `master`: the scheduler.
//! - `worker`: the worker's life cycle and work.
//! - `display`: values shown by a visualizer.
//! - `text`: decimal formatting and character classes.
pub mod common;
pub mod data;
pub mod display;
pub mod master;
pub mod sequential;
pub mod split;
pub mod text;
pub mod word_count;
pub mod worker;
