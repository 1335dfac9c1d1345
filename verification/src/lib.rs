//! Aggregation core of a parallel disk-usage scanner: running totals, a
//! bounded tracker of the largest files, the folding of one directory listing
//! and the decisions of the worker pool, each with a contract that Verus proves.

pub mod classify;
pub mod config;
pub mod errors;
pub mod extensions;
pub mod largest;
pub mod merge_laws;
pub mod order;
pub mod pool;
pub mod priority_queue;
pub mod progress;
pub mod report;
pub mod scan;
pub mod stats;
pub mod topk;
