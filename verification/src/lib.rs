//! A verified request-counting core for an HTTP service: a table of
//! per-caller occurrence counts, an interceptor step that records each
//! resolved caller address and hands the request through unchanged, and a
//! reporter that sorts a snapshot by descending count and renders it as text.

pub mod counter;
pub mod intercept;
pub mod report;
