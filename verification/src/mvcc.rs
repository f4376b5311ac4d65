//! Multi-version concurrency control.

pub mod watermark;
