//! The parser's metrics, stated as the updates to apply to the metrics recorder.

pub mod custom;
