//! Channel reduction for monitor-driven dynamics processors.
//!
//! A compressor, noise gate or limiter watches a selection of "monitor"
//! channels and reduces them, frame by frame, to one detector waveform.
//! The reduction is generic over the sample arithmetic (see [`sample`]),
//! so the order and structure of every operation is verified here while
//! the numeric type supplies the operations themselves.

pub mod audiochunk;
pub mod config;
pub mod processors;
pub mod sample;
