//! The message type of the multi-producer log pipeline.
use vstd::prelude::*;

verus! {

/// A log line as it travels from a producer to the consumer: the service
/// that sent it and the raw text.
#[derive(Debug, Clone)]
pub struct LogLine {
    pub source: String,
    pub content: String,
}

} // verus!
