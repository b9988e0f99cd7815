//! Measured forgetting: context management for agentic local language models.
//!
//! The library classifies a task, scores the messages of a conversation by the
//! dimensions of information they carry, finds causal chains, detects saturated
//! information, plans which messages to keep verbatim or compress, and builds
//! the text handed to a summariser and the summary put back into the context.

pub mod analysis;
pub mod benchmark;
pub mod chains;
pub mod compaction;
pub mod forgetting;
pub mod influence;
pub mod plan;
pub mod text;
pub mod think;

use vstd::prelude::*;

verus! {

/// A chat message: who sent it and what it says.
#[derive(Debug, Clone)]
pub struct Message {
    pub role: String,
    pub content: String,
}

} // verus!
