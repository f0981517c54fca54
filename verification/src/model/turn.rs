use vstd::prelude::*;

use super::types::{NodeId, TokenUsage};

verus! {

/// A conversation turn: a user prompt and everything that follows it until the next
/// prompt.
#[derive(Debug)]
pub struct Turn {
    /// 0-based position of the turn.
    pub index: usize,
    /// The block of the prompt that starts the turn.
    pub user_block: NodeId,
    /// The blocks of the turn in chronological order, starting with the prompt.
    pub all_blocks: Vec<NodeId>,
    pub tool_blocks: Vec<NodeId>,
    pub assistant_blocks: Vec<NodeId>,
    pub system_blocks: Vec<NodeId>,
    /// The sum of the token usage of the turn's assistant blocks.
    pub total_tokens: TokenUsage,
    /// The duration reported by the turn's last turn-duration system block.
    pub duration_ms: Option<u64>,
}

} // verus!
