use vstd::prelude::*;

verus! {

/// The four kinds of blocks in a session.
#[derive(Debug, Clone, Copy, PartialEq, Eq, Structural, Hash)]
pub enum BlockType {
    User,
    Assistant,
    Tool,
    System,
}

/// The lower-case name of a block type, as it is displayed.
pub open spec fn block_type_name(t: BlockType) -> Seq<char> {
    match t {
        BlockType::User => "user"@,
        BlockType::Assistant => "assistant"@,
        BlockType::Tool => "tool"@,
        BlockType::System => "system"@,
    }
}

impl BlockType {
    /// The display name of the block type: `user`, `assistant`, `tool` or `system`.
    pub fn to_string(&self) -> (s: String)
        ensures
            s@ == block_type_name(*self),
    {
        match self {
            BlockType::User => "user".to_string(),
            BlockType::Assistant => "assistant".to_string(),
            BlockType::Tool => "tool".to_string(),
            BlockType::System => "system".to_string(),
        }
    }
}

/// Token counts reported for one assistant response (or a sum of them).
#[derive(Debug, Clone, Copy, PartialEq, Eq, Structural)]
pub struct TokenUsage {
    pub input_tokens: u64,
    pub output_tokens: u64,
    pub cache_creation_input_tokens: u64,
    pub cache_read_input_tokens: u64,
}

impl TokenUsage {
    /// All input-side tokens: fresh input plus cache creation plus cache reads.
    pub open spec fn spec_total_input(self) -> int {
        self.input_tokens + self.cache_creation_input_tokens + self.cache_read_input_tokens
    }

    /// Every token of the usage, input side and output.
    pub open spec fn spec_total(self) -> int {
        self.spec_total_input() + self.output_tokens
    }

    /// The component-wise sum of two usages.
    pub open spec fn spec_sum(self, other: TokenUsage) -> (int, int, int, int) {
        (
            self.input_tokens + other.input_tokens,
            self.output_tokens + other.output_tokens,
            self.cache_creation_input_tokens + other.cache_creation_input_tokens,
            self.cache_read_input_tokens + other.cache_read_input_tokens,
        )
    }

    /// Whether adding `other` to `self` keeps every component within `u64`.
    pub open spec fn can_merge(self, other: TokenUsage) -> bool {
        &&& self.input_tokens + other.input_tokens <= u64::MAX
        &&& self.output_tokens + other.output_tokens <= u64::MAX
        &&& self.cache_creation_input_tokens + other.cache_creation_input_tokens <= u64::MAX
        &&& self.cache_read_input_tokens + other.cache_read_input_tokens <= u64::MAX
    }

    /// The usage with every component zero.
    pub open spec fn zero() -> TokenUsage {
        TokenUsage {
            input_tokens: 0,
            output_tokens: 0,
            cache_creation_input_tokens: 0,
            cache_read_input_tokens: 0,
        }
    }

    /// The component-wise sum, as a usage (meaningful when `can_merge` holds).
    pub open spec fn plus(self, other: TokenUsage) -> TokenUsage {
        TokenUsage {
            input_tokens: (self.input_tokens + other.input_tokens) as u64,
            output_tokens: (self.output_tokens + other.output_tokens) as u64,
            cache_creation_input_tokens: (self.cache_creation_input_tokens
                + other.cache_creation_input_tokens) as u64,
            cache_read_input_tokens: (self.cache_read_input_tokens
                + other.cache_read_input_tokens) as u64,
        }
    }

    pub fn total_input(&self) -> (t: u64)
        requires
            self.spec_total_input() <= u64::MAX,
        ensures
            t == self.spec_total_input(),
    {
        self.input_tokens + self.cache_creation_input_tokens + self.cache_read_input_tokens
    }

    pub fn total(&self) -> (t: u64)
        requires
            self.spec_total() <= u64::MAX,
        ensures
            t == self.spec_total(),
    {
        self.total_input() + self.output_tokens
    }

    /// Adds every component of `other` to the matching component of `self`.
    pub fn merge(&mut self, other: &TokenUsage)
        requires
            old(self).can_merge(*other),
        ensures
            *final(self) == old(self).plus(*other),
    {
        self.input_tokens = self.input_tokens + other.input_tokens;
        self.output_tokens = self.output_tokens + other.output_tokens;
        self.cache_creation_input_tokens = self.cache_creation_input_tokens
            + other.cache_creation_input_tokens;
        self.cache_read_input_tokens = self.cache_read_input_tokens + other.cache_read_input_tokens;
    }

    /// `self += other`, the same as `merge`.
    pub fn add_assign(&mut self, other: TokenUsage)
        requires
            old(self).can_merge(other),
        ensures
            *final(self) == old(self).plus(other),
    {
        self.merge(&other);
    }
}

impl Default for TokenUsage {
    fn default() -> (t: TokenUsage)
        ensures
            t == TokenUsage::zero(),
    {
        TokenUsage {
            input_tokens: 0,
            output_tokens: 0,
            cache_creation_input_tokens: 0,
            cache_read_input_tokens: 0,
        }
    }
}

/// Merging is component-wise addition: the total of a merge is the sum of the totals.
pub proof fn lemma_merge_total(a: TokenUsage, b: TokenUsage)
    requires
        a.can_merge(b),
    ensures
        a.plus(b).spec_total() == a.spec_total() + b.spec_total(),
        a.plus(b).spec_total_input() == a.spec_total_input() + b.spec_total_input(),
{
}

/// Merging is commutative.
pub proof fn lemma_merge_commutes(a: TokenUsage, b: TokenUsage)
    requires
        a.can_merge(b),
    ensures
        b.can_merge(a),
        a.plus(b) == b.plus(a),
{
}

/// Merging the zero usage changes nothing.
pub proof fn lemma_merge_zero(a: TokenUsage)
    ensures
        a.can_merge(TokenUsage::zero()),
        a.plus(TokenUsage::zero()) == a,
{
}

/// Per-entry metadata carried by every block.
#[derive(Debug)]
pub struct EntryMetadata {
    pub version: Option<String>,
    pub cwd: Option<String>,
    pub git_branch: Option<String>,
    pub slug: Option<String>,
    pub is_sidechain: bool,
}

/// A copy of an optional string.
pub fn clone_opt_string(s: &Option<String>) -> (r: Option<String>)
    ensures
        r == *s,
{
    match s {
        Some(v) => Some(v.clone()),
        None => None,
    }
}

impl Clone for EntryMetadata {
    fn clone(&self) -> (r: Self)
        ensures
            r == *self,
    {
        EntryMetadata {
            version: clone_opt_string(&self.version),
            cwd: clone_opt_string(&self.cwd),
            git_branch: clone_opt_string(&self.git_branch),
            slug: clone_opt_string(&self.slug),
            is_sidechain: self.is_sidechain,
        }
    }
}

impl Default for EntryMetadata {
    fn default() -> (m: EntryMetadata)
        ensures
            m.version is None && m.cwd is None && m.git_branch is None && m.slug is None
                && !m.is_sidechain,
    {
        EntryMetadata { version: None, cwd: None, git_branch: None, slug: None, is_sidechain: false }
    }
}

/// Where a block came from in the session file.
#[derive(Debug, Clone, Copy, PartialEq, Eq, Structural)]
pub struct RawLineRef {
    /// 1-indexed line number.
    pub line_number: usize,
    pub byte_offset: usize,
    pub byte_length: usize,
}

/// Index of a block in a session.
pub type NodeId = usize;

} // verus!
