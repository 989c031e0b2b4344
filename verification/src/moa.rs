//! Mixture-of-agents routing reduced to a flat table: token `i` goes to
//! expert `table[i]`.

use vstd::prelude::*;

verus! {

/// Flat mapping from token index to its primary expert.
pub struct MoaIndexTable {
    /// Primary expert of each token.
    pub table: Vec<usize>,
    /// Number of tokens the table covers.
    pub num_tokens: usize,
    /// Number of available experts.
    pub num_experts: usize,
}

impl MoaIndexTable {
    /// A table of `num_tokens` tokens, all routed to expert 0.
    pub fn new(num_tokens: usize, num_experts: usize) -> (t: MoaIndexTable)
        requires
            num_experts > 0,
        ensures
            t.table@ == Seq::new(num_tokens as nat, |i: int| 0usize),
            t.num_tokens == num_tokens,
            t.num_experts == num_experts,
    {
        let mut table: Vec<usize> = Vec::new();
        let mut i: usize = 0;
        while i < num_tokens
            invariant
                0 <= i <= num_tokens,
                table@ == Seq::new(i as nat, |k: int| 0usize),
            decreases num_tokens - i,
        {
            table.push(0);
            assert(table@ =~= Seq::new((i + 1) as nat, |k: int| 0usize));
            i += 1;
        }
        MoaIndexTable { table, num_tokens, num_experts }
    }

    /// The primary expert of `token`.
    pub fn expert_of(&self, token: usize) -> (e: usize)
        requires
            token < self.table@.len(),
        ensures
            e == self.table@[token as int],
    {
        self.table[token]
    }
}

} // verus!
