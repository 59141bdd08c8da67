//! One-hot encoding of token ids.
use vstd::prelude::*;

verus! {

/// `mask` lays out the one-hot rows of `token_ids` over a vocabulary of
/// `vocab_size` tokens, row after row: cell `c` of row `i` is set exactly
/// when token `i` is `c`.
pub open spec fn is_one_hot_layout(token_ids: Seq<u32>, vocab_size: nat, mask: Seq<bool>) -> bool {
    &&& mask.len() == token_ids.len() * vocab_size
    &&& forall|i: int, c: int|
        0 <= i < token_ids.len() && 0 <= c < vocab_size ==> #[trigger] mask[i * vocab_size + c] == (
        token_ids[i] as int == c)
}

/// The one-hot rows of a list of token ids, laid out row after row: row `i`
/// has `vocab_size` cells, and its cell `c` is set exactly when token `i` is
/// `c`.  A token outside the vocabulary leaves its row empty.
pub fn one_hot_mask(token_ids: &[u32], vocab_size: usize) -> (mask: Vec<bool>)
    requires
        token_ids@.len() * vocab_size <= usize::MAX,
    ensures
        is_one_hot_layout(token_ids@, vocab_size as nat, mask@),
{
    let batch = token_ids.len();
    let mut mask: Vec<bool> = Vec::new();
    let mut i: usize = 0;
    while i < batch
        invariant
            batch == token_ids@.len(),
            batch * vocab_size <= usize::MAX,
            0 <= i <= batch,
            mask@.len() == i * vocab_size,
            forall|r: int, c: int|
                0 <= r < i && 0 <= c < vocab_size ==> #[trigger] mask@[r * vocab_size + c] == (
                token_ids@[r] as int == c),
        decreases batch - i,
    {
        let token = token_ids[i];
        let mut c: usize = 0;
        assert(i * vocab_size + vocab_size <= batch * vocab_size) by (nonlinear_arith)
            requires
                i < batch,
        ;
        while c < vocab_size
            invariant
                batch == token_ids@.len(),
                batch * vocab_size <= usize::MAX,
                i < batch,
                token == token_ids@[i as int],
                0 <= c <= vocab_size,
                mask@.len() == i * vocab_size + c,
                forall|r: int, d: int|
                    0 <= r < i && 0 <= d < vocab_size ==> #[trigger] mask@[r * vocab_size + d] == (
                    token_ids@[r] as int == d),
                forall|d: int|
                    0 <= d < c ==> #[trigger] mask@[i * vocab_size + d] == (token as int == d),
            decreases vocab_size - c,
        {
            let ghost before = mask@;
            mask.push(token as usize == c);
            assert forall|r: int, d: int| 0 <= r < i && 0 <= d < vocab_size implies #[trigger] mask@[r
                * vocab_size + d] == (token_ids@[r] as int == d) by {
                assert(r * vocab_size + d < i * vocab_size) by (nonlinear_arith)
                    requires
                        r < i,
                        d < vocab_size,
                ;
                assert(mask@[r * vocab_size + d] == before[r * vocab_size + d]);
            }
            c = c + 1;
        }
        assert((i + 1) * vocab_size == i * vocab_size + vocab_size) by (nonlinear_arith);
        i = i + 1;
    }
    mask
}

/// Each row has at most one cell set, and exactly one, at the token's own
/// cell, when the token is in the vocabulary.
pub proof fn lemma_one_hot_rows(token_ids: Seq<u32>, vocab_size: nat, mask: Seq<bool>)
    requires
        is_one_hot_layout(token_ids, vocab_size, mask),
    ensures
        forall|i: int, c: int, d: int|
            0 <= i < token_ids.len() && 0 <= c < vocab_size && 0 <= d < vocab_size && #[trigger] mask[i
                * vocab_size + c] && #[trigger] mask[i * vocab_size + d] ==> c == d,
        forall|i: int|
            0 <= i < token_ids.len() && token_ids[i] < vocab_size ==> #[trigger] mask[i * vocab_size
                + token_ids[i] as int],
{
}

} // verus!
