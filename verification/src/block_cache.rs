//! What is kept of blocks that may still be needed.

use vstd::prelude::*;

use crate::keymap::KeyMap;
use crate::primitives::B256;
use crate::seqs::lemma_take_step;

verus! {

/// What is kept of a block.
#[derive(Clone, Copy, Debug, PartialEq, Eq, Structural)]
pub struct BlockCacheEntry {
    pub block_number: u64,
}

/// Blocks by their id.
pub type BlockCache = KeyMap<B256, BlockCacheEntry>;

/// What is kept once block `last_finalized` is final: the block before it and everything later.
pub open spec fn pruned(cache: Map<B256, BlockCacheEntry>, last_finalized: u64) -> Map<
    B256,
    BlockCacheEntry,
> {
    cache.restrict(
        Set::new(
            |id: B256| cache.contains_key(id) && cache[id].block_number >= last_finalized - 1,
        ),
    )
}

/// Drops the blocks that come before the one before `last_finalized`.
pub fn prune_block_cache(cache: &mut BlockCache, last_finalized: u64)
    ensures
        final(cache)@ == pruned(old(cache)@, last_finalized),
{
    if last_finalized <= 1 {
        assert(cache@ =~= pruned(cache@, last_finalized));
        return;
    }
    let ids = cache.keys();
    let mut i: usize = 0;
    while i < ids.len()
        invariant
            i <= ids@.len(),
            last_finalized > 1,
            ids@.to_set() == old(cache)@.dom(),
            forall|id: B256| #[trigger]
                cache@.contains_key(id) <==> old(cache)@.contains_key(id) && !(ids@.take(
                    i as int,
                ).contains(id) && old(cache)@[id].block_number < last_finalized - 1),
            forall|id: B256| cache@.contains_key(id) ==> #[trigger] cache@[id] == old(cache)@[id],
        decreases ids@.len() - i,
    {
        let id = ids[i];
        proof {
            assert(ids@.to_set().contains(id));
            lemma_take_step(ids@, i as int);
        }
        let drop = match cache.get(&id) {
            Some(entry) => entry.block_number < last_finalized - 1,
            None => false,
        };
        if drop {
            cache.remove(&id);
        }
        i = i + 1;
    }
    proof {
        assert(ids@.take(i as int) =~= ids@);
        assert forall|id: B256| ids@.contains(id) <==> old(cache)@.contains_key(id) by {
            assert(ids@.to_set().contains(id) <==> ids@.contains(id));
        }
        assert(cache@ =~= pruned(old(cache)@, last_finalized));
    }
}

/// Keeps a block, unless one is kept under this id. Returns whether it was not.
pub fn insert_block_cache(cache: &mut BlockCache, block_id: B256, entry: BlockCacheEntry) -> (r: bool)
    ensures
        r == !old(cache)@.contains_key(block_id),
        final(cache)@ == if old(cache)@.contains_key(block_id) {
            old(cache)@
        } else {
            old(cache)@.insert(block_id, entry)
        },
{
    if cache.contains_key(&block_id) {
        return false;
    }
    cache.insert(block_id, entry);
    true
}

/// Once a block is final, exactly the blocks from the one before it on are kept, as they were.
pub proof fn lemma_block_before_the_final_one_is_kept(
    cache: Map<B256, BlockCacheEntry>,
    last_finalized: u64,
    id: B256,
)
    ensures
        pruned(cache, last_finalized).contains_key(id) <==> cache.contains_key(id)
            && cache[id].block_number + 1 >= last_finalized,
        pruned(cache, last_finalized).contains_key(id) ==> pruned(cache, last_finalized)[id]
            == cache[id],
{
}

} // verus!
