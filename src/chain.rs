//! Reading a block as one stream: the position in the block's content and
//! the next range of a shard's file that continues it.  Each file is opened
//! only when its shard's turn comes.

use crate::block::{
    chain_bytes, lemma_chain_concat, lemma_chain_len, lemma_total_size_prefix_grows, shard_bytes,
    shard_readable, total_size, Block, BlockShard,
};
use vstd::prelude::*;

verus! {

/// A position in a block's stream: a shard and the bytes of it already read.
pub struct ChainCursor {
    pub shard: usize,
    pub consumed: usize,
}

/// Read `len` bytes of shard `shard`, from `start` bytes into its range.
#[derive(Debug, PartialEq, Eq, Structural)]
pub struct ReadRequest {
    pub shard: usize,
    pub start: usize,
    pub len: usize,
}

/// Every shard's range is held by the files.
pub open spec fn all_readable(shards: Seq<BlockShard>, files: Map<Seq<char>, Seq<u8>>) -> bool {
    forall|i: int| 0 <= i < shards.len() ==> shard_readable(#[trigger] shards[i], files)
}

impl ChainCursor {
    /// The cursor is at a shard with bytes left, or past the last shard.
    pub open spec fn wf(&self, shards: Seq<BlockShard>) -> bool {
        &&& self.shard <= shards.len()
        &&& self.shard < shards.len() ==> self.consumed < shards[self.shard as int].size
        &&& self.shard == shards.len() ==> self.consumed == 0
    }

    /// The number of bytes of the stream before the cursor.
    pub open spec fn position(&self, shards: Seq<BlockShard>) -> nat {
        total_size(shards.subrange(0, self.shard as int)) + self.consumed as nat
    }

    fn skip_empty(block: &Block, from: usize) -> (r: usize)
        requires
            from <= block.shards@.len(),
        ensures
            from <= r <= block.shards@.len(),
            r < block.shards@.len() ==> block.shards@[r as int].size > 0,
            total_size(block.shards@.subrange(0, r as int)) == total_size(
                block.shards@.subrange(0, from as int),
            ),
    {
        let mut i = from;
        while i < block.shards.len() && block.shards[i].size == 0
            invariant
                from <= i <= block.shards@.len(),
                total_size(block.shards@.subrange(0, i as int)) == total_size(
                    block.shards@.subrange(0, from as int),
                ),
            decreases block.shards@.len() - i,
        {
            proof {
                assert(block.shards@.subrange(0, i + 1).drop_last() =~= block.shards@.subrange(
                    0,
                    i as int,
                ));
            }
            i = i + 1;
        }
        i
    }

    /// A cursor at the start of a block's stream.
    pub fn start(block: &Block) -> (r: ChainCursor)
        ensures
            r.wf(block.shards@),
            r.position(block.shards@) == 0,
    {
        let s = Self::skip_empty(block, 0);
        ChainCursor { shard: s, consumed: 0 }
    }

    /// The next range to read, at most `max` bytes long; none at the end of
    /// the stream.  The range's bytes are those of the stream at the cursor.
    pub fn next_read(&self, block: &Block, max: usize) -> (r: Option<ReadRequest>)
        requires
            self.wf(block.shards@),
            block.wf(),
            max > 0,
        ensures
            r is None <==> self.position(block.shards@) == block.size,
            r matches Some(q) ==> {
                &&& q.shard == self.shard
                &&& q.start == self.consumed
                &&& q.len > 0
                &&& q.len <= max
                &&& q.len == max || q.start + q.len == block.shards@[q.shard as int].size
                &&& q.start + q.len <= block.shards@[q.shard as int].size
                &&& self.position(block.shards@) + q.len <= block.size
                &&& forall|files: Map<Seq<char>, Seq<u8>>|
                    #![trigger chain_bytes(block.shards@, files)]
                    all_readable(block.shards@, files) ==> chain_bytes(
                        block.shards@,
                        files,
                    ).subrange(
                        self.position(block.shards@) as int,
                        self.position(block.shards@) + q.len,
                    ) == shard_bytes(block.shards@[q.shard as int], files).subrange(
                        q.start as int,
                        q.start + q.len,
                    )
            },
    {
        let ghost shards = block.shards@;
        if self.shard >= block.shards.len() {
            assert(shards.subrange(0, shards.len() as int) =~= shards);
            return None;
        }
        let i = self.shard;
        proof {
            assert(shards.subrange(0, i + 1).drop_last() =~= shards.subrange(0, i as int));
            lemma_total_size_prefix_grows(shards, i + 1);
        }
        let left = block.shards[i].size - self.consumed;
        let len = if left < max { left } else { max };
        proof {
            assert forall|files: Map<Seq<char>, Seq<u8>>|
                all_readable(shards, files) implies #[trigger] chain_bytes(shards, files).subrange(
                self.position(shards) as int,
                self.position(shards) + len,
            ) == shard_bytes(shards[i as int], files).subrange(
                self.consumed as int,
                self.consumed + len,
            ) by {
                lemma_shard_in_chain(shards, files, i as int);
                let p = total_size(shards.subrange(0, i as int));
                let a = self.consumed as int;
                let b = self.consumed + len;
                assert(chain_bytes(shards, files).subrange(p + a, p + b) == shard_bytes(
                    shards[i as int],
                    files,
                ).subrange(a, b));
            }
        }
        Some(ReadRequest { shard: i, start: self.consumed, len })
    }

    /// Moves the cursor past `n` bytes of the current shard, read as a
    /// request from `next_read` allowed.
    pub fn advance(&mut self, block: &Block, n: usize)
        requires
            old(self).wf(block.shards@),
            old(self).shard < block.shards@.len(),
            old(self).consumed + n <= block.shards@[old(self).shard as int].size,
        ensures
            final(self).wf(block.shards@),
            final(self).position(block.shards@) == old(self).position(block.shards@) + n,
    {
        let ghost shards = block.shards@;
        let size = block.shards[self.shard].size;
        if self.consumed + n == size {
            let i = self.shard;
            assert(i < block.shards.len());
            proof {
                assert(shards.subrange(0, i + 1).drop_last() =~= shards.subrange(0, i as int));
            }
            self.shard = Self::skip_empty(block, i + 1);
            self.consumed = 0;
        } else {
            self.consumed = self.consumed + n;
        }
    }
}

/// Within the stream of a shard sequence whose ranges the files hold, the
/// bytes of shard `i` stand right after those of the shards before it.
pub proof fn lemma_shard_in_chain(shards: Seq<BlockShard>, files: Map<Seq<char>, Seq<u8>>, i: int)
    requires
        all_readable(shards, files),
        0 <= i < shards.len(),
    ensures
        ({
            let p = total_size(shards.subrange(0, i));
            let sb = shard_bytes(shards[i], files);
            &&& sb.len() == shards[i].size
            &&& forall|j: int|
                0 <= j < shards[i].size ==> #[trigger] chain_bytes(shards, files)[p + j] == sb[j]
            &&& forall|a: int, b: int|
                0 <= a <= b <= shards[i].size ==> #[trigger] chain_bytes(shards, files).subrange(
                    p + a,
                    p + b,
                ) == sb.subrange(a, b)
        }),
{
    let pre = shards.subrange(0, i);
    let one = seq![shards[i]];
    let post = shards.subrange(i + 1, shards.len() as int);
    assert(shards =~= pre + (one + post));
    lemma_chain_concat(pre, one + post, files);
    lemma_chain_concat(one, post, files);
    assert(one.drop_last() =~= Seq::<BlockShard>::empty());
    assert(chain_bytes(one.drop_last(), files) == Seq::<u8>::empty());
    assert(chain_bytes(one, files) =~= shard_bytes(shards[i], files));
    assert forall|k: int| 0 <= k < pre.len() implies shard_readable(#[trigger] pre[k], files) by {
        assert(pre[k] == shards[k]);
    }
    lemma_chain_len(pre, files);
    assert(shard_readable(shards[i], files));
    let p = total_size(pre);
    let sb = shard_bytes(shards[i], files);
    let c = chain_bytes(shards, files);
    assert(c == chain_bytes(pre, files) + (sb + chain_bytes(post, files)));
    assert forall|a: int, b: int| 0 <= a <= b <= shards[i].size implies #[trigger] c.subrange(
        p + a,
        p + b,
    ) == sb.subrange(a, b) by {
        assert(c.subrange(p + a, p + b) =~= sb.subrange(a, b));
    }
}

} // verus!
