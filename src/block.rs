//! Blocks: logical content made of byte ranges of files, read in order.

use vstd::prelude::*;

verus! {

/// A view of `size` bytes of `file`, starting at `offset`.  It does not own
/// the file, which must stay as it is while the view is in use.
#[derive(Debug)]
pub struct BlockShard {
    pub file: String,
    pub offset: usize,
    pub size: usize,
}

/// Content made of shards read one after another.
#[derive(Debug)]
pub struct Block {
    pub shards: Vec<BlockShard>,
    pub size: usize,
}

/// The number of bytes that a sequence of shards spans.
pub open spec fn total_size(shards: Seq<BlockShard>) -> nat
    decreases shards.len(),
{
    if shards.len() == 0 {
        0
    } else {
        total_size(shards.drop_last()) + shards.last().size as nat
    }
}

/// Whether the files hold the whole range of a shard.
pub open spec fn shard_readable(sh: BlockShard, files: Map<Seq<char>, Seq<u8>>) -> bool {
    files.contains_key(sh.file@) && sh.offset + sh.size <= files[sh.file@].len()
}

/// The bytes of a shard's range, given what each file holds.
pub open spec fn shard_bytes(sh: BlockShard, files: Map<Seq<char>, Seq<u8>>) -> Seq<u8> {
    files[sh.file@].subrange(sh.offset as int, sh.offset + sh.size)
}

/// The bytes of a sequence of shards: each shard's range, in order.
pub open spec fn chain_bytes(shards: Seq<BlockShard>, files: Map<Seq<char>, Seq<u8>>) -> Seq<u8>
    decreases shards.len(),
{
    if shards.len() == 0 {
        Seq::empty()
    } else {
        chain_bytes(shards.drop_last(), files) + shard_bytes(shards.last(), files)
    }
}

impl Block {
    /// The size is the sum of the shards' sizes.
    pub open spec fn wf(&self) -> bool {
        self.size == total_size(self.shards@)
    }

    /// Whether the files hold every shard's range.
    pub open spec fn readable(&self, files: Map<Seq<char>, Seq<u8>>) -> bool {
        forall|i: int| 0 <= i < self.shards@.len() ==> shard_readable(#[trigger] self.shards@[i], files)
    }

    /// The content of the block, given what each file holds.
    pub open spec fn content(&self, files: Map<Seq<char>, Seq<u8>>) -> Seq<u8> {
        chain_bytes(self.shards@, files)
    }

    /// A block of one shard that spans the first `size` bytes of `file`.
    pub fn whole_file(file: String, size: usize) -> (r: Block)
        ensures
            r.wf(),
            r.size == size,
            r.shards@ == seq![(BlockShard { file: file, offset: 0, size: size })],
    {
        let mut shards: Vec<BlockShard> = Vec::new();
        shards.push(BlockShard { file, offset: 0, size });
        let r = Block { shards, size };
        assert(r.shards@.drop_last() =~= Seq::<BlockShard>::empty());
        assert(total_size(r.shards@.drop_last()) == 0);
        r
    }

    /// A block of the given shards, sized by their sum; none where the sum
    /// does not fit in a `usize`.
    pub fn from_shards(shards: Vec<BlockShard>) -> (r: Option<Block>)
        ensures
            r is Some <==> total_size(shards@) <= usize::MAX,
            r matches Some(b) ==> b.wf() && b.shards@ == shards@,
    {
        let mut sum: usize = 0;
        let mut i: usize = 0;
        while i < shards.len()
            invariant
                0 <= i <= shards@.len(),
                sum == total_size(shards@.subrange(0, i as int)),
            decreases shards@.len() - i,
        {
            proof {
                assert(shards@.subrange(0, i + 1).drop_last() =~= shards@.subrange(0, i as int));
                lemma_total_size_prefix_grows(shards@, i as int + 1);
            }
            let s = shards[i].size;
            if s > usize::MAX - sum {
                return None;
            }
            sum = sum + s;
            i = i + 1;
        }
        assert(shards@.subrange(0, shards@.len() as int) =~= shards@);
        Some(Block { shards, size: sum })
    }

    /// Whether the recorded size is the sum of the shards' sizes.
    pub fn sizes_agree(&self) -> (r: bool)
        ensures
            r == self.wf(),
    {
        let mut sum: usize = 0;
        let mut i: usize = 0;
        while i < self.shards.len()
            invariant
                0 <= i <= self.shards@.len(),
                sum == total_size(self.shards@.subrange(0, i as int)),
                sum <= self.size,
            decreases self.shards@.len() - i,
        {
            proof {
                assert(self.shards@.subrange(0, i + 1).drop_last() =~= self.shards@.subrange(0, i as int));
            }
            let s = self.shards[i].size;
            if s > self.size - sum {
                proof {
                    lemma_total_size_prefix_grows(self.shards@, i as int + 1);
                }
                return false;
            }
            sum = sum + s;
            i = i + 1;
        }
        assert(self.shards@.subrange(0, self.shards@.len() as int) =~= self.shards@);
        sum == self.size
    }
}

/// A prefix of a shard sequence spans no more bytes than the whole.
pub proof fn lemma_total_size_prefix_grows(s: Seq<BlockShard>, n: int)
    requires
        0 <= n <= s.len(),
    ensures
        total_size(s.subrange(0, n)) <= total_size(s),
    decreases s.len(),
{
    if n < s.len() {
        assert(s.drop_last().subrange(0, n) =~= s.subrange(0, n));
        lemma_total_size_prefix_grows(s.drop_last(), n);
    } else {
        assert(s.subrange(0, n) =~= s);
    }
}

/// The bytes of two shard sequences read one after the other are the bytes
/// of the first followed by those of the second.
pub proof fn lemma_chain_concat(
    a: Seq<BlockShard>,
    b: Seq<BlockShard>,
    files: Map<Seq<char>, Seq<u8>>,
)
    ensures
        chain_bytes(a + b, files) == chain_bytes(a, files) + chain_bytes(b, files),
    decreases b.len(),
{
    if b.len() == 0 {
        assert(a + b =~= a);
        assert(chain_bytes(a, files) + Seq::empty() =~= chain_bytes(a, files));
    } else {
        assert((a + b).drop_last() =~= a + b.drop_last());
        assert((a + b).last() == b.last());
        lemma_chain_concat(a, b.drop_last(), files);
        assert(chain_bytes(a + b, files) =~= chain_bytes(a, files) + chain_bytes(b, files));
    }
}

/// Where the files hold every shard's range, a shard sequence yields exactly
/// as many bytes as its shards span.
pub proof fn lemma_chain_len(shards: Seq<BlockShard>, files: Map<Seq<char>, Seq<u8>>)
    requires
        forall|i: int| 0 <= i < shards.len() ==> shard_readable(#[trigger] shards[i], files),
    ensures
        chain_bytes(shards, files).len() == total_size(shards),
    decreases shards.len(),
{
    if shards.len() > 0 {
        let p = shards.drop_last();
        assert forall|i: int| 0 <= i < p.len() implies shard_readable(#[trigger] p[i], files) by {
            assert(p[i] == shards[i]);
        }
        lemma_chain_len(p, files);
        assert(shard_readable(shards[shards.len() - 1], files));
    }
}

/// A well-formed block whose shards the files hold yields exactly `size`
/// bytes.
pub proof fn lemma_block_len(b: Block, files: Map<Seq<char>, Seq<u8>>)
    requires
        b.wf(),
        b.readable(files),
    ensures
        b.content(files).len() == b.size,
{
    lemma_chain_len(b.shards@, files);
}

/// A block of one shard over the whole of a file yields that file's bytes.
pub proof fn lemma_whole_file_content(b: Block, files: Map<Seq<char>, Seq<u8>>)
    requires
        b.shards@.len() == 1,
        b.shards@[0].offset == 0,
        files.contains_key(b.shards@[0].file@),
        b.shards@[0].size == files[b.shards@[0].file@].len(),
    ensures
        b.content(files) == files[b.shards@[0].file@],
{
    let sh = b.shards@[0];
    assert(b.shards@.drop_last() =~= Seq::<BlockShard>::empty());
    assert(chain_bytes(b.shards@.drop_last(), files) == Seq::<u8>::empty());
    assert(b.content(files) =~= files[sh.file@]);
}

} // verus!
