//! The store's index from digests to the blocks persisted for them, and the
//! decisions that an insertion makes.

use crate::block::Block;
use crate::digest::bytes_equal;
use crate::compare::{verdict_at, WindowVerdict, lemma_same_content_never_collides};
use crate::naming::{content_file, digest_from_names, fan_out_path, hex_decode, hex_encode, NameError, lemma_stored_names_decode};
use vstd::prelude::*;

verus! {

/// The store: a root directory and an index from digests to blocks.  Each
/// block in the index is the whole of the file that the digest names under
/// the root.
pub struct BlockStore {
    pub path: String,
    entries: Vec<(Vec<u8>, Block)>,
    index: Ghost<Map<Seq<u8>, Block>>,
}

/// What an insertion does next.
pub enum InsertPlan {
    /// The digest is in the index: the new content must be compared with the
    /// stored one.
    CompareWithStored,
    /// The digest is new: its content belongs in `file`, inside the fan-out
    /// directory `dir`.
    Persist { dir: String, file: String },
}

/// A block of one shard over the first `size` bytes of `file`.
pub open spec fn is_whole_file_block(b: Block, file: Seq<char>, size: nat) -> bool {
    &&& b.wf()
    &&& b.size == size
    &&& b.shards@.len() == 1
    &&& b.shards@[0].file@ == file
    &&& b.shards@[0].offset == 0
    &&& b.shards@[0].size == size
}

impl BlockStore {
    /// The root directory of the tree.
    pub closed spec fn root(&self) -> Seq<char> {
        self.path@
    }

    /// The index, as a map from digests to blocks.
    pub closed spec fn index(&self) -> Map<Seq<u8>, Block> {
        self.index@
    }

    /// The index holds each digest once, and each block is the whole of the
    /// file that its digest names under the root.
    pub closed spec fn wf(&self) -> bool {
        &&& forall|i: int, j: int|
            0 <= i < j < self.entries@.len() ==> #[trigger] self.entries@[i].0@
                != #[trigger] self.entries@[j].0@
        &&& forall|i: int|
            0 <= i < self.entries@.len() ==> self.index@.contains_key(
                #[trigger] self.entries@[i].0@,
            ) && self.index@[self.entries@[i].0@] == self.entries@[i].1
        &&& forall|k: Seq<u8>|
            #[trigger] self.index@.contains_key(k) ==> exists|i: int|
                0 <= i < self.entries@.len() && #[trigger] self.entries@[i].0@ == k
        &&& forall|k: Seq<u8>|
            #[trigger] self.index@.contains_key(k) ==> k.len() >= 1 && is_whole_file_block(
                self.index@[k],
                content_file(self.path@, k),
                self.index@[k].size as nat,
            )
    }

    /// An empty store rooted at `path`.
    pub fn empty(path: String) -> (r: BlockStore)
        ensures
            r.wf(),
            r.root() == path@,
            r.index() == Map::<Seq<u8>, Block>::empty(),
    {
        BlockStore { path, entries: Vec::new(), index: Ghost(Map::empty()) }
    }

    fn find(&self, hash: &[u8]) -> (r: Option<usize>)
        requires
            self.wf(),
        ensures
            r is None <==> !self.index().contains_key(hash@),
            r matches Some(i) ==> i < self.entries@.len() && self.entries@[i as int].0@ == hash@,
    {
        let mut i: usize = 0;
        while i < self.entries.len()
            invariant
                self.wf(),
                0 <= i <= self.entries@.len(),
                forall|j: int| 0 <= j < i ==> self.entries@[j].0@ != hash@,
            decreases self.entries@.len() - i,
        {
            if bytes_equal(self.entries[i].0.as_slice(), hash) {
                return Some(i);
            }
            i = i + 1;
        }
        None
    }

    /// The block stored under `hash`, if any.
    pub fn get(&self, hash: &[u8]) -> (r: Option<&Block>)
        requires
            self.wf(),
        ensures
            r is Some <==> self.index().contains_key(hash@),
            r matches Some(b) ==> *b == self.index()[hash@] && is_whole_file_block(
                *b,
                content_file(self.root(), hash@),
                b.size as nat,
            ),
    {
        match self.find(hash) {
            Some(i) => Some(&self.entries[i].1),
            None => None,
        }
    }

    /// Whether a block is stored under `hash`.
    pub fn contains(&self, hash: &[u8]) -> (r: bool)
        requires
            self.wf(),
        ensures
            r == self.index().contains_key(hash@),
    {
        self.find(hash).is_some()
    }

    /// What inserting content under `hash` does: compare it with the stored
    /// content where the digest is known, else persist it at the digest's
    /// place in the tree.
    pub fn plan_insert(&self, hash: &[u8]) -> (r: InsertPlan)
        requires
            self.wf(),
            hash@.len() >= 1,
        ensures
            r is CompareWithStored <==> self.index().contains_key(hash@),
            r matches InsertPlan::Persist { dir, file } ==> dir@ == crate::naming::bucket_dir(
                self.root(),
                hash@,
            ) && file@ == content_file(self.root(), hash@),
    {
        if self.contains(hash) {
            InsertPlan::CompareWithStored
        } else {
            let (dir, file) = fan_out_path(self.path.as_str(), hash);
            InsertPlan::Persist { dir, file }
        }
    }

    /// Records that `size` bytes of content were persisted for `hash` at the
    /// digest's place in the tree.  Returns whether the digest is new; a known
    /// digest leaves the index as it was.
    pub fn register(&mut self, hash: Vec<u8>, size: usize) -> (r: bool)
        requires
            old(self).wf(),
            hash@.len() >= 1,
        ensures
            final(self).wf(),
            final(self).root() == old(self).root(),
            r == !old(self).index().contains_key(hash@),
            !r ==> final(self).index() == old(self).index(),
            r ==> final(self).index().dom() == old(self).index().dom().insert(hash@),
            r ==> forall|k: Seq<u8>|
                k != hash@ && #[trigger] old(self).index().contains_key(k)
                    ==> final(self).index()[k] == old(self).index()[k],
            r ==> is_whole_file_block(
                final(self).index()[hash@],
                content_file(old(self).root(), hash@),
                size as nat,
            ),
    {
        if self.contains(hash.as_slice()) {
            return false;
        }
        let (_, file) = fan_out_path(self.path.as_str(), hash.as_slice());
        let block = Block::whole_file(file, size);
        let ghost key = hash@;
        let ghost old_entries = self.entries@;
        let ghost new_index = self.index@.insert(key, block);
        self.entries.push((hash, block));
        self.index = Ghost(new_index);
        proof {
            assert(self.entries@.len() == old_entries.len() + 1);
            assert forall|i: int| 0 <= i < old_entries.len() implies self.entries@[i] == old_entries[i] by {}
            assert forall|k: Seq<u8>| #[trigger] self.index@.contains_key(k) implies exists|i: int|
                0 <= i < self.entries@.len() && #[trigger] self.entries@[i].0@ == k by {
                if k == key {
                    assert(self.entries@[old_entries.len() as int].0@ == k);
                } else {
                    let i = choose|i: int| 0 <= i < old_entries.len() && #[trigger] old_entries[i].0@ == k;
                    assert(self.entries@[i].0@ == k);
                }
            }
            assert(self.index@.dom() =~= old(self).index@.dom().insert(key));
        }
        true
    }
}

/// The digest and block that a file found in the tree stands for: the digest
/// is the hex text of its directory's name and its own name, and the block is
/// the whole file.
pub fn scanned_block(dir_name: &str, file_name: &str, file: String, size: usize) -> (r: Result<
    (Vec<u8>, Block),
    NameError,
>)
    ensures
        r is Err <==> hex_decode(dir_name@ + file_name@) is None,
        r matches Ok((d, b)) ==> hex_decode(dir_name@ + file_name@) == Some(d@)
            && is_whole_file_block(b, file@, size as nat),
{
    match digest_from_names(dir_name, file_name) {
        Ok(d) => Ok((d, Block::whole_file(file, size))),
        Err(e) => Err(e),
    }
}

/// A block that the store holds under a digest reads back as the content of
/// the digest's file wherever that file holds as many bytes as the block
/// records: what was inserted under the digest.
pub proof fn lemma_stored_block_reads_back(
    s: BlockStore,
    digest: Seq<u8>,
    content: Seq<u8>,
    files: Map<Seq<char>, Seq<u8>>,
)
    requires
        s.wf(),
        s.index().contains_key(digest),
        s.index()[digest].size == content.len(),
        files.contains_key(content_file(s.root(), digest)),
        files[content_file(s.root(), digest)] == content,
    ensures
        s.index()[digest].content(files) == content,
{
    crate::block::lemma_whole_file_content(s.index()[digest], files);
}

/// Once a digest has been stored, inserting it again is a comparison with the
/// stored content, which never reports a collision for the same content: the
/// second insertion stores nothing.
pub proof fn lemma_second_insert_is_duplicate(
    before: Map<Seq<u8>, Block>,
    after: Map<Seq<u8>, Block>,
    digest: Seq<u8>,
    content: Seq<u8>,
)
    requires
        after.dom() == before.dom().insert(digest),
    ensures
        after.contains_key(digest),
        forall|k: nat| #[trigger] verdict_at(content, content, k, crate::compare::WINDOW as nat)
            != WindowVerdict::Collision,
{
    assert(after.dom().contains(digest));
    lemma_same_content_never_collides(content, crate::compare::WINDOW as nat);
}

/// A store opened again over the same tree finds each stored digest again:
/// the names of the digest's file decode to the digest, and a store that
/// holds the digest with the file's size reads back the same content as the
/// store that wrote it.
pub proof fn lemma_restart_finds_content(
    before: BlockStore,
    after: BlockStore,
    digest: Seq<u8>,
    files: Map<Seq<char>, Seq<u8>>,
)
    requires
        before.wf(),
        after.wf(),
        before.root() == after.root(),
        before.index().contains_key(digest),
        after.index().contains_key(digest),
        files.contains_key(content_file(before.root(), digest)),
        before.index()[digest].size == files[content_file(before.root(), digest)].len(),
        after.index()[digest].size == files[content_file(after.root(), digest)].len(),
    ensures
        hex_decode(
            hex_encode(digest).subrange(0, 2) + hex_encode(digest).subrange(
                2,
                2 * digest.len() as int,
            ),
        ) == Some(digest),
        after.index()[digest].content(files) == before.index()[digest].content(files),
        before.index()[digest].content(files) == files[content_file(before.root(), digest)],
{
    lemma_stored_names_decode(digest);
    crate::block::lemma_whole_file_content(before.index()[digest], files);
    crate::block::lemma_whole_file_content(after.index()[digest], files);
}

} // verus!
