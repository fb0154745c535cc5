use vstd::prelude::*;
use crate::block::{block_size, genesis_difficulty_bytes, header_hash, is_genesis, Block, BlockView};
use crate::hash::{bytes_le, H256};

verus! {

/// Whether a stored block was mined here or received from a peer.
#[derive(Clone, Copy, Debug)]
pub enum BlockOrigin {
    Mined,
    Received { delay_ms: u128 },
}

/// The block-tree: every known block by hash with its height, the current
/// tip, the network target, the buffer of blocks whose parent is not yet
/// known, and the origin of each block seen.
///
/// Blocks are kept in insertion order; index 0 is genesis.
pub struct Blockchain {
    blocks: Vec<Block>,
    hashes: Vec<H256>,
    heights: Vec<u64>,
    parent_index: Ghost<Seq<int>>,
    tip: usize,
    difficulty: H256,
    orphans: Vec<Block>,
    origins: Vec<(H256, BlockOrigin)>,
}

/// Whether `b` meets the proof-of-work target it declares, and declares `d`.
pub open spec fn pow_ok(b: BlockView, d: H256) -> bool {
    bytes_le(header_hash(b.header), b.header.difficulty@) && b.header.difficulty == d
}

impl Blockchain {
    /// The stored blocks, in insertion order.
    pub closed spec fn spec_blocks(&self) -> Seq<BlockView> {
        self.blocks@.map_values(|b: Block| b@)
    }

    /// The hash of each stored block, at the same index.
    pub closed spec fn spec_hashes(&self) -> Seq<H256> {
        self.hashes@
    }

    /// The height of each stored block, at the same index.
    pub closed spec fn spec_heights(&self) -> Seq<u64> {
        self.heights@
    }

    /// Index of the tip among the stored blocks.
    pub closed spec fn spec_tip(&self) -> int {
        self.tip as int
    }

    pub closed spec fn spec_difficulty(&self) -> H256 {
        self.difficulty
    }

    /// The orphan buffer, in arrival order.
    pub closed spec fn spec_orphans(&self) -> Seq<BlockView> {
        self.orphans@.map_values(|b: Block| b@)
    }

    /// The recorded origins, one entry per hash.
    pub closed spec fn spec_origins(&self) -> Seq<(H256, BlockOrigin)> {
        self.origins@
    }

    pub open spec fn len(&self) -> int {
        self.spec_blocks().len() as int
    }

    pub open spec fn contains(&self, h: H256) -> bool {
        self.spec_hashes().contains(h)
    }

    /// Index of the stored block with hash `h`.
    pub open spec fn index_of(&self, h: H256) -> int {
        choose|i: int| 0 <= i < self.spec_hashes().len() && self.spec_hashes()[i] == h
    }

    pub open spec fn height_of(&self, h: H256) -> int {
        self.spec_heights()[self.index_of(h)] as int
    }

    pub open spec fn tip_hash(&self) -> H256 {
        self.spec_hashes()[self.spec_tip()]
    }

    pub open spec fn tip_height(&self) -> int {
        self.spec_heights()[self.spec_tip()] as int
    }

    /// Whether a block with the identity of `b` is stored.
    pub open spec fn has_block(&self, b: BlockView) -> bool {
        exists|i: int| 0 <= i < self.spec_hashes().len() && (#[trigger] self.spec_hashes()[i])@ == header_hash(b.header)
    }

    /// `new` is `old` with `b` appended as a child of its parent, the tip
    /// moving to it only when it is strictly taller than the old tip.
    pub open spec fn appended(old: Blockchain, new: Blockchain, b: BlockView) -> bool {
        let h = old.height_of(b.header.parent) + 1;
        &&& new.spec_blocks() == old.spec_blocks().push(b)
        &&& new.spec_hashes().len() == old.len() + 1
        &&& new.spec_hashes().drop_last() == old.spec_hashes()
        &&& new.spec_hashes().last()@ == header_hash(b.header)
        &&& new.spec_heights() == old.spec_heights().push(h as u64)
        &&& new.spec_tip() == if h > old.tip_height() { old.len() } else { old.spec_tip() }
        &&& new.spec_difficulty() == old.spec_difficulty()
        &&& new.spec_orphans() == old.spec_orphans()
    }

    /// Whether `h` is the hash of a block stored at index `from` or later.
    pub open spec fn stored_since(&self, from: int, h: H256) -> bool {
        exists|k: int| from <= k < self.spec_hashes().len() && #[trigger] self.spec_hashes()[k] == h
    }

    /// `new` is `old` after `b` went in together with every buffered block
    /// that its arrival connects to the tree, and `new_out` is `old_out`
    /// followed by the hashes of the blocks that went in, in the order they
    /// went in. A block that is already stored changes nothing.
    pub open spec fn inserted_recursively(
        old: Blockchain,
        new: Blockchain,
        b: BlockView,
        old_out: Seq<H256>,
        new_out: Seq<H256>,
    ) -> bool {
        &&& Blockchain::grew_recursively(old, new, b, old_out, new_out)
        &&& new.spec_origins() == old.spec_origins()
        &&& old.has_block(b) ==> new == old
    }

    /// What `inserted_recursively` says of the tree, the orphan buffer and
    /// the list of inserted hashes, leaving the origins aside.
    pub open spec fn grew_recursively(
        old: Blockchain,
        new: Blockchain,
        b: BlockView,
        old_out: Seq<H256>,
        new_out: Seq<H256>,
    ) -> bool {
        let n = old.len();
        if old.has_block(b) {
            new.same_tree(&old) && new.spec_orphans() == old.spec_orphans() && new_out == old_out
        } else {
            &&& new.len() > n
            &&& new.spec_blocks().take(n) == old.spec_blocks()
            &&& new.spec_hashes().take(n) == old.spec_hashes()
            &&& new.spec_heights().take(n) == old.spec_heights()
            &&& new.spec_blocks()[n] == b
            &&& forall|k: int| n < k < new.len() ==> old.spec_orphans().contains(#[trigger] new.spec_blocks()[k])
            &&& new_out == old_out + new.spec_hashes().skip(n)
            &&& forall|o: BlockView|
                old.spec_orphans().contains(o) && new.stored_since(n, o.header.parent) ==> #[trigger] new.has_block(o)
            &&& forall|o: BlockView|
                #[trigger] new.spec_orphans().contains(o) <==> old.spec_orphans().contains(o) && !new.stored_since(
                    n,
                    o.header.parent,
                )
            &&& new.spec_orphans() == old.spec_orphans().filter(waiting_outside(new, n))
            &&& forall|k: int| n < k < new.len() ==> #[trigger] new.parent_went_in_before(n, k)
            &&& (forall|k: int| n <= k < new.len() ==> #[trigger] new.spec_heights()[k] <= old.tip_height())
                ==> new.spec_tip() == old.spec_tip()
            &&& new.spec_difficulty() == old.spec_difficulty()
        }
    }

    /// The parent of the block at `k` is one stored at an index from `from`
    /// up to, not including, `k`.
    pub open spec fn parent_went_in_before(&self, from: int, k: int) -> bool {
        exists|j: int| from <= j < k && #[trigger] self.spec_hashes()[j] == self.spec_blocks()[k].header.parent
    }

    /// Everything but the orphan buffer and the origins is the same.
    pub open spec fn same_tree(&self, other: &Blockchain) -> bool {
        &&& self.spec_blocks() == other.spec_blocks()
        &&& self.spec_hashes() == other.spec_hashes()
        &&& self.spec_heights() == other.spec_heights()
        &&& self.spec_tip() == other.spec_tip()
        &&& self.spec_difficulty() == other.spec_difficulty()
    }

    /// The structural invariant of the block-tree.
    pub closed spec fn wf(&self) -> bool {
        let n = self.blocks@.len();
        let pi = self.parent_index@;
        &&& n >= 1
        &&& self.hashes@.len() == n
        &&& self.heights@.len() == n
        &&& pi.len() == n
        &&& forall|i: int| 0 <= i < n ==> (#[trigger] self.hashes@[i])@ == header_hash(self.blocks@[i].header)
        &&& forall|i: int, j: int| 0 <= i < n && 0 <= j < n && i != j ==> self.hashes@[i] != self.hashes@[j]
        &&& is_genesis(self.blocks@[0]@)
        &&& self.heights@[0] == 0
        &&& forall|i: int| 0 < i < n ==> {
            &&& 0 <= #[trigger] pi[i] < i
            &&& self.hashes@[pi[i]] == self.blocks@[i].header.parent
            &&& self.heights@[i] == self.heights@[pi[i]] + 1
        }
        &&& forall|i: int| 0 <= i < n ==> #[trigger] self.heights@[i] <= i
        &&& self.tip < n
        &&& forall|i: int| 0 <= i < n ==> #[trigger] self.heights@[i] <= self.heights@[self.tip as int]
        &&& forall|i: int| 0 <= i < self.tip ==> #[trigger] self.heights@[i] < self.heights@[self.tip as int]
        &&& self.difficulty@ == genesis_difficulty_bytes()
        &&& forall|i: int, j: int|
            0 <= i < self.origins@.len() && 0 <= j < self.origins@.len() && i != j
                ==> self.origins@[i].0 != self.origins@[j].0
    }

    /// Every stored block but genesis, and every buffered block, meets the
    /// network target.
    pub closed spec fn pow_gated(&self) -> bool {
        &&& forall|i: int| 0 < i < self.blocks@.len() ==> pow_ok(#[trigger] self.blocks@[i]@, self.difficulty)
        &&& forall|i: int| 0 <= i < self.orphans@.len() ==> pow_ok(#[trigger] self.orphans@[i]@, self.difficulty)
    }

    proof fn lemma_views(&self)
        ensures
            self.spec_blocks().len() == self.blocks@.len(),
            forall|i: int| 0 <= i < self.blocks@.len() ==> #[trigger] self.spec_blocks()[i] == self.blocks@[i]@,
            self.spec_orphans().len() == self.orphans@.len(),
            forall|i: int| 0 <= i < self.orphans@.len() ==> #[trigger] self.spec_orphans()[i] == self.orphans@[i]@,
    {
    }

    /// Index of the stored block with hash `h`, if any.
    fn find(&self, h: &H256) -> (r: Option<usize>)
        requires
            self.wf(),
        ensures
            match r {
                Some(i) => i < self.hashes@.len() && self.hashes@[i as int] == *h && i == self.index_of(*h),
                None => !self.contains(*h),
            },
    {
        let mut i: usize = 0;
        while i < self.hashes.len()
            invariant
                self.wf(),
                i <= self.hashes@.len(),
                forall|j: int| 0 <= j < i ==> self.hashes@[j] != *h,
            decreases self.hashes@.len() - i,
        {
            if self.hashes[i].equals(h) {
                proof {
                    assert(self.spec_hashes()[i as int] == *h);
                }
                return Some(i);
            }
            i = i + 1;
        }
        None
    }

    /// A block-tree holding only the genesis block, which is also the tip.
    pub fn new() -> (r: Blockchain)
        ensures
            r.wf(),
            r.len() == 1,
            is_genesis(r.spec_blocks()[0]),
            r.spec_hashes()[0]@ == header_hash(r.spec_blocks()[0].header),
            r.spec_heights()[0] == 0,
            r.spec_tip() == 0,
            r.spec_difficulty()@ == genesis_difficulty_bytes(),
            r.spec_orphans().len() == 0,
            r.spec_origins().len() == 0,
            r.pow_gated(),
    {
        let genesis = Block::genesis();
        let genesis_hash = genesis.hash();
        let difficulty = genesis.header.difficulty;
        let mut blocks: Vec<Block> = Vec::new();
        blocks.push(genesis);
        let mut hashes: Vec<H256> = Vec::new();
        hashes.push(genesis_hash);
        let mut heights: Vec<u64> = Vec::new();
        heights.push(0);
        let ghost pi = seq![0int];
        let r = Blockchain {
            blocks,
            hashes,
            heights,
            parent_index: Ghost(pi),
            tip: 0,
            difficulty,
            orphans: Vec::new(),
            origins: Vec::new(),
        };
        proof {
            r.lemma_views();
        }
        r
    }

    /// Hash of the current tip.
    pub fn tip(&self) -> (r: H256)
        requires
            self.wf(),
        ensures
            r == self.tip_hash(),
    {
        self.hashes[self.tip]
    }

    /// Whether a block with hash `h` is stored.
    pub fn contains_block(&self, h: &H256) -> (r: bool)
        requires
            self.wf(),
        ensures
            r == self.contains(*h),
    {
        self.find(h).is_some()
    }

    /// The stored block with hash `h`.
    pub fn get_block(&self, h: &H256) -> (r: &Block)
        requires
            self.wf(),
            self.contains(*h),
        ensures
            r@ == self.spec_blocks()[self.index_of(*h)],
    {
        proof {
            self.lemma_views();
        }
        match self.find(h) {
            Some(i) => &self.blocks[i],
            None => {
                proof {
                    assert(false);
                }
                &self.blocks[0]
            },
        }
    }

    /// Whether `block` meets its declared target and declares the network's.
    pub fn pow_validity_check(&self, block: &Block) -> (r: bool)
        ensures
            r == pow_ok(block@, self.spec_difficulty()),
    {
        let h = block.hash();
        let ok = h.le(&block.header.difficulty) && block.header.difficulty.equals(&self.difficulty);
        ok
    }

    /// Whether the parent of `block` is stored.
    pub fn parent_check(&self, block: &Block) -> (r: bool)
        requires
            self.wf(),
        ensures
            r == self.contains(block.header.parent),
    {
        self.contains_block(&block.header.parent)
    }

    /// Number of stored blocks.
    pub fn block_count(&self) -> (r: usize)
        requires
            self.wf(),
        ensures
            r == self.len(),
    {
        proof {
            self.lemma_views();
        }
        self.blocks.len()
    }
}


impl Blockchain {
    /// Appends a block that is not stored yet and whose parent sits at `p`.
    fn append(&mut self, block: Block, h: H256, p: usize)
        requires
            old(self).wf(),
            p < old(self).hashes@.len(),
            old(self).hashes@[p as int] == block.header.parent,
            h@ == header_hash(block.header),
            !old(self).contains(h),
        ensures
            final(self).wf(),
            old(self).pow_gated() && pow_ok(block@, old(self).difficulty) ==> final(self).pow_gated(),
            Blockchain::appended(*old(self), *final(self), block@),
            final(self).spec_origins() == old(self).spec_origins(),
            final(self).hashes@ == old(self).hashes@.push(h),
    {
        proof {
            self.lemma_views();
            assert(self.index_of(block.header.parent) == p as int) by {
                assert(self.spec_hashes()[p as int] == block.header.parent);
            }
        }
        let ghost old_self = *self;
        let n = self.blocks.len();
        let height = self.heights[p] + 1;
        let tip_height = self.heights[self.tip];
        self.blocks.push(block);
        self.hashes.push(h);
        self.heights.push(height);
        self.parent_index = Ghost(self.parent_index@.push(p as int));
        if height > tip_height {
            self.tip = n;
        }
        proof {
            self.lemma_views();
            old_self.lemma_views();
            assert(self.spec_blocks() =~= old_self.spec_blocks().push(block@));
            assert(self.spec_hashes().drop_last() =~= old_self.spec_hashes());
            assert forall|i: int, j: int|
                0 <= i < self.hashes@.len() && 0 <= j < self.hashes@.len() && i != j implies self.hashes@[i]
                != self.hashes@[j] by {
                if i == n as int {
                    assert(old_self.hashes@[j] == old_self.spec_hashes()[j]);
                } else if j == n as int {
                    assert(old_self.hashes@[i] == old_self.spec_hashes()[i]);
                }
            }
            assert(self.spec_orphans() =~= old_self.spec_orphans());
        }
    }

    /// Stores `block` under its parent and moves the tip to it when it is
    /// strictly taller than the current tip; a block of equal height leaves
    /// the tip where it is. A block that is already stored changes nothing.
    pub fn insert(&mut self, block: &Block)
        requires
            old(self).wf(),
            old(self).contains(block.header.parent),
        ensures
            final(self).wf(),
            old(self).pow_gated() && pow_ok(block@, old(self).spec_difficulty()) ==> final(self).pow_gated(),
            old(self).has_block(block@) ==> *final(self) == *old(self),
            !old(self).has_block(block@) ==> Blockchain::appended(*old(self), *final(self), block@),
            final(self).spec_origins() == old(self).spec_origins(),
    {
        let h = block.hash();
        match self.find(&h) {
            Some(_) => {
                return;
            },
            None => {},
        }
        proof {
            if self.has_block(block@) {
                let i = choose|i: int|
                    0 <= i < self.spec_hashes().len() && (#[trigger] self.spec_hashes()[i])@ == header_hash(
                        block.header,
                    );
                crate::hash::lemma_h256_view_injective(self.spec_hashes()[i], h);
            }
        }
        let p = match self.find(&block.header.parent) {
            Some(p) => p,
            None => {
                proof {
                    assert(false);
                }
                0
            },
        };
        self.append(block.duplicate(), h, p);
    }

    /// Puts `block`, whose parent is not stored, in the orphan buffer under
    /// its parent's hash.
    pub fn add_to_orphan_buffer(&mut self, block: &Block)
        requires
            old(self).wf(),
            pow_ok(block@, old(self).spec_difficulty()),
            !old(self).contains(block.header.parent),
        ensures
            final(self).wf(),
            final(self).same_tree(old(self)),
            final(self).spec_orphans() == old(self).spec_orphans().push(block@),
            final(self).spec_origins() == old(self).spec_origins(),
            old(self).pow_gated() ==> final(self).pow_gated(),
    {
        let ghost old_self = *self;
        self.orphans.push(block.duplicate());
        proof {
            self.lemma_views();
            old_self.lemma_views();
            assert(self.spec_orphans() =~= old_self.spec_orphans().push(block@));
        }
    }
}


impl Blockchain {
    /// Removes from the buffer every block waiting for `h` and returns them
    /// in arrival order.
    fn take_children(&mut self, h: &H256) -> (children: Vec<Block>)
        requires
            old(self).wf(),
        ensures
            final(self).wf(),
            final(self).same_tree(old(self)),
            final(self).spec_origins() == old(self).spec_origins(),
            old(self).pow_gated() ==> final(self).pow_gated(),
            final(self).orphans@.len() + children@.len() == old(self).orphans@.len(),
            forall|o: BlockView|
                #[trigger] final(self).spec_orphans().contains(o) <==> old(self).spec_orphans().contains(o)
                    && o.header.parent != *h,
            final(self).spec_orphans() == old(self).spec_orphans().filter(not_child_of(*h)),
            forall|k: int|
                0 <= k < children@.len() ==> old(self).spec_orphans().contains(#[trigger] children@[k]@)
                    && children@[k].header.parent == *h,
            forall|o: BlockView|
                old(self).spec_orphans().contains(o) && o.header.parent == *h ==> exists|k: int|
                    0 <= k < children@.len() && #[trigger] children@[k]@ == o,
    {
        proof {
            self.lemma_views();
        }
        let ghost old_self = *self;
        let mut kept: Vec<Block> = Vec::new();
        let mut children: Vec<Block> = Vec::new();
        let ghost mut kept_src: Seq<int> = Seq::empty();
        let ghost mut child_src: Seq<int> = Seq::empty();
        let ghost mut dest: Seq<int> = Seq::empty();
        let mut i: usize = 0;
        while i < self.orphans.len()
            invariant
                *self == old_self,
                old_self.wf(),
                i <= self.orphans@.len(),
                kept@.len() + children@.len() == i,
                block_views(kept@) == block_views(self.orphans@.take(i as int)).filter(not_child_of(*h)),
                kept_src.len() == kept@.len(),
                child_src.len() == children@.len(),
                dest.len() == i,
                forall|k: int|
                    0 <= k < kept@.len() ==> 0 <= #[trigger] kept_src[k] < i && kept@[k]@ == self.orphans@[kept_src[k]]@
                        && self.orphans@[kept_src[k]].header.parent != *h,
                forall|k: int|
                    0 <= k < children@.len() ==> 0 <= #[trigger] child_src[k] < i && children@[k]@
                        == self.orphans@[child_src[k]]@ && self.orphans@[child_src[k]].header.parent == *h,
                forall|j: int|
                    0 <= j < i ==> if self.orphans@[j].header.parent != *h {
                        0 <= #[trigger] dest[j] < kept@.len() && kept@[dest[j]]@ == self.orphans@[j]@
                    } else {
                        0 <= dest[j] < children@.len() && children@[dest[j]]@ == self.orphans@[j]@
                    },
            decreases self.orphans@.len() - i,
        {
            let o = self.orphans[i].duplicate();
            let parent = self.orphans[i].header.parent;
            let ghost kept_before = kept@;
            proof {
                assert(block_views(self.orphans@.take(i + 1)) =~= block_views(self.orphans@.take(i as int)).push(o@));
                lemma_filter_push(block_views(self.orphans@.take(i as int)), o@, not_child_of(*h));
            }
            if parent.equals(h) {
                proof {
                    dest = dest.push(children@.len() as int);
                    child_src = child_src.push(i as int);
                }
                children.push(o);
            } else {
                proof {
                    dest = dest.push(kept@.len() as int);
                    kept_src = kept_src.push(i as int);
                }
                kept.push(o);
                proof {
                    assert(block_views(kept@) =~= block_views(kept_before).push(o@));
                }
            }
            i = i + 1;
        }
        self.orphans = kept;
        proof {
            self.lemma_views();
            old_self.lemma_views();
            assert(old_self.orphans@.take(i as int) =~= old_self.orphans@);
            assert(self.spec_orphans() =~= block_views(kept@));
            assert(old_self.spec_orphans() =~= block_views(old_self.orphans@));
            assert forall|o: BlockView|
                #[trigger] self.spec_orphans().contains(o) <==> old_self.spec_orphans().contains(o) && o.header.parent
                    != *h by {
                if self.spec_orphans().contains(o) {
                    let k = choose|k: int| 0 <= k < self.spec_orphans().len() && self.spec_orphans()[k] == o;
                    assert(kept@[k]@ == o);
                    assert(old_self.spec_orphans()[kept_src[k]] == o);
                }
                if old_self.spec_orphans().contains(o) && o.header.parent != *h {
                    let j = choose|j: int| 0 <= j < old_self.spec_orphans().len() && old_self.spec_orphans()[j] == o;
                    assert(old_self.orphans@[j]@ == o);
                    assert(self.spec_orphans()[dest[j]] == o);
                }
            }
            assert forall|k: int|
                0 <= k < children@.len() implies old_self.spec_orphans().contains(#[trigger] children@[k]@)
                    && children@[k].header.parent == *h by {
                assert(old_self.spec_orphans()[child_src[k]] == children@[k]@);
            }
            assert forall|o: BlockView|
                old_self.spec_orphans().contains(o) && o.header.parent == *h implies exists|k: int|
                    0 <= k < children@.len() && #[trigger] children@[k]@ == o by {
                let j = choose|j: int| 0 <= j < old_self.spec_orphans().len() && old_self.spec_orphans()[j] == o;
                assert(old_self.orphans@[j]@ == o);
                assert(children@[dest[j]]@ == o);
            }
            if old_self.pow_gated() {
                assert forall|k: int| 0 <= k < self.orphans@.len() implies pow_ok(#[trigger] self.orphans@[k]@, self.difficulty) by {
                    assert(old_self.orphans@[kept_src[k]]@ == self.orphans@[k]@);
                }
            }
        }
        children
    }
}


/// The views of a sequence of blocks.
pub open spec fn block_views(s: Seq<Block>) -> Seq<BlockView> {
    s.map_values(|b: Block| b@)
}

impl Blockchain {
    /// Index of the stored block with hash `h`, which is known to be stored.
    fn find_stored(&self, h: &H256) -> (r: usize)
        requires
            self.wf(),
            self.contains(*h),
        ensures
            r < self.hashes@.len(),
            self.hashes@[r as int] == *h,
    {
        match self.find(h) {
            Some(i) => i,
            None => {
                proof {
                    assert(false);
                }
                0
            },
        }
    }

    proof fn lemma_grow(a: Blockchain, b: Blockchain, n: int)
        requires
            a.wf(),
            0 <= n <= a.len(),
            Blockchain::appended(a, b, b.spec_blocks().last()),
        ensures
            b.spec_blocks().take(n) == a.spec_blocks().take(n),
    {
        assert(b.spec_blocks().take(n) =~= a.spec_blocks().take(n));
    }

    proof fn lemma_has_block_hash(&self, b: BlockView, h: H256)
        requires
            h@ == header_hash(b.header),
        ensures
            self.has_block(b) <==> self.contains(h),
    {
        if self.has_block(b) {
            let i = choose|i: int|
                0 <= i < self.spec_hashes().len() && (#[trigger] self.spec_hashes()[i])@ == header_hash(b.header);
            crate::hash::lemma_h256_view_injective(self.spec_hashes()[i], h);
        }
        if self.contains(h) {
            let i = choose|i: int| 0 <= i < self.spec_hashes().len() && self.spec_hashes()[i] == h;
            assert((self.spec_hashes()[i])@ == header_hash(b.header));
        }
    }

    /// Stores `block`, whose parent is stored, appends its hash to
    /// `out_hashes`, and then does the same, depth first and in arrival
    /// order, for every buffered block waiting for a block that went in.
    /// A block that is already stored changes nothing.
    #[verifier::rlimit(50)]
    pub fn insert_recursively(&mut self, block: &Block, out_hashes: &mut Vec<H256>)
        requires
            old(self).wf(),
            old(self).contains(block.header.parent) || old(self).has_block(block@),
        ensures
            final(self).wf(),
            old(self).pow_gated() && pow_ok(block@, old(self).spec_difficulty()) ==> final(self).pow_gated(),
            Blockchain::inserted_recursively(
                *old(self),
                *final(self),
                block@,
                old(out_hashes)@,
                final(out_hashes)@,
            ),
    {
        let h = block.hash();
        proof {
            self.lemma_has_block_hash(block@, h);
        }
        if self.contains_block(&h) {
            return;
        }
        let ghost old_self = *self;
        let ghost old_out = out_hashes@;
        let ghost n = self.len();
        proof {
            self.lemma_views();
        }
        let p = self.find_stored(&block.header.parent);
        self.append(block.duplicate(), h, p);
        out_hashes.push(h);
        let children = self.take_children(&h);
        let mut stack: Vec<Block> = Vec::new();
        push_reversed(&mut stack, children);
        proof {
            self.lemma_views();
            old_self.lemma_views();
            assert(self.spec_blocks().take(n) =~= old_self.spec_blocks());
            assert(self.spec_hashes().take(n) =~= old_self.spec_hashes());
            assert(self.spec_heights().take(n) =~= old_self.spec_heights());
            assert(self.spec_hashes().skip(n) =~= seq![h]);
            assert(out_hashes@ =~= old_out + self.spec_hashes().skip(n));
            assert(self.stored_since(n, h)) by {
                assert(self.spec_hashes()[n] == h);
            }
            assert forall|o: BlockView|
                #[trigger] self.spec_orphans().contains(o) <==> old_self.spec_orphans().contains(o)
                    && !self.stored_since(n, o.header.parent) by {
                if self.stored_since(n, o.header.parent) {
                    let k = choose|k: int| n <= k < self.spec_hashes().len() && #[trigger] self.spec_hashes()[k] == o.header.parent;
                    assert(k == n);
                }
            }
            assert forall|o: BlockView| #[trigger] waiting_outside(*self, n)(o) == not_child_of(h)(o) by {
                if self.stored_since(n, o.header.parent) {
                    let k = choose|k: int| n <= k < self.spec_hashes().len() && #[trigger] self.spec_hashes()[k] == o.header.parent;
                    assert(k == n);
                }
            }
            assert(waiting_outside(*self, n) =~= not_child_of(h));
            assert forall|o: BlockView|
                old_self.spec_orphans().contains(o) && self.stored_since(n, o.header.parent) implies #[trigger] self.has_block(o)
                    || block_views(stack@).contains(o) by {
                let k = choose|k: int| n <= k < self.spec_hashes().len() && #[trigger] self.spec_hashes()[k] == o.header.parent;
                assert(k == n);
                let j = choose|j: int| 0 <= j < children@.len() && #[trigger] children@[j]@ == o;
                assert(stack@[stack@.len() - 1 - j] == children@[j]);
                assert(block_views(stack@)[stack@.len() - 1 - j] == o);
            }
            assert forall|k: int|
                0 <= k < stack@.len() implies old_self.spec_orphans().contains(#[trigger] stack@[k]@)
                    && self.stored_since(n, stack@[k].header.parent) by {
                let j = children@.len() - 1 - k;
                assert(stack@[stack@.len() - 1 - j] == children@[j]);
                assert(self.spec_hashes()[n] == h);
            }
        }
        while stack.len() > 0
            invariant
                self.wf(),
                old_self.wf(),
                !old_self.has_block(block@),
                n == old_self.len(),
                self.len() > n,
                self.spec_blocks().take(n) == old_self.spec_blocks(),
                self.spec_hashes().take(n) == old_self.spec_hashes(),
                self.spec_heights().take(n) == old_self.spec_heights(),
                self.spec_blocks()[n] == block@,
                forall|k: int| n < k < self.len() ==> old_self.spec_orphans().contains(#[trigger] self.spec_blocks()[k]),
                out_hashes@ == old_out + self.spec_hashes().skip(n),
                forall|k: int|
                    0 <= k < stack@.len() ==> old_self.spec_orphans().contains(#[trigger] stack@[k]@)
                        && self.stored_since(n, stack@[k].header.parent),
                forall|o: BlockView|
                    #[trigger] self.spec_orphans().contains(o) <==> old_self.spec_orphans().contains(o)
                        && !self.stored_since(n, o.header.parent),
                self.spec_orphans() == old_self.spec_orphans().filter(waiting_outside(*self, n)),
                forall|k: int| n < k < self.len() ==> #[trigger] self.parent_went_in_before(n, k),
                forall|o: BlockView|
                    old_self.spec_orphans().contains(o) && self.stored_since(n, o.header.parent) ==> #[trigger] self.has_block(o)
                        || block_views(stack@).contains(o),
                (forall|k: int| n <= k < self.len() ==> #[trigger] self.spec_heights()[k] <= old_self.tip_height())
                    ==> self.spec_tip() == old_self.spec_tip(),
                self.spec_difficulty() == old_self.spec_difficulty(),
                self.spec_origins() == old_self.spec_origins(),
                old_self.pow_gated() && pow_ok(block@, old_self.spec_difficulty()) ==> self.pow_gated(),
            decreases self.orphans@.len() + stack@.len(),
        {
            let ghost old_stack = stack@;
            let c = stack.pop().unwrap();
            let ch = c.hash();
            proof {
                self.lemma_has_block_hash(c@, ch);
                assert(old_stack[old_stack.len() - 1] == c);
                assert forall|k: int| 0 <= k < stack@.len() implies #[trigger] stack@[k] == old_stack[k] by {}
                assert forall|o: BlockView| #[trigger] block_views(old_stack).contains(o) && o != c@ implies block_views(
                    stack@,
                ).contains(o) by {
                    let j = choose|j: int| 0 <= j < old_stack.len() && block_views(old_stack)[j] == o;
                    assert(j != old_stack.len() - 1);
                    assert(block_views(stack@)[j] == o);
                }
            }
            if self.contains_block(&ch) {
                continue;
            }
            let ghost before = *self;
            let cp = self.find_stored(&c.header.parent);
            proof {
                if old_self.pow_gated() {
                    let j = choose|j: int| 0 <= j < old_self.spec_orphans().len() && old_self.spec_orphans()[j] == c@;
                    old_self.lemma_views();
                    assert(pow_ok(old_self.orphans@[j]@, old_self.difficulty));
                }
            }
            self.append(c, ch, cp);
            out_hashes.push(ch);
            let ghost mid = *self;
            proof {
                Blockchain::lemma_grow(before, mid, n);
                assert(mid.spec_hashes()[before.len()] == ch);
            }
            let grand = self.take_children(&ch);
            let ghost mid_stack = stack@;
            push_reversed(&mut stack, grand);
            proof {
                self.lemma_views();
                before.lemma_views();
                assert(self.spec_blocks().take(n) =~= before.spec_blocks().take(n));
                assert(self.spec_hashes().take(n) =~= before.spec_hashes().take(n));
                assert(self.spec_heights().take(n) =~= before.spec_heights().take(n));
                assert(self.spec_hashes().skip(n) =~= before.spec_hashes().skip(n).push(ch));
                assert(out_hashes@ =~= old_out + self.spec_hashes().skip(n));
                assert forall|x: H256| #[trigger] self.stored_since(n, x) <==> before.stored_since(n, x) || x == ch by {
                    if self.stored_since(n, x) {
                        let k = choose|k: int| n <= k < self.spec_hashes().len() && #[trigger] self.spec_hashes()[k] == x;
                        if k < before.len() {
                            assert(before.spec_hashes()[k] == x);
                        }
                    }
                    if before.stored_since(n, x) {
                        let k = choose|k: int| n <= k < before.spec_hashes().len() && #[trigger] before.spec_hashes()[k] == x;
                        assert(self.spec_hashes()[k] == x);
                    }
                    if x == ch {
                        assert(self.spec_hashes()[before.len()] == x);
                    }
                }
                assert forall|o: BlockView| #[trigger] before.has_block(o) implies self.has_block(o) by {
                    let i = choose|i: int|
                        0 <= i < before.spec_hashes().len() && (#[trigger] before.spec_hashes()[i])@ == header_hash(o.header);
                    assert(self.spec_hashes()[i] == before.spec_hashes()[i]);
                }
                assert forall|o: BlockView|
                    #[trigger] waiting_outside(*self, n)(o) == (waiting_outside(before, n)(o) && not_child_of(ch)(o)) by {
                    assert(self.stored_since(n, o.header.parent) <==> before.stored_since(n, o.header.parent) || o.header.parent == ch);
                }
                lemma_filter_filter(old_self.spec_orphans(), waiting_outside(before, n), not_child_of(ch), waiting_outside(*self, n));
                assert forall|k: int| n < k < self.len() implies #[trigger] self.parent_went_in_before(n, k) by {
                    if k < before.len() {
                        assert(before.parent_went_in_before(n, k));
                        let j = choose|j: int| n <= j < k && #[trigger] before.spec_hashes()[j] == before.spec_blocks()[k].header.parent;
                        assert(self.spec_hashes()[j] == before.spec_hashes()[j]);
                        assert(self.spec_blocks()[k] == before.spec_blocks()[k]);
                    } else {
                        assert(before.stored_since(n, c.header.parent));
                        let j = choose|j: int| n <= j < before.spec_hashes().len() && #[trigger] before.spec_hashes()[j] == c.header.parent;
                        assert(self.spec_hashes()[j] == before.spec_hashes()[j]);
                        assert(self.spec_blocks()[k] == c@);
                    }
                }
                assert(self.has_block(c@)) by {
                    assert(self.spec_hashes()[before.len()]@ == header_hash(c@.header));
                }
                assert forall|k: int|
                    0 <= k < stack@.len() implies old_self.spec_orphans().contains(#[trigger] stack@[k]@)
                        && self.stored_since(n, stack@[k].header.parent) by {
                    if k < mid_stack.len() {
                        assert(stack@[k] == old_stack[k]);
                    } else {
                        let j = stack@.len() - 1 - k;
                        assert(stack@[stack@.len() - 1 - j] == grand@[j]);
                        assert(mid.spec_orphans().contains(grand@[j]@));
                        assert(before.spec_orphans().contains(grand@[j]@));
                    }
                }
                assert forall|o: BlockView|
                    #[trigger] self.spec_orphans().contains(o) <==> old_self.spec_orphans().contains(o)
                        && !self.stored_since(n, o.header.parent) by {
                    assert(mid.spec_orphans().contains(o) == before.spec_orphans().contains(o));
                }
                assert forall|o: BlockView|
                    old_self.spec_orphans().contains(o) && self.stored_since(n, o.header.parent) implies #[trigger] self.has_block(o)
                        || block_views(stack@).contains(o) by {
                    if before.stored_since(n, o.header.parent) {
                        if before.has_block(o) {
                        } else if o == c@ {
                        } else {
                            assert(block_views(mid_stack).contains(o));
                            let j = choose|j: int| 0 <= j < mid_stack.len() && block_views(mid_stack)[j] == o;
                            assert(block_views(stack@)[j] == o);
                        }
                    } else {
                        assert(o.header.parent == ch);
                        assert(before.spec_orphans().contains(o));
                        assert(mid.spec_orphans().contains(o));
                        let j = choose|j: int| 0 <= j < grand@.len() && #[trigger] grand@[j]@ == o;
                        let k = stack@.len() - 1 - j;
                        assert(stack@[stack@.len() - 1 - j] == grand@[j]);
                        assert(block_views(stack@)[k] == o);
                    }
                }
                if forall|k: int| n <= k < self.len() ==> #[trigger] self.spec_heights()[k] <= old_self.tip_height() {
                    assert forall|k: int| n <= k < before.len() implies #[trigger] before.spec_heights()[k] <= old_self.tip_height() by {
                        assert(self.spec_heights()[k] == before.spec_heights()[k]);
                    }
                    assert(self.spec_heights()[before.len()] <= old_self.tip_height());
                }
                assert forall|k: int| n < k < self.len() implies old_self.spec_orphans().contains(#[trigger] self.spec_blocks()[k]) by {
                    if k < before.len() {
                        assert(self.spec_blocks()[k] == before.spec_blocks()[k]);
                    }
                }
            }
        }
        proof {
            assert(self.spec_blocks()[n] == block@);
        }
    }
}

/// Pushes the items of `items` onto `stack`, last item first, so that the
/// first item ends on top.
fn push_reversed(stack: &mut Vec<Block>, items: Vec<Block>)
    ensures
        final(stack)@.len() == old(stack)@.len() + items@.len(),
        forall|k: int| 0 <= k < old(stack)@.len() ==> #[trigger] final(stack)@[k] == old(stack)@[k],
        forall|k: int| 0 <= k < items@.len() ==> final(stack)@[final(stack)@.len() - 1 - k] == #[trigger] items@[k],
{
    let ghost start = stack@;
    let ghost all = items@;
    let mut items = items;
    while items.len() > 0
        invariant
            stack@.len() + items@.len() == start.len() + all.len(),
            stack@.len() >= start.len(),
            items@ == all.take(items@.len() as int),
            forall|k: int| 0 <= k < start.len() ==> #[trigger] stack@[k] == start[k],
            forall|k: int|
                0 <= k < stack@.len() - start.len() ==> #[trigger] stack@[start.len() + k] == all[all.len() - 1 - k],
        decreases items@.len(),
    {
        let ghost before = items@;
        let x = items.pop().unwrap();
        stack.push(x);
        proof {
            assert(all.take(before.len() as int).drop_last() =~= all.take(items@.len() as int));
        }
    }
    proof {
        assert forall|k: int| 0 <= k < all.len() implies stack@[stack@.len() - 1 - k] == #[trigger] all[k] by {
            let m = all.len() - 1 - k;
            assert(stack@[start.len() + m] == all[all.len() - 1 - m]);
        }
    }
}


impl Blockchain {
    proof fn lemma_index_of(&self, i: int)
        requires
            self.wf(),
            0 <= i < self.len(),
        ensures
            self.index_of(self.spec_hashes()[i]) == i,
            self.contains(self.spec_hashes()[i]),
    {
        self.lemma_views();
        let h = self.spec_hashes()[i];
        assert(self.spec_hashes()[i] == h);
    }

    /// The hashes of the chain from genesis to the tip, in that order: each
    /// entry is the parent of the next, and entry `k` has height `k`.
    #[verifier::rlimit(60)]
    pub fn all_blocks_in_longest_chain(&self) -> (r: Vec<H256>)
        requires
            self.wf(),
        ensures
            r@.len() == self.tip_height() + 1,
            r@[0] == self.spec_hashes()[0],
            r@.last() == self.tip_hash(),
            forall|k: int| 0 <= k < r@.len() ==> #[trigger] self.contains(r@[k]) && self.height_of(r@[k]) == k,
            forall|k: int|
                0 < k < r@.len() ==> self.spec_blocks()[self.index_of(#[trigger] r@[k])].header.parent == r@[k - 1],
    {
        proof {
            self.lemma_views();
        }
        let tip_h = self.heights[self.tip];
        let mut cur: usize = self.tip;
        let mut back: Vec<H256> = Vec::new();
        back.push(self.hashes[cur]);
        let ghost mut idx: Seq<int> = seq![cur as int];
        while self.heights[cur] > 0
            invariant
                self.wf(),
                tip_h == self.tip_height(),
                cur < self.hashes@.len(),
                back@.len() == idx.len(),
                back@.len() >= 1,
                idx.last() == cur,
                idx[0] == self.spec_tip(),
                self.heights@[cur as int] == tip_h - (back@.len() - 1),
                forall|m: int| 0 <= m < idx.len() ==> 0 <= #[trigger] idx[m] < self.hashes@.len() && back@[m]
                    == self.hashes@[idx[m]] && self.heights@[idx[m]] == tip_h - m,
                forall|m: int| 0 < m < idx.len() ==> #[trigger] idx[m] == self.parent_index@[idx[m - 1]],
            decreases self.heights@[cur as int],
        {
            let parent = self.blocks[cur].header.parent;
            proof {
                assert(0 < cur);
                assert(self.spec_hashes()[self.parent_index@[cur as int]] == parent);
            }
            let p = self.find_stored(&parent);
            proof {
                assert(p as int == self.parent_index@[cur as int]);
                idx = idx.push(p as int);
            }
            back.push(self.hashes[p]);
            cur = p;
        }
        let n = back.len();
        let mut r: Vec<H256> = Vec::new();
        let mut j: usize = 0;
        while j < n
            invariant
                n == back@.len(),
                j <= n,
                r@.len() == j,
                forall|m: int| 0 <= m < j ==> #[trigger] r@[m] == back@[n - 1 - m],
            decreases n - j,
        {
            r.push(back[n - 1 - j]);
            j = j + 1;
        }
        proof {
            assert(self.heights@[cur as int] == 0);
            assert(n == tip_h + 1);
            assert forall|k: int| 0 <= k < r@.len() implies #[trigger] self.contains(r@[k]) && self.height_of(r@[k]) == k by {
                let m = n - 1 - k;
                assert(r@[k] == back@[m]);
                self.lemma_index_of(idx[m]);
            }
            assert forall|k: int|
                0 < k < r@.len() implies self.spec_blocks()[self.index_of(#[trigger] r@[k])].header.parent == r@[k - 1] by {
                let m = n - 1 - k;
                assert(r@[k] == back@[m]);
                assert(r@[k - 1] == back@[m + 1]);
                self.lemma_index_of(idx[m]);
                assert(idx[m + 1] == self.parent_index@[idx[m]]);
                assert(self.heights@[idx[m]] > 0);
                if idx[m] == 0 {
                    assert(false);
                }
            }
            assert(r@[0] == back@[n - 1]);
            if cur != 0 {
                assert(0 <= self.parent_index@[cur as int] < cur);
                assert(self.heights@[cur as int] >= 1);
            }
        }
        r
    }
}


/// The delays of the `Received` entries, in entry order.
pub open spec fn received_delays(s: Seq<(H256, BlockOrigin)>) -> Seq<u128>
    decreases s.len(),
{
    if s.len() == 0 {
        Seq::empty()
    } else {
        let rest = received_delays(s.drop_last());
        match s.last().1 {
            BlockOrigin::Received { delay_ms } => rest.push(delay_ms),
            BlockOrigin::Mined => rest,
        }
    }
}

pub open spec fn sorted(s: Seq<u128>) -> bool {
    forall|i: int, j: int| 0 <= i <= j < s.len() ==> s[i] <= s[j]
}

/// Size of a block, saturating at `usize::MAX`.
pub open spec fn clamped_size(b: BlockView) -> int {
    if block_size(b) < usize::MAX {
        block_size(b)
    } else {
        usize::MAX as int
    }
}

pub open spec fn total_size(s: Seq<BlockView>) -> int
    decreases s.len(),
{
    if s.len() == 0 {
        0
    } else {
        total_size(s.drop_last()) + clamped_size(s.last())
    }
}

proof fn lemma_total_size_nonneg(s: Seq<BlockView>)
    ensures
        total_size(s) >= 0,
    decreases s.len(),
{
    if s.len() > 0 {
        lemma_total_size_nonneg(s.drop_last());
        crate::block::lemma_txs_size_nonneg(s.last().transactions);
    }
}

impl Blockchain {
    /// Whether `h` is recorded as mined here.
    pub open spec fn is_mined(&self, h: Seq<u8>) -> bool {
        exists|i: int|
            0 <= i < self.spec_origins().len() && (#[trigger] self.spec_origins()[i]).0@ == h && self.spec_origins()[i].1
                is Mined
    }

    /// Whether an origin is recorded for `h`.
    pub open spec fn has_origin(&self, h: H256) -> bool {
        exists|i: int| 0 <= i < self.spec_origins().len() && (#[trigger] self.spec_origins()[i]).0 == h
    }

    fn find_origin(&self, h: &H256) -> (r: Option<usize>)
        requires
            self.wf(),
        ensures
            match r {
                Some(i) => i < self.origins@.len() && self.origins@[i as int].0 == *h,
                None => !self.has_origin(*h),
            },
    {
        let mut i: usize = 0;
        while i < self.origins.len()
            invariant
                i <= self.origins@.len(),
                forall|j: int| 0 <= j < i ==> self.origins@[j].0 != *h,
            decreases self.origins@.len() - i,
        {
            if self.origins[i].0.equals(h) {
                return Some(i);
            }
            i = i + 1;
        }
        None
    }

    /// The origin recorded for `h`, if any.
    pub fn origin_of(&self, h: &H256) -> (r: Option<BlockOrigin>)
        requires
            self.wf(),
        ensures
            match r {
                Some(o) => self.spec_origins().contains((*h, o)),
                None => !self.has_origin(*h),
            },
    {
        match self.find_origin(h) {
            Some(i) => {
                let o = self.origins[i].1;
                proof {
                    assert(self.spec_origins()[i as int] == (*h, o));
                }
                Some(o)
            },
            None => None,
        }
    }

    /// Records that `h` was received `delay_ms` after it was mined, unless an
    /// origin is already recorded for it.
    pub fn record_received(&mut self, h: H256, delay_ms: u128)
        requires
            old(self).wf(),
        ensures
            final(self).wf(),
            final(self).same_tree(old(self)),
            final(self).spec_orphans() == old(self).spec_orphans(),
            final(self).pow_gated() == old(self).pow_gated(),
            old(self).has_origin(h) ==> final(self).spec_origins() == old(self).spec_origins(),
            !old(self).has_origin(h) ==> final(self).spec_origins() == old(self).spec_origins().push(
                (h, BlockOrigin::Received { delay_ms }),
            ),
    {
        match self.find_origin(&h) {
            Some(_) => {},
            None => {
                let ghost before = self.origins@;
                let ghost old_self = *self;
                self.origins.push((h, BlockOrigin::Received { delay_ms }));
                proof {
                    self.lemma_views();
                    assert forall|i: int| 0 <= i < before.len() implies before[i].0 != h by {
                        assert(old_self.spec_origins()[i] == before[i]);
                    }
                }
            },
        }
    }

    /// Records that `h` was mined here, replacing any earlier record.
    pub fn mark_mined(&mut self, h: H256)
        requires
            old(self).wf(),
        ensures
            final(self).wf(),
            final(self).same_tree(old(self)),
            final(self).spec_orphans() == old(self).spec_orphans(),
            final(self).pow_gated() == old(self).pow_gated(),
            final(self).spec_origins().contains((h, BlockOrigin::Mined)),
            forall|i: int| 0 <= i < old(self).spec_origins().len() && old(self).spec_origins()[i].0 == h
                ==> final(self).spec_origins() == old(self).spec_origins().update(i, (h, BlockOrigin::Mined)),
            !old(self).has_origin(h) ==> final(self).spec_origins() == old(self).spec_origins().push(
                (h, BlockOrigin::Mined),
            ),
    {
        match self.find_origin(&h) {
            Some(i) => {
                self.origins.set(i, (h, BlockOrigin::Mined));
                proof {
                    self.lemma_views();
                    assert(self.spec_origins()[i as int] == (h, BlockOrigin::Mined));
                }
            },
            None => {
                let ghost before = self.origins@;
                self.origins.push((h, BlockOrigin::Mined));
                proof {
                    self.lemma_views();
                    assert forall|i: int| 0 <= i < before.len() implies before[i].0 != h by {
                        assert(self.spec_origins()[i] == before[i]);
                    }
                    assert(self.spec_origins()[self.spec_origins().len() - 1] == (h, BlockOrigin::Mined));
                }
            },
        }
    }

    /// The delays of the blocks received from peers, in ascending order.
    pub fn block_delays_ms(&self) -> (r: Vec<u128>)
        requires
            self.wf(),
        ensures
            sorted(r@),
            r@.to_multiset() == received_delays(self.spec_origins()).to_multiset(),
    {
        let ghost s = self.origins@;
        let mut r: Vec<u128> = Vec::new();
        let mut i: usize = 0;
        while i < self.origins.len()
            invariant
                s == self.origins@,
                i <= s.len(),
                sorted(r@),
                r@.to_multiset() == received_delays(s.take(i as int)).to_multiset(),
            decreases s.len() - i,
        {
            proof {
                assert(s.take(i + 1).drop_last() =~= s.take(i as int));
            }
            match self.origins[i].1 {
                BlockOrigin::Received { delay_ms } => {
                    let mut pos: usize = 0;
                    while pos < r.len() && r[pos] <= delay_ms
                        invariant
                            pos <= r@.len(),
                            forall|k: int| 0 <= k < pos ==> r@[k] <= delay_ms,
                        decreases r@.len() - pos,
                    {
                        pos = pos + 1;
                    }
                    let ghost old_r = r@;
                    r.insert(pos, delay_ms);
                    proof {
                        vstd::seq_lib::to_multiset_insert(old_r, pos as int, delay_ms);
                        assert(received_delays(s.take(i + 1)) == received_delays(s.take(i as int)).push(delay_ms));
                        vstd::seq_lib::to_multiset_build(received_delays(s.take(i as int)), delay_ms);
                        assert forall|a: int, b: int| 0 <= a <= b < r@.len() implies r@[a] <= r@[b] by {
                            if a < pos && b > pos {
                                assert(r@[a] == old_r[a]);
                                assert(r@[b] == old_r[b - 1]);
                            } else if a < pos && b < pos {
                            } else if a > pos {
                                assert(r@[a] == old_r[a - 1]);
                                assert(r@[b] == old_r[b - 1]);
                            } else if a == pos && b > pos {
                                assert(r@[b] == old_r[b - 1]);
                                if pos < old_r.len() {
                                    assert(old_r[pos as int] > delay_ms);
                                }
                            } else if a < pos && b == pos {
                                assert(r@[a] == old_r[a]);
                            }
                        }
                    }
                },
                BlockOrigin::Mined => {},
            }
            i = i + 1;
        }
        proof {
            assert(s.take(s.len() as int) =~= s);
        }
        r
    }

    /// Total size of the stored blocks divided by their number, the total
    /// saturating at `usize::MAX`.
    pub fn average_block_size(&self) -> (r: usize)
        requires
            self.wf(),
        ensures
            r as int == (if total_size(self.spec_blocks()) < usize::MAX {
                total_size(self.spec_blocks())
            } else {
                usize::MAX as int
            }) / self.len(),
    {
        proof {
            self.lemma_views();
        }
        let ghost bs = self.spec_blocks();
        let mut total: usize = 0;
        let mut i: usize = 0;
        while i < self.blocks.len()
            invariant
                bs == self.spec_blocks(),
                bs.len() == self.blocks@.len(),
                forall|k: int| 0 <= k < bs.len() ==> #[trigger] bs[k] == self.blocks@[k]@,
                i <= bs.len(),
                total as int == if total_size(bs.take(i as int)) < usize::MAX {
                    total_size(bs.take(i as int))
                } else {
                    usize::MAX as int
                },
            decreases bs.len() - i,
        {
            let sz = self.blocks[i].size();
            proof {
                assert(bs.take(i + 1).drop_last() =~= bs.take(i as int));
                lemma_total_size_nonneg(bs.take(i as int));
            }
            total = total.saturating_add(sz);
            i = i + 1;
        }
        proof {
            assert(bs.take(i as int) =~= bs);
        }
        total / self.blocks.len()
    }
}


/// Tree shape: every stored block other than genesis has its parent stored,
/// and stands exactly one level above it; genesis stands at height zero.
pub proof fn lemma_tree(s: &Blockchain)
    requires
        s.wf(),
    ensures
        is_genesis(s.spec_blocks()[0]),
        s.spec_heights()[0] == 0,
        forall|i: int|
            0 < i < s.len() ==> s.contains(#[trigger] s.spec_blocks()[i].header.parent) && s.spec_heights()[i]
                == s.height_of(s.spec_blocks()[i].header.parent) + 1,
{
    s.lemma_views();
    assert forall|i: int|
        0 < i < s.len() implies s.contains(#[trigger] s.spec_blocks()[i].header.parent) && s.spec_heights()[i]
            == s.height_of(s.spec_blocks()[i].header.parent) + 1 by {
        let p = s.parent_index@[i];
        s.lemma_index_of(p);
    }
}

/// The hash and height sequences run along the stored blocks, stored
/// hashes are pairwise distinct, and the network target is the genesis
/// target.
pub proof fn lemma_lengths(s: &Blockchain)
    requires
        s.wf(),
    ensures
        s.len() >= 1,
        s.spec_hashes().len() == s.len(),
        s.spec_heights().len() == s.len(),
        forall|i: int| 0 <= i < s.len() ==> (#[trigger] s.spec_hashes()[i])@ == header_hash(s.spec_blocks()[i].header),
        s.spec_difficulty()@ == genesis_difficulty_bytes(),
        forall|i: int, j: int|
            0 <= i < s.len() && 0 <= j < s.len() && i != j ==> s.spec_hashes()[i] != s.spec_hashes()[j],
{
    s.lemma_views();
}

/// The tip is a stored block, and no stored block is taller than it.
pub proof fn lemma_tip_is_tallest(s: &Blockchain)
    requires
        s.wf(),
    ensures
        0 <= s.spec_tip() < s.len(),
        s.contains(s.tip_hash()),
        forall|i: int| 0 <= i < s.len() ==> #[trigger] s.spec_heights()[i] <= s.tip_height(),
{
    s.lemma_views();
    s.lemma_index_of(s.spec_tip());
}

/// In a gated block-tree (one that `Blockchain::new` made and that only
/// operations given blocks meeting the target, or that test the target
/// themselves, changed), every stored block other than genesis meets its
/// declared target, and declares the network's target, which is the
/// genesis target.
pub proof fn lemma_pow_gate(s: &Blockchain)
    requires
        s.wf(),
        s.pow_gated(),
    ensures
        s.spec_difficulty()@ == genesis_difficulty_bytes(),
        forall|i: int| 0 < i < s.len() ==> pow_ok(#[trigger] s.spec_blocks()[i], s.spec_difficulty()),
{
    s.lemma_views();
}

/// Fork choice is first-seen: appending a block exactly as tall as the tip
/// leaves the tip where it was.
pub proof fn lemma_first_seen_tip(s0: &Blockchain, s1: &Blockchain, b: BlockView)
    requires
        s0.wf(),
        Blockchain::appended(*s0, *s1, b),
        s0.height_of(b.header.parent) + 1 == s0.tip_height(),
    ensures
        s1.spec_tip() == s0.spec_tip(),
        s1.tip_hash() == s0.tip_hash(),
        s1.tip_height() == s0.tip_height(),
{
    s0.lemma_views();
    assert(s1.spec_hashes().drop_last()[s0.spec_tip()] == s0.spec_hashes()[s0.spec_tip()]);
}

/// Inserting the same block recursively a second time changes neither the
/// block-tree nor the list of inserted hashes.
pub proof fn lemma_insert_recursively_idempotent(
    s0: &Blockchain,
    s1: &Blockchain,
    s2: &Blockchain,
    b: BlockView,
    out0: Seq<H256>,
    out1: Seq<H256>,
    out2: Seq<H256>,
)
    requires
        s0.wf(),
        s1.wf(),
        Blockchain::inserted_recursively(*s0, *s1, b, out0, out1),
        Blockchain::inserted_recursively(*s1, *s2, b, out1, out2),
    ensures
        *s2 == *s1,
        out2 == out1,
{
    if !s0.has_block(b) {
        s1.lemma_views();
        let n = s0.len();
        assert(s1.spec_hashes()[n]@ == header_hash(s1.spec_blocks()[n].header));
        assert(s1.has_block(b));
    }
}

/// A buffered block is stored as soon as its parent has been inserted
/// recursively.
pub proof fn lemma_orphan_promotion(
    s1: &Blockchain,
    s2: &Blockchain,
    p: BlockView,
    o: BlockView,
    out1: Seq<H256>,
    out2: Seq<H256>,
)
    requires
        s1.wf(),
        s2.wf(),
        s1.spec_orphans().contains(o),
        o.header.parent@ == header_hash(p.header),
        !s1.has_block(p),
        Blockchain::inserted_recursively(*s1, *s2, p, out1, out2),
    ensures
        s2.has_block(o),
{
    s2.lemma_views();
    let n = s1.len();
    assert(s2.spec_hashes()[n]@ == header_hash(s2.spec_blocks()[n].header));
    crate::hash::lemma_h256_view_injective(s2.spec_hashes()[n], o.header.parent);
    assert(s2.stored_since(n, o.header.parent));
}

/// Blocks that do not name `h` as their parent.
pub open spec fn not_child_of(h: H256) -> spec_fn(BlockView) -> bool {
    |o: BlockView| o.header.parent != h
}

/// Blocks whose parent is not among the blocks stored in `c` from index
/// `from` on.
pub open spec fn waiting_outside(c: Blockchain, from: int) -> spec_fn(BlockView) -> bool {
    |o: BlockView| !c.stored_since(from, o.header.parent)
}

proof fn lemma_filter_push(s: Seq<BlockView>, x: BlockView, p: spec_fn(BlockView) -> bool)
    ensures
        s.push(x).filter(p) == if p(x) {
            s.filter(p).push(x)
        } else {
            s.filter(p)
        },
{
    reveal(Seq::filter);
    assert(s.push(x).drop_last() =~= s);
}

proof fn lemma_filter_filter(
    s: Seq<BlockView>,
    p: spec_fn(BlockView) -> bool,
    q: spec_fn(BlockView) -> bool,
    r: spec_fn(BlockView) -> bool,
)
    requires
        forall|o: BlockView| #[trigger] r(o) == (p(o) && q(o)),
    ensures
        s.filter(p).filter(q) == s.filter(r),
    decreases s.len(),
{
    reveal(Seq::filter);
    if s.len() > 0 {
        let t = s.drop_last();
        let x = s.last();
        lemma_filter_filter(t, p, q, r);
        assert(s =~= t.push(x));
        lemma_filter_push(t, x, p);
        lemma_filter_push(t, x, r);
        if p(x) {
            lemma_filter_push(t.filter(p), x, q);
        }
    } else {
        assert(s.filter(p) =~= s);
    }
}

} // verus!
