use vstd::prelude::*;
use crate::bytes::{le_u128, le_u32, push_all, push_le_u128, push_le_u32};
use crate::hash::{sha256, sha256_of, H256};
use crate::transaction::{tx_encodable, tx_hash, SignedTransaction, SignedTransactionView};

verus! {

/// The header of a block; its hash is the block's identity.
#[derive(Clone, Copy, Debug)]
pub struct Header {
    pub parent: H256,
    pub nonce: u32,
    pub difficulty: H256,
    pub timestamp: u128,
    pub merkle_root: H256,
}

/// The ordered transactions of a block.
#[derive(Clone, Debug)]
pub struct Content {
    pub transactions: Vec<SignedTransaction>,
}

#[derive(Clone, Debug)]
pub struct Block {
    pub header: Header,
    pub content: Content,
}

pub ghost struct BlockView {
    pub header: Header,
    pub transactions: Seq<SignedTransactionView>,
}

impl View for Block {
    type V = BlockView;

    open spec fn view(&self) -> BlockView {
        BlockView {
            header: self.header,
            transactions: self.content.transactions@.map_values(|t: SignedTransaction| t@),
        }
    }
}

/// Canonical encoding of a header: parent, nonce, difficulty, timestamp and
/// Merkle root, integers little-endian.
pub open spec fn header_bytes(h: Header) -> Seq<u8> {
    h.parent@ + le_u32(h.nonce) + h.difficulty@ + le_u128(h.timestamp) + h.merkle_root@
}

/// The identity of a block with header `h`.
pub open spec fn header_hash(h: Header) -> Seq<u8> {
    sha256_of(header_bytes(h))
}

/// Encoded length of one signed transaction.
pub open spec fn tx_size(t: SignedTransactionView) -> int {
    68 + t.pub_key.len() as int + t.signature.len() as int
}

pub open spec fn txs_size(s: Seq<SignedTransactionView>) -> int
    decreases s.len(),
{
    if s.len() == 0 {
        0
    } else {
        txs_size(s.drop_last()) + tx_size(s.last())
    }
}

/// Encoded length of a block: header, length prefix, transactions.
pub open spec fn block_size(b: BlockView) -> int {
    116 + 8 + txs_size(b.transactions)
}

/// Hash of two adjacent Merkle nodes.
pub open spec fn merkle_parent(l: Seq<u8>, r: Seq<u8>) -> Seq<u8> {
    sha256_of(l + r)
}

/// One level up a Merkle tree; an odd last node is paired with itself.
pub open spec fn merkle_next(level: Seq<Seq<u8>>) -> Seq<Seq<u8>> {
    Seq::new(
        ((level.len() + 1) / 2) as nat,
        |i: int|
            merkle_parent(
                level[2 * i],
                if 2 * i + 1 < level.len() {
                    level[2 * i + 1]
                } else {
                    level[2 * i]
                },
            ),
    )
}

/// Root over a level of nodes; the empty tree has the all-zero root.
pub open spec fn merkle_root_of(level: Seq<Seq<u8>>) -> Seq<u8>
    decreases level.len(),
{
    if level.len() == 0 {
        Seq::new(32, |i: int| 0u8)
    } else if level.len() == 1 {
        level[0]
    } else {
        merkle_root_of(merkle_next(level))
    }
}

/// Merkle root over the hashes of the transactions, in order.
pub open spec fn merkle_root_of_txs(txs: Seq<SignedTransactionView>) -> Seq<u8> {
    merkle_root_of(txs.map_values(|t: SignedTransactionView| tx_hash(t)))
}

pub open spec fn hashes_view(hs: Seq<H256>) -> Seq<Seq<u8>> {
    hs.map_values(|h: H256| h@)
}

/// The network-wide target: a block is valid when its hash is at most this.
pub open spec fn genesis_difficulty_bytes() -> Seq<u8> {
    Seq::new(32, |i: int| if i == 0 { 0u8 } else if i == 1 { 0x1fu8 } else { 0xffu8 })
}

pub fn genesis_difficulty() -> (r: H256)
    ensures
        r@ == genesis_difficulty_bytes(),
{
    let mut bytes = [0xffu8; 32];
    bytes[0] = 0;
    bytes[1] = 0x1f;
    let r = H256 { bytes };
    assert(r@ =~= genesis_difficulty_bytes());
    r
}

/// Hash of the concatenation of two nodes.
fn merkle_pair(l: &H256, r: &H256) -> (out: H256)
    ensures
        out@ == merkle_parent(l@, r@),
{
    let mut buf: Vec<u8> = Vec::new();
    push_all(&mut buf, l.bytes.as_slice());
    push_all(&mut buf, r.bytes.as_slice());
    assert(buf@ =~= l@ + r@);
    H256 { bytes: sha256(buf.as_slice()) }
}

/// Computes the next level of a Merkle tree.
fn merkle_level_up(level: &Vec<H256>) -> (r: Vec<H256>)
    ensures
        hashes_view(r@) == merkle_next(hashes_view(level@)),
        r@.len() == (level@.len() + 1) / 2,
{
    let ghost lv = hashes_view(level@);
    let mut out: Vec<H256> = Vec::new();
    let mut i: usize = 0;
    while i < level.len()
        invariant
            lv == hashes_view(level@),
            i <= level@.len(),
            i % 2 == 0 || i == level@.len(),
            out@.len() == (i + 1) / 2,
            forall|k: int| 0 <= k < out@.len() ==> #[trigger] out@[k]@ == merkle_next(lv)[k],
        decreases level@.len() - i,
    {
        if i + 1 < level.len() {
            let p = merkle_pair(&level[i], &level[i + 1]);
            out.push(p);
            i = i + 2;
        } else {
            let p = merkle_pair(&level[i], &level[i]);
            out.push(p);
            i = i + 1;
        }
    }
    assert(hashes_view(out@) =~= merkle_next(lv));
    out
}

/// Merkle root over the hashes of `txs`.
pub fn merkle_root(txs: &Vec<SignedTransaction>) -> (r: H256)
    requires
        forall|i: int| 0 <= i < txs@.len() ==> tx_encodable(#[trigger] txs@[i]@),
    ensures
        r@ == merkle_root_of_txs(txs@.map_values(|t: SignedTransaction| t@)),
{
    let ghost tv = txs@.map_values(|t: SignedTransaction| t@);
    let mut level: Vec<H256> = Vec::new();
    let mut i: usize = 0;
    while i < txs.len()
        invariant
            i <= txs@.len(),
            tv == txs@.map_values(|t: SignedTransaction| t@),
            forall|j: int| 0 <= j < txs@.len() ==> tx_encodable(#[trigger] txs@[j]@),
            level@.len() == i,
            forall|k: int| 0 <= k < i ==> #[trigger] level@[k]@ == tx_hash(tv[k]),
        decreases txs@.len() - i,
    {
        let h = txs[i].hash();
        level.push(h);
        i = i + 1;
    }
    let ghost leaves = tv.map_values(|t: SignedTransactionView| tx_hash(t));
    assert(hashes_view(level@) =~= leaves);
    if level.len() == 0 {
        let z = H256::zero();
        assert(z@ =~= merkle_root_of(leaves));
        return z;
    }
    while level.len() > 1
        invariant
            level@.len() >= 1,
            merkle_root_of(hashes_view(level@)) == merkle_root_of(leaves),
        decreases level@.len(),
    {
        level = merkle_level_up(&level);
    }
    level[0]
}

impl Header {
    /// The canonical encoding that is hashed.
    pub fn to_bytes(&self) -> (r: Vec<u8>)
        ensures
            r@ == header_bytes(*self),
    {
        let mut out: Vec<u8> = Vec::new();
        push_all(&mut out, self.parent.bytes.as_slice());
        push_le_u32(&mut out, self.nonce);
        push_all(&mut out, self.difficulty.bytes.as_slice());
        push_le_u128(&mut out, self.timestamp);
        push_all(&mut out, self.merkle_root.bytes.as_slice());
        assert(out@ =~= header_bytes(*self));
        out
    }

    pub fn hash(&self) -> (r: H256)
        ensures
            r@ == header_hash(*self),
    {
        let bytes = self.to_bytes();
        H256 { bytes: sha256(bytes.as_slice()) }
    }
}

impl Block {
    /// The fixed first block: zero parent, zero nonce and timestamp, the
    /// network target, no transactions and the all-zero Merkle root.
    pub fn genesis() -> (r: Block)
        ensures
            is_genesis(r@),
    {
        let header = Header {
            parent: H256::zero(),
            nonce: 0,
            difficulty: genesis_difficulty(),
            timestamp: 0,
            merkle_root: H256::zero(),
        };
        let r = Block { header, content: Content { transactions: Vec::new() } };
        assert(r@.header.parent@ =~= Seq::new(32, |i: int| 0u8));
        assert(r@.header.merkle_root@ =~= Seq::new(32, |i: int| 0u8));
        r
    }

    /// The block's identity, which is its header's hash.
    pub fn hash(&self) -> (r: H256)
        ensures
            r@ == header_hash(self.header),
    {
        self.header.hash()
    }

    /// A copy with the same header and transactions.
    pub fn duplicate(&self) -> (r: Block)
        ensures
            r@ == self@,
    {
        let mut txs: Vec<SignedTransaction> = Vec::new();
        let mut i: usize = 0;
        while i < self.content.transactions.len()
            invariant
                i <= self.content.transactions@.len(),
                txs@.len() == i,
                forall|k: int| 0 <= k < i ==> #[trigger] txs@[k]@ == self.content.transactions@[k]@,
            decreases self.content.transactions@.len() - i,
        {
            txs.push(self.content.transactions[i].duplicate());
            i = i + 1;
        }
        let r = Block { header: self.header, content: Content { transactions: txs } };
        assert(r@.transactions =~= self@.transactions);
        r
    }

    /// Encoded length in bytes, saturating at `usize::MAX`.
    pub fn size(&self) -> (r: usize)
        ensures
            r as int == if block_size(self@) < usize::MAX {
                block_size(self@)
            } else {
                usize::MAX as int
            },
    {
        let ghost tv = self@.transactions;
        let mut total: usize = 124;
        let mut i: usize = 0;
        while i < self.content.transactions.len()
            invariant
                i <= self.content.transactions@.len(),
                tv == self@.transactions,
                total as int == if 124 + txs_size(tv.take(i as int)) < usize::MAX {
                    124 + txs_size(tv.take(i as int))
                } else {
                    usize::MAX as int
                },
            decreases self.content.transactions@.len() - i,
        {
            let t = &self.content.transactions[i];
            let s = 68usize.saturating_add(t.pub_key.len()).saturating_add(t.signature.len());
            proof {
                assert(tv.take(i + 1).drop_last() =~= tv.take(i as int));
                assert(tv.take(i + 1).last() == t@);
                assert(txs_size(tv.take(i as int)) >= 0) by {
                    lemma_txs_size_nonneg(tv.take(i as int));
                }
            }
            total = total.saturating_add(s);
            i = i + 1;
        }
        assert(tv.take(i as int) =~= tv);
        total
    }
}

/// Encoded lengths are never negative.
pub proof fn lemma_txs_size_nonneg(s: Seq<SignedTransactionView>)
    ensures
        txs_size(s) >= 0,
    decreases s.len(),
{
    if s.len() > 0 {
        lemma_txs_size_nonneg(s.drop_last());
    }
}

/// The genesis block: zero parent, zero nonce and timestamp, the network
/// target, no transactions and the all-zero Merkle root.
pub open spec fn is_genesis(b: BlockView) -> bool {
    &&& b.header.parent@ == Seq::new(32, |i: int| 0u8)
    &&& b.header.nonce == 0
    &&& b.header.difficulty@ == genesis_difficulty_bytes()
    &&& b.header.timestamp == 0
    &&& b.header.merkle_root@ == Seq::new(32, |i: int| 0u8)
    &&& b.transactions.len() == 0
}

} // verus!
