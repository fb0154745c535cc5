use vstd::prelude::*;
use crate::block::{header_hash, Block, BlockView};
use crate::blockchain::{block_views, pow_ok, BlockOrigin, Blockchain};
use crate::hash::H256;

verus! {

/// The gossip messages exchanged between peers.
#[derive(Debug)]
pub enum Message {
    Ping(u32),
    Pong(String),
    NewBlockHashes(Vec<H256>),
    GetBlocks(Vec<H256>),
    Blocks(Vec<Block>),
}

/// What a handled message asks the transport to send: a reply to the peer
/// that sent it, and a message for every peer.
#[derive(Debug)]
pub struct Outcome {
    pub reply: Option<Message>,
    pub broadcast: Option<Message>,
}

/// The hashes of `hashes` that are not stored, in order.
pub open spec fn unknown_hashes(chain: Blockchain, hashes: Seq<H256>) -> Seq<H256> {
    hashes.filter(|h: H256| !chain.contains(h))
}

/// The stored blocks among `hashes`, in request order.
pub open spec fn known_blocks(chain: Blockchain, hashes: Seq<H256>) -> Seq<BlockView> {
    hashes.filter(|h: H256| chain.contains(h)).map_values(|h: H256| chain.spec_blocks()[chain.index_of(h)])
}

/// The hashes of an announcement that this node lacks, in announcement order.
pub fn missing_hashes(chain: &Blockchain, hashes: &Vec<H256>) -> (r: Vec<H256>)
    requires
        chain.wf(),
    ensures
        r@ == unknown_hashes(*chain, hashes@),
{
    let mut r: Vec<H256> = Vec::new();
    let mut i: usize = 0;
    while i < hashes.len()
        invariant
            chain.wf(),
            i <= hashes@.len(),
            r@ == unknown_hashes(*chain, hashes@.take(i as int)),
        decreases hashes@.len() - i,
    {
        let h = hashes[i];
        proof {
            assert(hashes@.take(i + 1).drop_last() =~= hashes@.take(i as int));
            reveal(Seq::filter);
            assert(hashes@.take(i + 1).last() == h);
        }
        if !chain.contains_block(&h) {
            r.push(h);
        }
        i = i + 1;
    }
    proof {
        assert(hashes@.take(i as int) =~= hashes@);
    }
    r
}

/// The stored blocks among the requested hashes, in request order.
pub fn blocks_for(chain: &Blockchain, hashes: &Vec<H256>) -> (r: Vec<Block>)
    requires
        chain.wf(),
    ensures
        block_views(r@) == known_blocks(*chain, hashes@),
{
    let mut r: Vec<Block> = Vec::new();
    let mut i: usize = 0;
    while i < hashes.len()
        invariant
            chain.wf(),
            i <= hashes@.len(),
            block_views(r@) == known_blocks(*chain, hashes@.take(i as int)),
        decreases hashes@.len() - i,
    {
        let h = hashes[i];
        proof {
            assert(hashes@.take(i + 1).drop_last() =~= hashes@.take(i as int));
            reveal(Seq::filter);
            assert(hashes@.take(i + 1).last() == h);
        }
        if chain.contains_block(&h) {
            let b = chain.get_block(&h).duplicate();
            let ghost before = r@;
            r.push(b);
            proof {
                assert(block_views(r@) =~= block_views(before).push(b@));
                assert(known_blocks(*chain, hashes@.take(i + 1)) =~= known_blocks(*chain, hashes@.take(i as int)).push(b@));
            }
        } else {
            proof {
                assert(known_blocks(*chain, hashes@.take(i + 1)) =~= known_blocks(*chain, hashes@.take(i as int)));
            }
        }
        i = i + 1;
    }
    proof {
        assert(hashes@.take(i as int) =~= hashes@);
    }
    r
}

/// One delivered block, after its origin is recorded: a stored block or one
/// that misses its target is dropped; one whose parent is unknown is
/// buffered and its parent's hash added to `missing`; any other is inserted
/// recursively, the inserted hashes going to `relay`.
pub fn process_block(chain: &mut Blockchain, block: &Block, missing: &mut Vec<H256>, relay: &mut Vec<H256>)
    requires
        old(chain).wf(),
    ensures
        final(chain).wf(),
        old(chain).pow_gated() ==> final(chain).pow_gated(),
        old(chain).has_block(block@) || !pow_ok(block@, old(chain).spec_difficulty()) ==> {
            &&& *final(chain) == *old(chain)
            &&& final(missing)@ == old(missing)@
            &&& final(relay)@ == old(relay)@
        },
        !old(chain).has_block(block@) && pow_ok(block@, old(chain).spec_difficulty()) && !old(chain).contains(
            block.header.parent,
        ) ==> {
            &&& final(chain).same_tree(old(chain))
            &&& final(chain).spec_orphans() == old(chain).spec_orphans().push(block@)
            &&& final(chain).spec_origins() == old(chain).spec_origins()
            &&& final(missing)@ == old(missing)@.push(block.header.parent)
            &&& final(relay)@ == old(relay)@
        },
        !old(chain).has_block(block@) && pow_ok(block@, old(chain).spec_difficulty()) && old(chain).contains(
            block.header.parent,
        ) ==> {
            &&& Blockchain::inserted_recursively(*old(chain), *final(chain), block@, old(relay)@, final(relay)@)
            &&& final(missing)@ == old(missing)@
        },
{
    let h = block.hash();
    proof {
        if chain.has_block(block@) {
            let i = choose|i: int|
                0 <= i < chain.spec_hashes().len() && (#[trigger] chain.spec_hashes()[i])@ == header_hash(block.header);
            crate::hash::lemma_h256_view_injective(chain.spec_hashes()[i], h);
        }
        if chain.contains(h) {
            let i = choose|i: int| 0 <= i < chain.spec_hashes().len() && chain.spec_hashes()[i] == h;
            assert((chain.spec_hashes()[i])@ == header_hash(block.header));
        }
    }
    if chain.contains_block(&h) {
        return;
    }
    if !chain.pow_validity_check(block) {
        return;
    }
    if !chain.parent_check(block) {
        chain.add_to_orphan_buffer(block);
        missing.push(block.header.parent);
        return;
    }
    chain.insert_recursively(block, relay);
}

/// `new` keeps every block of `old` at its place, and every origin.
pub open spec fn extends(old: Blockchain, new: Blockchain) -> bool {
    &&& new.len() >= old.len()
    &&& new.spec_hashes().len() == new.len()
    &&& old.spec_hashes().len() == old.len()
    &&& new.spec_hashes().take(old.len()) == old.spec_hashes()
    &&& new.spec_blocks().take(old.len()) == old.spec_blocks()
    &&& new.spec_origins().len() >= old.spec_origins().len()
    &&& new.spec_origins().take(old.spec_origins().len() as int) == old.spec_origins()
    &&& new.spec_difficulty() == old.spec_difficulty()
}

/// Whether `h` is the parent named by one of `blocks`.
pub open spec fn is_parent_of_one(h: H256, blocks: Seq<Block>) -> bool {
    exists|k: int| 0 <= k < blocks.len() && h == #[trigger] blocks[k].header.parent
}

/// Whether an origin is recorded for the identity of `b`.
pub open spec fn has_origin_for(chain: Blockchain, b: BlockView) -> bool {
    exists|i: int| 0 <= i < chain.spec_origins().len() && (#[trigger] chain.spec_origins()[i]).0@ == header_hash(b.header)
}

proof fn lemma_extends_keeps(a: Blockchain, b: Blockchain)
    requires
        extends(a, b),
    ensures
        forall|x: BlockView| #[trigger] a.has_block(x) ==> b.has_block(x),
        forall|h: H256| #[trigger] a.contains(h) ==> b.contains(h),
        forall|x: BlockView| #[trigger] has_origin_for(a, x) ==> has_origin_for(b, x),
{
    assert forall|x: BlockView| #[trigger] a.has_block(x) implies b.has_block(x) by {
        let i = choose|i: int| 0 <= i < a.spec_hashes().len() && (#[trigger] a.spec_hashes()[i])@ == header_hash(x.header);
        assert(b.spec_hashes().take(a.len())[i] == b.spec_hashes()[i]);
    }
    assert forall|h: H256| #[trigger] a.contains(h) implies b.contains(h) by {
        let i = choose|i: int| 0 <= i < a.spec_hashes().len() && a.spec_hashes()[i] == h;
        assert(b.spec_hashes().take(a.len())[i] == b.spec_hashes()[i]);
    }
    assert forall|x: BlockView| #[trigger] has_origin_for(a, x) implies has_origin_for(b, x) by {
        let i = choose|i: int| 0 <= i < a.spec_origins().len() && (#[trigger] a.spec_origins()[i]).0@ == header_hash(x.header);
        assert(b.spec_origins().take(a.spec_origins().len() as int)[i] == b.spec_origins()[i]);
    }
}

proof fn lemma_extends_trans(a: Blockchain, b: Blockchain, c: Blockchain)
    requires
        extends(a, b),
        extends(b, c),
    ensures
        extends(a, c),
{
    assert(c.spec_hashes().take(a.len()) =~= c.spec_hashes().take(b.len()).take(a.len()));
    assert(c.spec_blocks().take(a.len()) =~= c.spec_blocks().take(b.len()).take(a.len()));
    assert(c.spec_origins().take(a.spec_origins().len() as int) =~= c.spec_origins().take(
        b.spec_origins().len() as int,
    ).take(a.spec_origins().len() as int));
}

/// The delay recorded for a block stamped `timestamp` and received at
/// `now_ms`: their difference, or zero for a block stamped in the future.
pub open spec fn received_delay(now_ms: u128, timestamp: u128) -> u128 {
    if now_ms >= timestamp {
        (now_ms - timestamp) as u128
    } else {
        0
    }
}

/// One delivered block taken from `c0` to `c1`, with the lists of missing
/// parents and of inserted hashes going from `m0`, `r0` to `m1`, `r1`.
///
/// Its origin is recorded as received `received_delay` ago unless one is
/// recorded already. A stored block, or one that misses the target, leaves
/// the tree, the buffer and both lists as they are. One whose parent is not
/// stored is buffered and its parent's hash added to the missing list. Any
/// other goes in with every buffered block it connects, as
/// `Blockchain::grew_recursively` says, their hashes going to the inserted
/// list.
pub open spec fn delivered(
    c0: Blockchain,
    c1: Blockchain,
    b: BlockView,
    now_ms: u128,
    m0: Seq<H256>,
    m1: Seq<H256>,
    r0: Seq<H256>,
    r1: Seq<H256>,
) -> bool {
    &&& if has_origin_for(c0, b) {
        c1.spec_origins() == c0.spec_origins()
    } else {
        &&& c1.spec_origins().len() == c0.spec_origins().len() + 1
        &&& c1.spec_origins().drop_last() == c0.spec_origins()
        &&& c1.spec_origins().last().0@ == header_hash(b.header)
        &&& c1.spec_origins().last().1 == BlockOrigin::Received {
            delay_ms: received_delay(now_ms, b.header.timestamp),
        }
    }
    &&& if c0.has_block(b) || !pow_ok(b, c0.spec_difficulty()) {
        &&& c1.same_tree(&c0)
        &&& c1.spec_orphans() == c0.spec_orphans()
        &&& m1 == m0
        &&& r1 == r0
    } else if !c0.contains(b.header.parent) {
        &&& c1.same_tree(&c0)
        &&& c1.spec_orphans() == c0.spec_orphans().push(b)
        &&& m1 == m0.push(b.header.parent)
        &&& r1 == r0
    } else {
        &&& Blockchain::grew_recursively(c0, c1, b, r0, r1)
        &&& m1 == m0
    }
}

/// The blocks `bs`, delivered one after another in order, take `c0` to `c1`
/// and produce the missing-parent list `missing` and the inserted list
/// `relay`, both starting empty.
pub open spec fn delivery(
    c0: Blockchain,
    c1: Blockchain,
    bs: Seq<BlockView>,
    now_ms: u128,
    missing: Seq<H256>,
    relay: Seq<H256>,
) -> bool {
    exists|cs: Seq<Blockchain>, ms: Seq<Seq<H256>>, rs: Seq<Seq<H256>>|
        #[trigger] delivery_trace(cs, ms, rs, c0, c1, bs, now_ms, missing, relay)
}

/// A witness for `delivery`: the states and lists after each block.
pub open spec fn delivery_trace(
    cs: Seq<Blockchain>,
    ms: Seq<Seq<H256>>,
    rs: Seq<Seq<H256>>,
    c0: Blockchain,
    c1: Blockchain,
    bs: Seq<BlockView>,
    now_ms: u128,
    missing: Seq<H256>,
    relay: Seq<H256>,
) -> bool {
    let n = bs.len() as int;
    &&& cs.len() == n + 1 && ms.len() == n + 1 && rs.len() == n + 1
    &&& cs[0] == c0 && cs[n] == c1
    &&& ms[0] == Seq::<H256>::empty() && ms[n] == missing
    &&& rs[0] == Seq::<H256>::empty() && rs[n] == relay
    &&& forall|k: int|
        0 <= k < n ==> #[trigger] delivered(cs[k], cs[k + 1], bs[k], now_ms, ms[k], ms[k + 1], rs[k], rs[k + 1])
}

/// Handles a delivery of blocks, in order: records each block's origin as
/// received `now_ms` minus its timestamp (saturating at zero) unless one is
/// recorded, then processes it as `process_block` says. Returns the parent
/// hashes to request from the sender and the hashes to announce to all.
///
/// Afterwards every delivered block that meets the target is stored or
/// buffered, no stored block or recorded origin is lost, every hash to
/// request is the parent of a delivered block, and the hashes to announce
/// are those of the blocks that went in, in the order they went in.
pub fn handle_blocks(chain: &mut Blockchain, blocks: &Vec<Block>, now_ms: u128) -> (r: (Vec<H256>, Vec<H256>))
    requires
        old(chain).wf(),
    ensures
        final(chain).wf(),
        old(chain).pow_gated() ==> final(chain).pow_gated(),
        extends(*old(chain), *final(chain)),
        forall|k: int|
            0 <= k < blocks@.len() ==> {
                &&& has_origin_for(*final(chain), #[trigger] blocks@[k]@)
                &&& final(chain).has_block(blocks@[k]@) || !pow_ok(blocks@[k]@, old(chain).spec_difficulty())
                    || final(chain).spec_orphans().contains(blocks@[k]@)
            },
        forall|m: int|
            0 <= m < r.0@.len() ==> #[trigger] is_parent_of_one(r.0@[m], blocks@),
        forall|m: int| 0 <= m < r.1@.len() ==> final(chain).contains(#[trigger] r.1@[m]),
        r.1@ == final(chain).spec_hashes().skip(old(chain).len()),
        delivery(*old(chain), *final(chain), block_views(blocks@), now_ms, r.0@, r.1@),
{
    let ghost c0 = *chain;
    let mut missing: Vec<H256> = Vec::new();
    let mut relay: Vec<H256> = Vec::new();
    let mut i: usize = 0;
    let ghost mut cs: Seq<Blockchain> = seq![*chain];
    let ghost mut ms: Seq<Seq<H256>> = seq![Seq::<H256>::empty()];
    let ghost mut rs: Seq<Seq<H256>> = seq![Seq::<H256>::empty()];
    let ghost bv = block_views(blocks@);
    proof {
        crate::blockchain::lemma_lengths(chain);
        assert(chain.spec_hashes().take(chain.len()) =~= chain.spec_hashes());
        assert(chain.spec_blocks().take(chain.len()) =~= chain.spec_blocks());
        assert(chain.spec_origins().take(chain.spec_origins().len() as int) =~= chain.spec_origins());
        assert(relay@ =~= chain.spec_hashes().skip(c0.len()));
        crate::blockchain::lemma_lengths(chain);
    }
    while i < blocks.len()
        invariant
            chain.wf(),
            c0.pow_gated() ==> chain.pow_gated(),
            extends(c0, *chain),
            i <= blocks@.len(),
            forall|k: int|
                0 <= k < i ==> {
                    &&& has_origin_for(*chain, #[trigger] blocks@[k]@)
                    &&& chain.has_block(blocks@[k]@) || !pow_ok(blocks@[k]@, c0.spec_difficulty())
                        || chain.spec_orphans().contains(blocks@[k]@)
                },
            forall|m: int|
                0 <= m < missing@.len() ==> exists|k: int|
                    0 <= k < i && #[trigger] missing@[m] == blocks@[k].header.parent,
            forall|m: int| 0 <= m < relay@.len() ==> chain.contains(#[trigger] relay@[m]),
            relay@ == chain.spec_hashes().skip(c0.len()),
            bv == block_views(blocks@),
            cs.len() == i + 1 && ms.len() == i + 1 && rs.len() == i + 1,
            cs[0] == c0 && cs[i as int] == *chain,
            ms[0] == Seq::<H256>::empty() && ms[i as int] == missing@,
            rs[0] == Seq::<H256>::empty() && rs[i as int] == relay@,
            forall|k: int|
                0 <= k < i ==> #[trigger] delivered(cs[k], cs[k + 1], bv[k], now_ms, ms[k], ms[k + 1], rs[k], rs[k + 1]),
        decreases blocks@.len() - i,
    {
        let b = &blocks[i];
        let h = b.hash();
        let ghost c1 = *chain;
        chain.record_received(h, now_ms.saturating_sub(b.header.timestamp));
        let ghost c2 = *chain;
        proof {
            crate::blockchain::lemma_lengths(chain);
            assert(chain.spec_origins().take(c1.spec_origins().len() as int) =~= c1.spec_origins());
            assert(chain.spec_hashes().take(c1.len()) =~= c1.spec_hashes());
            assert(chain.spec_blocks().take(c1.len()) =~= c1.spec_blocks());
            lemma_extends_trans(c0, c1, c2);
            lemma_extends_keeps(c1, c2);
            if c1.has_origin(h) {
                let j = choose|j: int| 0 <= j < c1.spec_origins().len() && (#[trigger] c1.spec_origins()[j]).0 == h;
                assert(c2.spec_origins()[j].0@ == header_hash(b.header));
            } else {
                assert(c2.spec_origins()[c2.spec_origins().len() - 1].0@ == header_hash(b.header));
            }
            assert(has_origin_for(c2, b@));
        }
        let ghost relay_before = relay@;
        let ghost miss_before = missing@;
        process_block(chain, b, &mut missing, &mut relay);
        proof {
            let c3 = *chain;
            crate::blockchain::lemma_lengths(chain);
            crate::blockchain::lemma_lengths(&c2);
            if !c2.has_block(b@) && pow_ok(b@, c2.spec_difficulty()) && c2.contains(b.header.parent) {
                assert(c3.spec_origins() =~= c2.spec_origins());
                assert(c3.spec_origins().take(c2.spec_origins().len() as int) =~= c2.spec_origins());
                lemma_extends_keeps(c2, c3);
                assert(relay@ =~= c3.spec_hashes().skip(c0.len())) by {
                    assert(c3.spec_hashes().take(c2.len()) == c2.spec_hashes());
                    assert forall|m: int| 0 <= m < relay@.len() implies relay@[m] == c3.spec_hashes().skip(c0.len())[m] by {
                        if m < relay_before.len() {
                            assert(relay_before[m] == c2.spec_hashes()[c0.len() + m]);
                            assert(c3.spec_hashes().take(c2.len())[c0.len() + m] == c3.spec_hashes()[c0.len() + m]);
                        } else {
                            assert(relay@[m] == c3.spec_hashes().skip(c2.len())[m - relay_before.len()]);
                        }
                    }
                }
                assert forall|m: int| 0 <= m < relay@.len() implies c3.contains(#[trigger] relay@[m]) by {
                    let r0 = relay_before.len() as int;
                    if m < r0 {
                        assert(relay@[m] == relay_before[m]);
                        assert(c2.contains(relay_before[m]));
                    } else {
                        let k = c2.len() + (m - r0);
                        assert(relay@[m] == c3.spec_hashes()[k]);
                    }
                }
            } else {
                assert(c3.spec_hashes().take(c2.len()) =~= c2.spec_hashes());
                assert(c3.spec_hashes() =~= c2.spec_hashes());
                assert(c3.spec_blocks().take(c2.len()) =~= c2.spec_blocks());
                assert(c3.spec_origins().take(c2.spec_origins().len() as int) =~= c2.spec_origins());
            }
            lemma_extends_keeps(c2, c3);
            lemma_extends_trans(c0, c2, c3);
            assert forall|k: int|
                0 <= k < i + 1 implies {
                    &&& has_origin_for(c3, #[trigger] blocks@[k]@)
                    &&& c3.has_block(blocks@[k]@) || !pow_ok(blocks@[k]@, c0.spec_difficulty())
                        || c3.spec_orphans().contains(blocks@[k]@)
                } by {
                let x = blocks@[k]@;
                if k == i {
                    assert(x == b@);
                    if !c2.has_block(b@) && pow_ok(b@, c2.spec_difficulty()) && c2.contains(b.header.parent) {
                        assert(c3.spec_hashes()[c2.len()]@ == header_hash(c3.spec_blocks()[c2.len()].header));
                        assert(c3.has_block(b@));
                    } else if !c2.has_block(b@) && pow_ok(b@, c2.spec_difficulty()) {
                        assert(c3.spec_orphans()[c3.spec_orphans().len() - 1] == b@);
                    }
                } else {
                    assert(has_origin_for(c1, x));
                    if c1.has_block(x) {
                    } else if c1.spec_orphans().contains(x) && pow_ok(x, c0.spec_difficulty()) {
                        assert(c2.spec_orphans().contains(x));
                        if !c2.has_block(b@) && pow_ok(b@, c2.spec_difficulty()) && !c2.contains(b.header.parent) {
                            let j = choose|j: int| 0 <= j < c2.spec_orphans().len() && c2.spec_orphans()[j] == x;
                            assert(c3.spec_orphans()[j] == x);
                        }
                    }
                }
            }
        }
        proof {
            let c3 = *chain;
            assert(bv[i as int] == b@);
            assert(has_origin_for(c1, b@) <==> c1.has_origin(h)) by {
                if has_origin_for(c1, b@) {
                    let j = choose|j: int|
                        0 <= j < c1.spec_origins().len() && (#[trigger] c1.spec_origins()[j]).0@ == header_hash(b@.header);
                    crate::hash::lemma_h256_view_injective(c1.spec_origins()[j].0, h);
                }
                if c1.has_origin(h) {
                    let j = choose|j: int| 0 <= j < c1.spec_origins().len() && (#[trigger] c1.spec_origins()[j]).0 == h;
                    assert(c1.spec_origins()[j].0@ == header_hash(b@.header));
                }
            }
            assert(c1.has_block(b@) == c2.has_block(b@));
            assert(c1.contains(b.header.parent) == c2.contains(b.header.parent));
            assert(delivered(c1, c3, b@, now_ms, miss_before, missing@, relay_before, relay@));
            cs = cs.push(c3);
            ms = ms.push(missing@);
            rs = rs.push(relay@);
        }
        i = i + 1;
    }
    proof {
        assert(delivery_trace(cs, ms, rs, c0, *chain, bv, now_ms, missing@, relay@));
        assert forall|m: int| 0 <= m < missing@.len() implies #[trigger] is_parent_of_one(missing@[m], blocks@) by {
            let k = choose|k: int| 0 <= k < i && #[trigger] missing@[m] == blocks@[k].header.parent;
            assert(0 <= k < blocks@.len() && missing@[m] == blocks@[k].header.parent);
        }
    }
    (missing, relay)
}

/// The replies to a delivery: a request for the missing parents, in order,
/// and an announcement of the inserted hashes, in order, each only when its
/// list is not empty.
pub open spec fn delivery_outcome(r: Outcome, missing: Seq<H256>, relay: Seq<H256>) -> bool {
    &&& missing.len() == 0 ==> r.reply is None
    &&& missing.len() > 0 ==> match r.reply {
        Some(Message::GetBlocks(v)) => v@ == missing,
        _ => false,
    }
    &&& relay.len() == 0 ==> r.broadcast is None
    &&& relay.len() > 0 ==> match r.broadcast {
        Some(Message::NewBlockHashes(v)) => v@ == relay,
        _ => false,
    }
}

/// Handles one inbound message: a ping is answered with its nonce in
/// decimal; an announcement with a request for the hashes this node lacks;
/// a request with the stored blocks asked for; a delivery as
/// `handle_blocks` says, answered with a request for the missing parents and
/// followed by an announcement of the hashes of the blocks that went in, in
/// the order they went in. Nothing is sent where there
/// is nothing to send.
pub fn handle_message(chain: &mut Blockchain, msg: Message, now_ms: u128) -> (r: Outcome)
    requires
        old(chain).wf(),
    ensures
        final(chain).wf(),
        old(chain).pow_gated() ==> final(chain).pow_gated(),
        match msg {
            Message::Ping(n) => {
                &&& *final(chain) == *old(chain)
                &&& r.broadcast is None
                &&& match r.reply {
                    Some(Message::Pong(s)) => vstd::string::to_string_from_display_ensures::<u32>(&n, s),
                    _ => false,
                }
            },
            Message::Pong(_) => *final(chain) == *old(chain) && r.reply is None && r.broadcast is None,
            Message::NewBlockHashes(hs) => {
                &&& *final(chain) == *old(chain)
                &&& r.broadcast is None
                &&& unknown_hashes(*old(chain), hs@).len() == 0 ==> r.reply is None
                &&& unknown_hashes(*old(chain), hs@).len() > 0 ==> match r.reply {
                    Some(Message::GetBlocks(v)) => v@ == unknown_hashes(*old(chain), hs@),
                    _ => false,
                }
            },
            Message::GetBlocks(hs) => {
                &&& *final(chain) == *old(chain)
                &&& r.broadcast is None
                &&& known_blocks(*old(chain), hs@).len() == 0 ==> r.reply is None
                &&& known_blocks(*old(chain), hs@).len() > 0 ==> match r.reply {
                    Some(Message::Blocks(v)) => block_views(v@) == known_blocks(*old(chain), hs@),
                    _ => false,
                }
            },
            Message::Blocks(bs) => {
                &&& exists|missing: Seq<H256>, relay: Seq<H256>|
                    #[trigger] delivery(*old(chain), *final(chain), block_views(bs@), now_ms, missing, relay)
                        && delivery_outcome(r, missing, relay)
                &&& extends(*old(chain), *final(chain))
                &&& forall|k: int|
                    0 <= k < bs@.len() ==> {
                        &&& has_origin_for(*final(chain), #[trigger] bs@[k]@)
                        &&& final(chain).has_block(bs@[k]@) || !pow_ok(bs@[k]@, old(chain).spec_difficulty())
                            || final(chain).spec_orphans().contains(bs@[k]@)
                    }
                &&& match r.reply {
                    Some(Message::GetBlocks(v)) => v@.len() > 0 && forall|m: int|
                        0 <= m < v@.len() ==> #[trigger] is_parent_of_one(v@[m], bs@),
                    None => true,
                    _ => false,
                }
                &&& match r.broadcast {
                    Some(Message::NewBlockHashes(v)) => v@.len() > 0 && v@ == final(chain).spec_hashes().skip(
                        old(chain).len(),
                    ),
                    None => final(chain).len() == old(chain).len(),
                    _ => false,
                }
            },
        },
{
    match msg {
        Message::Ping(n) => Outcome { reply: Some(Message::Pong(n.to_string())), broadcast: None },
        Message::Pong(_) => Outcome { reply: None, broadcast: None },
        Message::NewBlockHashes(hs) => {
            let missing = missing_hashes(chain, &hs);
            if missing.len() > 0 {
                Outcome { reply: Some(Message::GetBlocks(missing)), broadcast: None }
            } else {
                Outcome { reply: None, broadcast: None }
            }
        },
        Message::GetBlocks(hs) => {
            let blocks = blocks_for(chain, &hs);
            if blocks.len() > 0 {
                Outcome { reply: Some(Message::Blocks(blocks)), broadcast: None }
            } else {
                Outcome { reply: None, broadcast: None }
            }
        },
        Message::Blocks(bs) => {
            let (missing, relay) = handle_blocks(chain, &bs, now_ms);
            let reply = if missing.len() > 0 {
                Some(Message::GetBlocks(missing))
            } else {
                None
            };
            let broadcast = if relay.len() > 0 {
                Some(Message::NewBlockHashes(relay))
            } else {
                None
            };
            Outcome { reply, broadcast }
        },
    }
}

/// A delivery of one block is that block's `delivered` step from empty
/// lists.
pub proof fn lemma_single_delivery(
    c0: Blockchain,
    c1: Blockchain,
    b: BlockView,
    now_ms: u128,
    missing: Seq<H256>,
    relay: Seq<H256>,
)
    requires
        delivery(c0, c1, seq![b], now_ms, missing, relay),
    ensures
        delivered(c0, c1, b, now_ms, Seq::empty(), missing, Seq::empty(), relay),
{
    let (cs, ms, rs) = choose|cs: Seq<Blockchain>, ms: Seq<Seq<H256>>, rs: Seq<Seq<H256>>|
        #[trigger] delivery_trace(cs, ms, rs, c0, c1, seq![b], now_ms, missing, relay);
    assert(delivered(cs[0], cs[1], seq![b][0], now_ms, ms[0], ms[1], rs[0], rs[1]));
}

} // verus!
