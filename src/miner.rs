use vstd::prelude::*;
use crate::block::{header_hash, merkle_root, merkle_root_of_txs, Block, Content, Header};
use crate::blockchain::{pow_ok, Blockchain};
use crate::hash::{bytes_le, H256};
use crate::mempool::Mempool;
use crate::transaction::{tx_encodable, SignedTransaction, SignedTransactionView};

verus! {

/// Most transactions taken into one candidate block.
pub const MAX_BLOCK_TXS: usize = 10;

/// A signal on the miner's control channel.
#[derive(Clone, Copy, Debug)]
pub enum ControlSignal {
    /// Mine continuously, sleeping this many microseconds between attempts.
    Start(u64),
    Exit,
}

#[derive(Clone, Copy, Debug)]
pub enum OperatingState {
    Paused,
    Run(u64),
    ShutDown,
}

/// What the miner's driver does besides changing state on a signal.
#[derive(Clone, Copy, Debug)]
pub enum ControlEffect {
    Nothing,
    /// Mining starts for the first time: note the start time.
    StampStartTime,
    /// Shutting down after mining had started: report the statistics.
    ReportStats,
}

/// The state a signal leads to, and what else is to be done: `Start`
/// runs with its interval and stamps the start time the first time; `Exit`
/// shuts down and reports statistics when mining had started.
pub fn handle_control_signal(signal: ControlSignal, started: bool) -> (r: (OperatingState, ControlEffect))
    ensures
        match signal {
            ControlSignal::Start(l) => r.0 == OperatingState::Run(l) && (if started {
                r.1 == ControlEffect::Nothing
            } else {
                r.1 == ControlEffect::StampStartTime
            }),
            ControlSignal::Exit => r.0 == OperatingState::ShutDown && (if started {
                r.1 == ControlEffect::ReportStats
            } else {
                r.1 == ControlEffect::Nothing
            }),
        },
{
    match signal {
        ControlSignal::Start(l) => {
            let effect = if started {
                ControlEffect::Nothing
            } else {
                ControlEffect::StampStartTime
            };
            (OperatingState::Run(l), effect)
        },
        ControlSignal::Exit => {
            let effect = if started {
                ControlEffect::ReportStats
            } else {
                ControlEffect::Nothing
            };
            (OperatingState::ShutDown, effect)
        },
    }
}

/// The stand-in transaction: zero addresses, value and nonce, with an
/// empty key and signature.
pub open spec fn is_filler(t: SignedTransactionView) -> bool {
    &&& t.raw.value == 0
    &&& t.raw.nonce == 0
    &&& forall|i: int| 0 <= i < 20 ==> t.raw.from_addr@[i] == 0 && t.raw.to_addr@[i] == 0
    &&& t.pub_key.len() == 0
    &&& t.signature.len() == 0
}

/// What the miner does next in a state.
#[derive(Clone, Copy, Debug)]
pub enum MinerAction {
    /// Block on the control channel and apply the signal that comes.
    WaitForSignal,
    /// Apply any pending signal without blocking; then, unless it stopped
    /// the miner, sleep this many microseconds when not zero and make one
    /// attempt.
    PollThenMine(u64),
    /// Leave the loop.
    Stop,
}

/// The miner's step in each operating state: paused, it waits for a signal;
/// running, it polls and mines; shut down, it stops.
pub fn next_action(state: OperatingState) -> (r: MinerAction)
    ensures
        match state {
            OperatingState::Paused => r == MinerAction::WaitForSignal,
            OperatingState::Run(l) => r == MinerAction::PollThenMine(l),
            OperatingState::ShutDown => r == MinerAction::Stop,
        },
{
    match state {
        OperatingState::Paused => MinerAction::WaitForSignal,
        OperatingState::Run(l) => MinerAction::PollThenMine(l),
        OperatingState::ShutDown => MinerAction::Stop,
    }
}

/// The last `k` items of `s`, last first: what `k` pops return.
pub open spec fn popped(s: Seq<SignedTransactionView>, k: int) -> Seq<SignedTransactionView> {
    Seq::new(k as nat, |j: int| s[s.len() - 1 - j])
}

pub open spec fn min_int(a: int, b: int) -> int {
    if a < b {
        a
    } else {
        b
    }
}

/// Pops up to `MAX_BLOCK_TXS` transactions; with none pending, a single
/// zero-valued transaction stands in so that the Merkle tree has a leaf.
pub fn select_transactions(mempool: &mut Mempool) -> (r: Vec<SignedTransaction>)
    requires
        old(mempool).wf(),
    ensures
        final(mempool).wf(),
        ({
            let k = min_int(MAX_BLOCK_TXS as int, old(mempool)@.len() as int);
            &&& final(mempool)@ == old(mempool)@.take(old(mempool)@.len() - k)
            &&& k > 0 ==> r@.map_values(|t: SignedTransaction| t@) == popped(old(mempool)@, k)
            &&& k == 0 ==> r@.len() == 1 && is_filler(r@[0]@)
        }),
        r@.len() >= 1,
        forall|i: int| 0 <= i < r@.len() ==> tx_encodable(#[trigger] r@[i]@),
{
    let ghost start = mempool@;
    let mut txs: Vec<SignedTransaction> = Vec::new();
    while txs.len() < MAX_BLOCK_TXS
        invariant
            mempool.wf(),
            txs@.len() <= MAX_BLOCK_TXS,
            txs@.len() <= start.len(),
            mempool@ == start.take(start.len() - txs@.len()),
            txs@.map_values(|t: SignedTransaction| t@) == popped(start, txs@.len() as int),
            forall|i: int| 0 <= i < txs@.len() ==> tx_encodable(#[trigger] txs@[i]@),
        ensures
            txs@.len() == MAX_BLOCK_TXS || txs@.len() == start.len(),
            txs@.len() <= MAX_BLOCK_TXS,
            txs@.len() <= start.len(),
            mempool.wf(),
            mempool@ == start.take(start.len() - txs@.len()),
            txs@.map_values(|t: SignedTransaction| t@) == popped(start, txs@.len() as int),
            forall|i: int| 0 <= i < txs@.len() ==> tx_encodable(#[trigger] txs@[i]@),
        decreases MAX_BLOCK_TXS - txs@.len(),
    {
        let ghost before = mempool@;
        match mempool.pop() {
            Some(t) => {
                let ghost tv = txs@;
                txs.push(t);
                proof {
                    assert(mempool@ =~= start.take(start.len() - txs@.len()));
                    assert(txs@.map_values(|t: SignedTransaction| t@) =~= tv.map_values(|t: SignedTransaction| t@).push(t@));
                    assert(t@ == start[start.len() - 1 - tv.len()]);
                    assert(txs@.map_values(|t: SignedTransaction| t@) =~= popped(start, txs@.len() as int));
                    assert(tx_encodable(before[before.len() - 1]));
                }
            },
            None => {
                break;
            },
        }
    }
    if txs.len() == 0 {
        txs.push(SignedTransaction::filler());
    }
    txs
}

/// The candidate block on the tip: the tip's target, the Merkle root of
/// `txs`, and the given nonce and timestamp.
pub fn assemble_block(chain: &Blockchain, txs: Vec<SignedTransaction>, nonce: u32, timestamp: u128) -> (r: Block)
    requires
        chain.wf(),
        forall|i: int| 0 <= i < txs@.len() ==> tx_encodable(#[trigger] txs@[i]@),
    ensures
        r.header.parent == chain.tip_hash(),
        r.header.difficulty == chain.spec_blocks()[chain.index_of(chain.tip_hash())].header.difficulty,
        chain.pow_gated() ==> r.header.difficulty == chain.spec_difficulty(),
        r.header.merkle_root@ == merkle_root_of_txs(txs@.map_values(|t: SignedTransaction| t@)),
        r.header.nonce == nonce,
        r.header.timestamp == timestamp,
        r@.transactions == txs@.map_values(|t: SignedTransaction| t@),
{
    let parent = chain.tip();
    proof {
        crate::blockchain::lemma_tip_is_tallest(chain);
        crate::blockchain::lemma_tree(chain);
        crate::blockchain::lemma_lengths(chain);
    }
    let difficulty = chain.get_block(&parent).header.difficulty;
    proof {
        let i = chain.index_of(parent);
        if i == 0 {
            crate::hash::lemma_h256_view_injective(difficulty, chain.spec_difficulty());
        } else if chain.pow_gated() {
            crate::blockchain::lemma_pow_gate(chain);
            assert(pow_ok(chain.spec_blocks()[i], chain.spec_difficulty()));
        }
    }
    let merkle = merkle_root(&txs);
    Block {
        header: Header { parent, nonce, difficulty, timestamp, merkle_root: merkle },
        content: Content { transactions: txs },
    }
}

/// One mining attempt with the given nonce and timestamp: takes transactions,
/// builds the candidate on the tip, and when its hash meets the target
/// stores it, marks it mined and returns it with `true`; otherwise puts the
/// transactions back into the pool and returns the candidate with `false`.
pub fn mining_step(chain: &mut Blockchain, mempool: &mut Mempool, nonce: u32, timestamp: u128) -> (r: (Block, bool))
    requires
        old(chain).wf(),
        old(mempool).wf(),
    ensures
        final(chain).wf(),
        final(mempool).wf(),
        old(chain).pow_gated() ==> final(chain).pow_gated(),
        r.0.header.parent == old(chain).tip_hash(),
        r.0.header.difficulty == old(chain).spec_blocks()[old(chain).index_of(old(chain).tip_hash())].header.difficulty,
        old(chain).pow_gated() ==> r.0.header.difficulty == old(chain).spec_difficulty(),
        r.0.header.merkle_root@ == merkle_root_of_txs(r.0@.transactions),
        r.0.header.nonce == nonce,
        r.0.header.timestamp == timestamp,
        r.1 == bytes_le(header_hash(r.0.header), r.0.header.difficulty@),
        ({
            let k = min_int(MAX_BLOCK_TXS as int, old(mempool)@.len() as int);
            &&& k > 0 ==> r.0@.transactions == popped(old(mempool)@, k)
            &&& k == 0 ==> r.0@.transactions.len() == 1 && is_filler(r.0@.transactions[0])
            &&& r.1 ==> final(mempool)@ == old(mempool)@.take(old(mempool)@.len() - k)
            &&& !r.1 ==> final(mempool)@ == old(mempool)@.take(old(mempool)@.len() - k) + r.0@.transactions
        }),
        r.1 ==> final(chain).has_block(r.0@) && final(chain).is_mined(header_hash(r.0.header)),
        r.1 ==> final(chain).spec_orphans() == old(chain).spec_orphans(),
        r.1 ==> final(chain).spec_origins().len() <= old(chain).spec_origins().len() + 1,
        r.1 ==> forall|i: int|
            0 <= i < old(chain).spec_origins().len() && (#[trigger] old(chain).spec_origins()[i]).0@ != header_hash(
                r.0.header,
            ) ==> final(chain).spec_origins()[i] == old(chain).spec_origins()[i],
        r.1 && old(chain).has_block(r.0@) ==> final(chain).same_tree(old(chain)),
        r.1 && !old(chain).has_block(r.0@) ==> Blockchain::appended(*old(chain), *final(chain), r.0@),
        !r.1 ==> *final(chain) == *old(chain),
{
    let txs = select_transactions(mempool);
    let ghost tv = txs@;
    let block = assemble_block(chain, txs, nonce, timestamp);
    proof {
        assert forall|j: int| 0 <= j < block.content.transactions@.len() implies tx_encodable(#[trigger] block.content.transactions@[j]@) by {
            assert(block@.transactions[j] == block.content.transactions@[j]@);
            assert(tv.map_values(|t: SignedTransaction| t@)[j] == tv[j]@);
        }
    }
    let h = block.hash();
    let mined = h.le(&block.header.difficulty);
    proof {
        crate::blockchain::lemma_tip_is_tallest(chain);
        crate::blockchain::lemma_tree(chain);
    }
    if mined {
        chain.insert(&block);
        let ghost inserted = *chain;
        chain.mark_mined(h);
        proof {
            if inserted.has_origin(h) {
                let j = choose|j: int| 0 <= j < inserted.spec_origins().len() && (#[trigger] inserted.spec_origins()[j]).0 == h;
                assert(chain.spec_origins() == inserted.spec_origins().update(j, (h, crate::blockchain::BlockOrigin::Mined)));
            }
            assert forall|i: int|
                0 <= i < inserted.spec_origins().len() && (#[trigger] inserted.spec_origins()[i]).0@ != header_hash(block.header)
                    implies chain.spec_origins()[i] == inserted.spec_origins()[i] by {
                if inserted.has_origin(h) {
                    let j = choose|j: int| 0 <= j < inserted.spec_origins().len() && (#[trigger] inserted.spec_origins()[j]).0 == h;
                    assert(chain.spec_origins() == inserted.spec_origins().update(j, (h, crate::blockchain::BlockOrigin::Mined)));
                    assert(i != j);
                }
            }
            let j = choose|j: int| 0 <= j < chain.spec_origins().len() && chain.spec_origins()[j] == (h, crate::blockchain::BlockOrigin::Mined);
            assert(chain.spec_origins()[j].0@ == header_hash(block.header));
            if !inserted.has_block(block@) {
                crate::blockchain::lemma_lengths(&*chain);
                assert(chain.spec_hashes()[chain.len() - 1]@ == header_hash(block.header));
            }
        }
    } else {
        let ghost base = mempool@;
        let mut i: usize = 0;
        while i < block.content.transactions.len()
            invariant
                mempool.wf(),
                i <= block.content.transactions@.len(),
                forall|j: int| 0 <= j < block.content.transactions@.len() ==> tx_encodable(#[trigger] block.content.transactions@[j]@),
                mempool@ == base + block@.transactions.take(i as int),
            decreases block.content.transactions@.len() - i,
        {
            mempool.insert(block.content.transactions[i].duplicate());
            proof {
                assert(block@.transactions.take(i + 1) =~= block@.transactions.take(i as int).push(block@.transactions[i as int]));
            }
            i = i + 1;
        }
        proof {
            assert(block@.transactions.take(i as int) =~= block@.transactions);
        }
    }
    (block, mined)
}

} // verus!
