use blocktree::block::{merkle_root, Block, Content, Header};
use blocktree::blockchain::{BlockOrigin, Blockchain};
use blocktree::hash::{H160, H256};
use blocktree::mempool::Mempool;
use blocktree::miner::{
    handle_control_signal, mining_step, next_action, select_transactions, MinerAction, ControlEffect, ControlSignal,
    OperatingState,
};
use blocktree::state::{deterministic_address_of, State};
use blocktree::transaction::{RawTransaction, SignedTransaction};
use blocktree::worker::{handle_blocks, handle_message, Message};
use ring::signature::KeyPair;

fn difficulty_of(chain: &Blockchain) -> H256 {
    let g = chain.all_blocks_in_longest_chain()[0];
    chain.get_block(&g).header.difficulty
}

/// A block on `parent` that meets `difficulty`, told apart from its
/// siblings by `salt`.
fn mined_block(parent: &H256, difficulty: &H256, salt: u128) -> Block {
    let mut nonce: u32 = 0;
    loop {
        let header = Header {
            parent: *parent,
            nonce,
            difficulty: *difficulty,
            timestamp: salt,
            merkle_root: H256::zero(),
        };
        if header.hash().le(difficulty) {
            return Block { header, content: Content { transactions: Vec::new() } };
        }
        nonce += 1;
    }
}

/// A block on `parent` whose hash exceeds `difficulty`.
fn unmined_block(parent: &H256, difficulty: &H256) -> Block {
    let mut nonce: u32 = 0;
    loop {
        let header = Header {
            parent: *parent,
            nonce,
            difficulty: *difficulty,
            timestamp: 7,
            merkle_root: H256::zero(),
        };
        if !header.hash().le(difficulty) {
            return Block { header, content: Content { transactions: Vec::new() } };
        }
        nonce += 1;
    }
}

fn height(chain: &Blockchain) -> usize {
    chain.all_blocks_in_longest_chain().len() - 1
}

#[test]
fn insert_one() {
    let mut chain = Blockchain::new();
    let d = difficulty_of(&chain);
    let genesis_hash = chain.tip();
    let block = mined_block(&genesis_hash, &d, 1);
    chain.insert(&block);
    assert_eq!(chain.tip(), block.hash());
    assert_eq!(height(&chain), 1);
}

#[test]
fn mp1_insert_chain() {
    let mut chain = Blockchain::new();
    let d = difficulty_of(&chain);
    let genesis_hash = chain.tip();
    let mut block = mined_block(&genesis_hash, &d, 1);
    chain.insert(&block);
    assert_eq!(chain.tip(), block.hash());
    for i in 2..=51u128 {
        let h = block.hash();
        block = mined_block(&h, &d, i);
        chain.insert(&block);
        assert_eq!(chain.tip(), block.hash());
        assert_eq!(height(&chain), i as usize);
    }
    let path = chain.all_blocks_in_longest_chain();
    assert_eq!(path.len(), 52);
    assert_eq!(path[0], genesis_hash);
    assert_eq!(path[51], block.hash());
    for k in 1..path.len() {
        assert_eq!(chain.get_block(&path[k]).header.parent, path[k - 1]);
    }
}

#[test]
fn mp1_insert_3_fork_and_back() {
    let mut chain = Blockchain::new();
    let d = difficulty_of(&chain);
    let genesis_hash = chain.tip();
    let block_1 = mined_block(&genesis_hash, &d, 1);
    chain.insert(&block_1);
    assert_eq!(chain.tip(), block_1.hash());
    let block_2 = mined_block(&block_1.hash(), &d, 2);
    chain.insert(&block_2);
    assert_eq!(chain.tip(), block_2.hash());
    let block_3 = mined_block(&block_2.hash(), &d, 3);
    chain.insert(&block_3);
    assert_eq!(chain.tip(), block_3.hash());
    assert_eq!(height(&chain), 3);
    let fork_block_1 = mined_block(&block_2.hash(), &d, 4);
    chain.insert(&fork_block_1);
    assert_eq!(chain.tip(), block_3.hash());
    let fork_block_2 = mined_block(&fork_block_1.hash(), &d, 5);
    chain.insert(&fork_block_2);
    assert_eq!(chain.tip(), fork_block_2.hash());
    assert_eq!(height(&chain), 4);
    let block_4 = mined_block(&block_3.hash(), &d, 6);
    chain.insert(&block_4);
    assert_eq!(chain.tip(), fork_block_2.hash());
    let block_5 = mined_block(&block_4.hash(), &d, 7);
    chain.insert(&block_5);
    assert_eq!(chain.tip(), block_5.hash());
    assert_eq!(height(&chain), 5);
    assert_eq!(chain.block_count(), 8);
}

#[test]
fn equal_height_keeps_first_seen_tip() {
    let mut chain = Blockchain::new();
    let d = difficulty_of(&chain);
    let g = chain.tip();
    let a = mined_block(&g, &d, 1);
    let b = mined_block(&g, &d, 2);
    chain.insert(&a);
    chain.insert(&b);
    assert_eq!(chain.tip(), a.hash());
    assert_eq!(chain.block_count(), 3);
}

#[test]
fn insert_twice_changes_nothing() {
    let mut chain = Blockchain::new();
    let d = difficulty_of(&chain);
    let g = chain.tip();
    let a = mined_block(&g, &d, 1);
    chain.insert(&a);
    chain.insert(&a);
    assert_eq!(chain.block_count(), 2);
    assert_eq!(chain.tip(), a.hash());
}

#[test]
fn orphan_then_reconciliation() {
    let mut chain = Blockchain::new();
    let d = difficulty_of(&chain);
    let g = chain.tip();
    let b1 = mined_block(&g, &d, 1);
    let b2 = mined_block(&b1.hash(), &d, 2);
    let (missing, relay) = handle_blocks(&mut chain, &vec![b2.clone()], 100);
    assert_eq!(missing, vec![b1.hash()]);
    assert!(relay.is_empty());
    assert_eq!(chain.block_count(), 1);
    assert!(!chain.contains_block(&b2.hash()));
    let (missing, relay) = handle_blocks(&mut chain, &vec![b1.clone()], 100);
    assert!(missing.is_empty());
    assert_eq!(relay, vec![b1.hash(), b2.hash()]);
    assert!(chain.contains_block(&b1.hash()));
    assert!(chain.contains_block(&b2.hash()));
    assert_eq!(chain.tip(), b2.hash());
}

#[test]
fn orphan_promotion_through_two_generations() {
    let mut chain = Blockchain::new();
    let d = difficulty_of(&chain);
    let g = chain.tip();
    let b1 = mined_block(&g, &d, 1);
    let b2 = mined_block(&b1.hash(), &d, 2);
    let b3 = mined_block(&b2.hash(), &d, 3);
    let c2 = mined_block(&b1.hash(), &d, 4);
    assert!(chain.pow_validity_check(&b3));
    assert!(!chain.parent_check(&b3));
    chain.add_to_orphan_buffer(&b3);
    chain.add_to_orphan_buffer(&b2);
    chain.add_to_orphan_buffer(&c2);
    let mut out = Vec::new();
    chain.insert_recursively(&b1, &mut out);
    assert_eq!(out, vec![b1.hash(), b2.hash(), b3.hash(), c2.hash()]);
    assert_eq!(chain.block_count(), 5);
    assert_eq!(chain.tip(), b3.hash());
}

#[test]
fn insert_recursively_is_idempotent() {
    let mut chain = Blockchain::new();
    let d = difficulty_of(&chain);
    let g = chain.tip();
    let b1 = mined_block(&g, &d, 1);
    let b2 = mined_block(&b1.hash(), &d, 2);
    chain.add_to_orphan_buffer(&b2);
    let mut out = Vec::new();
    chain.insert_recursively(&b1, &mut out);
    let count = chain.block_count();
    let tip = chain.tip();
    chain.insert_recursively(&b1, &mut out);
    assert_eq!(out, vec![b1.hash(), b2.hash()]);
    assert_eq!(chain.block_count(), count);
    assert_eq!(chain.tip(), tip);
}

#[test]
fn duplicate_suppression() {
    let mut chain = Blockchain::new();
    let d = difficulty_of(&chain);
    let g = chain.tip();
    let b1 = mined_block(&g, &d, 40);
    let (_, relay) = handle_blocks(&mut chain, &vec![b1.clone()], 100);
    assert_eq!(relay, vec![b1.hash()]);
    assert_eq!(chain.block_count(), 2);
    let (missing, relay) = handle_blocks(&mut chain, &vec![b1.clone()], 500);
    assert!(missing.is_empty());
    assert!(relay.is_empty());
    assert_eq!(chain.block_count(), 2);
    match chain.origin_of(&b1.hash()) {
        Some(BlockOrigin::Received { delay_ms }) => assert_eq!(delay_ms, 60),
        _ => panic!("origin missing"),
    }
    assert_eq!(chain.block_delays_ms(), vec![60]);
}

#[test]
fn pow_rejection() {
    let mut chain = Blockchain::new();
    let d = difficulty_of(&chain);
    let g = chain.tip();
    let bad = unmined_block(&g, &d);
    assert!(!chain.pow_validity_check(&bad));
    let (missing, relay) = handle_blocks(&mut chain, &vec![bad.clone()], 10);
    assert!(missing.is_empty());
    assert!(relay.is_empty());
    assert_eq!(chain.block_count(), 1);
    assert!(!chain.contains_block(&bad.hash()));
    // an orphan that misses its target is not buffered either
    let bad_orphan = unmined_block(&bad.hash(), &d);
    let (missing, _) = handle_blocks(&mut chain, &vec![bad_orphan], 10);
    assert!(missing.is_empty());
}

#[test]
fn wrong_declared_difficulty_is_rejected() {
    let mut chain = Blockchain::new();
    let g = chain.tip();
    let mut easy = [0xffu8; 32];
    easy[0] = 0x7f;
    let easy = H256::from_bytes(easy);
    let b = mined_block(&g, &easy, 1);
    assert!(b.hash().le(&easy));
    assert!(!chain.pow_validity_check(&b));
    let (_, relay) = handle_blocks(&mut chain, &vec![b], 10);
    assert!(relay.is_empty());
    assert_eq!(chain.block_count(), 1);
}

#[test]
fn announce_request_round_trip() {
    let mut a = Blockchain::new();
    let mut b = Blockchain::new();
    let mut pool = Mempool::new();
    let mut nonce: u32 = 0;
    let mined = loop {
        let (block, ok) = mining_step(&mut a, &mut pool, nonce, 1000);
        if ok {
            break block;
        }
        nonce += 1;
    };
    let h = mined.hash();
    assert_eq!(a.tip(), h);
    assert!(matches!(a.origin_of(&h), Some(BlockOrigin::Mined)));
    let out = handle_message(&mut b, Message::NewBlockHashes(vec![h]), 2000);
    let request = match out.reply {
        Some(Message::GetBlocks(hs)) => hs,
        _ => panic!("expected a request"),
    };
    assert_eq!(request, vec![h]);
    assert!(out.broadcast.is_none());
    let out = handle_message(&mut a, Message::GetBlocks(request), 2000);
    let blocks = match out.reply {
        Some(Message::Blocks(bs)) => bs,
        _ => panic!("expected blocks"),
    };
    assert_eq!(blocks.len(), 1);
    let out = handle_message(&mut b, Message::Blocks(blocks), 2500);
    assert!(out.reply.is_none());
    match out.broadcast {
        Some(Message::NewBlockHashes(hs)) => assert_eq!(hs, vec![h]),
        _ => panic!("expected an announcement"),
    }
    assert!(b.contains_block(&h));
    assert_eq!(b.block_delays_ms(), vec![1500]);
}

#[test]
fn known_hashes_are_not_requested() {
    let mut chain = Blockchain::new();
    let g = chain.tip();
    let out = handle_message(&mut chain, Message::NewBlockHashes(vec![g]), 0);
    assert!(out.reply.is_none());
    let out = handle_message(&mut chain, Message::GetBlocks(vec![H256::zero()]), 0);
    assert!(out.reply.is_none());
}

#[test]
fn ping_is_answered_in_decimal() {
    let mut chain = Blockchain::new();
    let out = handle_message(&mut chain, Message::Ping(42), 0);
    match out.reply {
        Some(Message::Pong(s)) => assert_eq!(s, "42"),
        _ => panic!("expected a pong"),
    }
    let out = handle_message(&mut chain, Message::Pong("42".to_string()), 0);
    assert!(out.reply.is_none() && out.broadcast.is_none());
}

#[test]
fn mining_attempt_takes_ten_transactions() {
    let mut chain = Blockchain::new();
    let mut pool = Mempool::new();
    for v in 0..12u64 {
        let mut tx = SignedTransaction::filler();
        tx.raw.value = v;
        pool.insert(tx);
    }
    let (block, ok) = mining_step(&mut chain, &mut pool, 0, 5);
    assert_eq!(block.content.transactions.len(), 10);
    assert_eq!(block.content.transactions[0].raw.value, 11);
    assert_eq!(block.content.transactions[9].raw.value, 2);
    assert_eq!(block.header.merkle_root, merkle_root(&block.content.transactions));
    assert_eq!(ok, block.hash().le(&block.header.difficulty));
    if ok {
        assert_eq!(pool.len(), 2);
        assert_eq!(chain.tip(), block.hash());
    } else {
        assert_eq!(pool.len(), 12);
        assert_eq!(chain.block_count(), 1);
    }
}

#[test]
fn empty_pool_uses_filler() {
    let mut pool = Mempool::new();
    let txs = select_transactions(&mut pool);
    assert_eq!(txs.len(), 1);
    assert_eq!(txs[0].raw.value, 0);
    assert_eq!(pool.len(), 0);
}

#[test]
fn control_signals() {
    let (s, e) = handle_control_signal(ControlSignal::Start(5), false);
    assert!(matches!(s, OperatingState::Run(5)));
    assert!(matches!(e, ControlEffect::StampStartTime));
    let (_, e) = handle_control_signal(ControlSignal::Start(0), true);
    assert!(matches!(e, ControlEffect::Nothing));
    let (s, e) = handle_control_signal(ControlSignal::Exit, true);
    assert!(matches!(s, OperatingState::ShutDown));
    assert!(matches!(e, ControlEffect::ReportStats));
    let (_, e) = handle_control_signal(ControlSignal::Exit, false);
    assert!(matches!(e, ControlEffect::Nothing));
}

#[test]
fn hash_order_is_big_endian() {
    let mut a = [0u8; 32];
    let mut b = [0u8; 32];
    a[0] = 1;
    b[31] = 0xff;
    let a = H256::from_bytes(a);
    let b = H256::from_bytes(b);
    assert!(b.le(&a));
    assert!(!a.le(&b));
    assert!(a.le(&a));
    assert!(a.equals(&a));
    assert!(!a.equals(&b));
    assert!(a == a && a != b);
}

#[test]
fn raw_transaction_encoding_and_hash() {
    let raw = RawTransaction {
        from_addr: H160::from_bytes([1u8; 20]),
        to_addr: H160::from_bytes([2u8; 20]),
        value: 0x0102030405060708,
        nonce: 0x0a0b0c0d,
    };
    let bytes = raw.to_bytes();
    assert_eq!(bytes.len(), 52);
    assert_eq!(&bytes[0..20], &[1u8; 20]);
    assert_eq!(&bytes[20..40], &[2u8; 20]);
    assert_eq!(&bytes[40..48], &[8, 7, 6, 5, 4, 3, 2, 1]);
    assert_eq!(&bytes[48..52], &[0x0d, 0x0c, 0x0b, 0x0a]);
    let expected = ring::digest::digest(&ring::digest::SHA256, &bytes);
    assert_eq!(&raw.hash().bytes[..], expected.as_ref());
}

#[test]
fn header_encoding_is_canonical() {
    let header = Header {
        parent: H256::from_bytes([3u8; 32]),
        nonce: 1,
        difficulty: H256::from_bytes([4u8; 32]),
        timestamp: 2,
        merkle_root: H256::from_bytes([5u8; 32]),
    };
    let bytes = header.to_bytes();
    assert_eq!(bytes.len(), 116);
    assert_eq!(&bytes[32..36], &[1, 0, 0, 0]);
    assert_eq!(bytes[68], 2);
    let expected = ring::digest::digest(&ring::digest::SHA256, &bytes);
    assert_eq!(&header.hash().bytes[..], expected.as_ref());
}

#[test]
fn merkle_root_of_one_and_three() {
    let a = SignedTransaction::filler();
    let mut b = SignedTransaction::filler();
    b.raw.value = 1;
    let mut c = SignedTransaction::filler();
    c.raw.value = 2;
    assert_eq!(merkle_root(&vec![a.clone()]), a.hash());
    let pair = |l: &H256, r: &H256| {
        let mut buf = l.bytes.to_vec();
        buf.extend_from_slice(&r.bytes);
        let d = ring::digest::digest(&ring::digest::SHA256, &buf);
        let mut out = [0u8; 32];
        out.copy_from_slice(d.as_ref());
        H256::from_bytes(out)
    };
    let ab = pair(&a.hash(), &b.hash());
    let cc = pair(&c.hash(), &c.hash());
    assert_eq!(merkle_root(&vec![a, b, c]), pair(&ab, &cc));
    assert_eq!(merkle_root(&Vec::new()), H256::zero());
}

#[test]
fn signed_transaction_encoding() {
    let t = SignedTransaction {
        raw: RawTransaction::zero(),
        pub_key: vec![9, 9],
        signature: vec![7],
    };
    let bytes = t.to_bytes();
    assert_eq!(bytes.len(), 52 + 8 + 2 + 8 + 1);
    assert_eq!(&bytes[52..60], &[2, 0, 0, 0, 0, 0, 0, 0]);
    assert_eq!(&bytes[60..62], &[9, 9]);
    assert_eq!(&bytes[62..70], &[1, 0, 0, 0, 0, 0, 0, 0]);
    assert_eq!(bytes[70], 7);
}

#[test]
fn sign_then_verify() {
    let key = ring::signature::Ed25519KeyPair::from_seed_unchecked(&[5u8; 32]).unwrap();
    let raw = RawTransaction { value: 10, ..RawTransaction::zero() };
    let signed = SignedTransaction::from_raw(raw, &key);
    assert_eq!(signed.pub_key.len(), 32);
    assert!(signed.verify_signature());
    let sig = blocktree::transaction::sign(&raw, &key);
    assert!(blocktree::transaction::verify(&raw, &signed.pub_key, sig.as_ref()));
    let mut forged = signed.clone();
    forged.raw.value = 11;
    assert!(!forged.verify_signature());
}

#[test]
fn initial_coin_offering() {
    let state = State::ico();
    for i in 0..10u8 {
        let a = deterministic_address_of(i);
        assert_eq!(state.get(&a), Some(&(0u32, 1000 * (10 - i as u64))));
    }
    assert_eq!(state.get(&H160::from_bytes([0u8; 20])), None);
    let mut state = state;
    let a = deterministic_address_of(3);
    state.update(a, 1, 5);
    assert_eq!(state.get(&a), Some(&(1, 5)));
}

#[test]
fn address_is_last_twenty_digest_bytes() {
    let key = ring::signature::Ed25519KeyPair::from_seed_unchecked(&[2u8; 32]).unwrap();
    let pk = key.public_key().as_ref().to_vec();
    let d = ring::digest::digest(&ring::digest::SHA256, &pk);
    assert_eq!(&deterministic_address_of(2).bytes[..], &d.as_ref()[12..32]);
    assert_eq!(&H160::from_pubkey(&pk).bytes[..], &d.as_ref()[12..32]);
}

#[test]
fn statistics_of_a_fresh_tree() {
    let mut chain = Blockchain::new();
    assert_eq!(chain.block_count(), 1);
    assert_eq!(chain.average_block_size(), 124);
    assert_eq!(chain.all_blocks_in_longest_chain(), vec![chain.tip()]);
    assert!(chain.block_delays_ms().is_empty());
    let g = chain.tip();
    chain.record_received(g, 30);
    chain.record_received(H256::from_bytes([1u8; 32]), 10);
    chain.record_received(H256::from_bytes([2u8; 32]), 20);
    chain.mark_mined(H256::from_bytes([2u8; 32]));
    assert_eq!(chain.block_delays_ms(), vec![10, 30]);
}

#[test]
fn genesis_is_fixed() {
    let g = Block::genesis();
    assert_eq!(g.hash(), Blockchain::new().tip());
    assert_eq!(g.header.parent, H256::zero());
    assert_eq!(g.size(), 124);
}

#[test]
fn insert_only_needs_the_parent() {
    let mut chain = Blockchain::new();
    let d = difficulty_of(&chain);
    let g = chain.tip();
    let weak = unmined_block(&g, &d);
    assert!(chain.parent_check(&weak));
    chain.insert(&weak);
    assert!(chain.contains_block(&weak.hash()));
    assert_eq!(chain.tip(), weak.hash());
}

#[test]
fn miner_steps_by_state() {
    assert!(matches!(next_action(OperatingState::Paused), MinerAction::WaitForSignal));
    assert!(matches!(next_action(OperatingState::Run(7)), MinerAction::PollThenMine(7)));
    assert!(matches!(next_action(OperatingState::ShutDown), MinerAction::Stop));
}

#[test]
fn future_timestamp_records_zero_delay() {
    let mut chain = Blockchain::new();
    let d = difficulty_of(&chain);
    let g = chain.tip();
    let b = mined_block(&g, &d, 1000);
    let _ = handle_blocks(&mut chain, &vec![b.clone()], 10);
    match chain.origin_of(&b.hash()) {
        Some(BlockOrigin::Received { delay_ms }) => assert_eq!(delay_ms, 0),
        _ => panic!("origin missing"),
    }
}

#[test]
fn rejected_block_still_gets_an_origin() {
    let mut chain = Blockchain::new();
    let d = difficulty_of(&chain);
    let g = chain.tip();
    let bad = unmined_block(&g, &d);
    let out = handle_message(&mut chain, Message::Blocks(vec![bad.clone()]), 17);
    assert!(out.reply.is_none() && out.broadcast.is_none());
    assert!(matches!(chain.origin_of(&bad.hash()), Some(BlockOrigin::Received { delay_ms: 10 })));
}
