use optchain::block::availability_block::AvailabilityBlock;
use optchain::block::content::{BlockContent, Content};
use optchain::block::ordering_block::OrderingBlock;
use optchain::block::proposer_block::ProposerBlock;
use optchain::block::transaction_block::TransactionBlock;
use optchain::block::versa_block::{VersaBlock, VersaHash};
use optchain::block::{BlockHeader, Info, Timestamp};
use optchain::hash::{Hashable, H256};
use optchain::mempool::Mempool;
use optchain::merkle::MerkleTree;
use optchain::message::Message;
use optchain::multichain::MultichainError;
use optchain::setup::{genesis_multichain, make_configuration, NodeParams, SetupError};
use optchain::symbolpool::{Symbol, SymbolError, SymbolIndex, SymbolPool};
use optchain::transaction::Transaction;
use optchain::validator::{ValidationError, Validator};
use optchain::worker::WorkerState;

fn h(b: u8) -> H256 {
    H256([b; 32])
}

fn params() -> NodeParams {
    NodeParams {
        shard_id: 0,
        node_id: 0,
        exper_number: 1,
        exper_iter: 1,
        shard_num: 2,
        shard_size: 1,
        block_size: 1024,
        symbol_size: 32,
        prop_size: 100,
        avai_size: 100,
        ex_req_num: 5,
        in_req_num: 3,
        confirmation_depth: 1,
        tx_diff: h(0xff),
        prop_diff: h(0xff),
        avai_diff: h(0xff),
        in_avai_diff: h(0xff),
    }
}

fn header(prop_parent: H256, shard: usize, cmt: H256) -> BlockHeader {
    BlockHeader::create(
        shard,
        prop_parent,
        H256::zero(),
        vec![],
        H256::zero(),
        H256::zero(),
        H256::zero(),
        H256::zero(),
        cmt,
        Timestamp::epoch(),
    )
}

fn tx_block(cmt: u8, shard: usize) -> TransactionBlock {
    TransactionBlock::new(header(H256::zero(), shard, h(cmt)), 0)
}

fn prop_block(parent: &H256, nonce: usize, txs: Vec<TransactionBlock>) -> VersaBlock {
    VersaBlock::PropBlock(ProposerBlock::new(
        header(*parent, 0, H256::zero()),
        nonce,
        MerkleTree::<TransactionBlock>::new(&txs),
    ))
}

#[test]
fn configuration_from_parameters() {
    let c = make_configuration(&params()).unwrap();
    assert_eq!(c.num_symbol_per_block, 32);
    assert_eq!(c.k, 1);
    assert_eq!(c.shard_num, 2);
    assert!(c.tx_diff.equals(&h(0xff)));
    let mut p = params();
    p.symbol_size = 0;
    assert_eq!(make_configuration(&p).unwrap_err(), SetupError::SymbolSizeZero);
    p.symbol_size = 30;
    assert_eq!(make_configuration(&p).unwrap_err(), SetupError::BlockSizeNotMultiple);
}

#[test]
fn genesis_chains_hold_one_block_each() {
    let c = make_configuration(&params()).unwrap();
    let m = genesis_multichain(&c).unwrap();
    assert_eq!(m.get_prop_size(), 1);
    assert_eq!(m.get_avai_size(0), 1);
    assert_eq!(m.get_avai_size(1), 1);
    assert_eq!(m.get_order_size(), 1);
    let tips = m.get_all_highest_avai_blocks();
    assert_eq!(tips.len(), 2);
    assert_eq!(tips[1].1, 1);
    let order_tip = m.get_highest_order_block();
    let confirmed = m.get_confirmed_avai_set_by_order_hash(&order_tip).unwrap();
    assert_eq!(confirmed.len(), 2);
    assert!(confirmed[0].0.equals(&tips[0].0));
    assert_eq!(
        m.get_confirmed_avai_set_by_order_hash(&h(3)).unwrap_err(),
        MultichainError::OrderingBlockMissing
    );
    let mut p = params();
    p.shard_id = 2;
    let c2 = make_configuration(&p).unwrap();
    assert_eq!(genesis_multichain(&c2).err(), Some(SetupError::ShardOutOfRange));
}

#[test]
fn proposer_commitments_follow_the_branch() {
    let c = make_configuration(&params()).unwrap();
    let mut m = genesis_multichain(&c).unwrap();
    let g = m.get_highest_prop_block();
    let b = prop_block(&g, 1, vec![tx_block(1, 0), tx_block(2, 1)]);
    let bh = b.hash_value();
    assert_eq!(m.insert_block_with_parent(b, &VersaHash::PropHash(g), 0), Ok(true));
    assert!(m.get_highest_prop_block().equals(&bh));
    let cmts = m.get_prop_cmts(&bh);
    assert_eq!(cmts.len(), 1);
    assert!(cmts[0].same(&tx_block(1, 0)));
    let unreferred = m.get_unreferred_cmt(&bh);
    assert_eq!(unreferred.len(), 1);
    assert_eq!(m.all_blocks_in_longest_proposer_chain(), vec![g, bh]);
    assert!(m.get_prop_block(&bh).is_some());
    assert!(m.get_prop_block(&h(9)).is_none());
}

#[test]
fn available_transaction_blocks_come_from_a_confirmed_proposer_block() {
    let c = make_configuration(&params()).unwrap();
    let mut m = genesis_multichain(&c).unwrap();
    let g = m.get_highest_prop_block();
    let b1 = prop_block(&g, 1, vec![tx_block(1, 0), tx_block(3, 0)]);
    let h1 = b1.hash_value();
    m.insert_block_with_parent(b1, &VersaHash::PropHash(g), 0).unwrap();
    // only the genesis block lies k = 1 blocks below the tip
    assert_eq!(m.get_avai_tx_blocks(1).unwrap_err().len(), 0);
    let b2 = prop_block(&h1, 2, vec![]);
    m.insert_block_with_parent(b2, &VersaHash::PropHash(h1), 0).unwrap();
    let taken = m.get_avai_tx_blocks(1).unwrap();
    assert_eq!(taken.len(), 1);
    assert!(taken[0].same(&tx_block(1, 0)));
    assert_eq!(m.get_avai_tx_blocks(3).unwrap_err().len(), 2);
}

#[test]
fn newly_confirmed_availability_blocks_need_depth_k() {
    let c = make_configuration(&params()).unwrap();
    let m = genesis_multichain(&c).unwrap();
    // genesis availability blocks are confirmed by the genesis ordering block
    assert_eq!(m.get_new_confirmed_avai_set().len(), 0);
}

#[test]
fn ordering_block_extends_its_confirmed_set() {
    let c = make_configuration(&params()).unwrap();
    let mut m = genesis_multichain(&c).unwrap();
    let g = m.get_highest_order_block();
    let mut hd = BlockHeader::default();
    hd = BlockHeader::create(0, H256::zero(), H256::zero(), vec![], g, H256::zero(), H256::zero(), H256::zero(), H256::zero(), Timestamp::epoch());
    let ob = OrderingBlock::new(hd, 1, vec![(h(5), 1)]);
    let oh = optchain::block::versa_block::VersaBlock::OrderBlock(ob.clone()).hash_value();
    assert_eq!(m.insert_block_with_parent(VersaBlock::OrderBlock(ob), &VersaHash::OrderHash(g), 0), Ok(true));
    let set = m.get_confirmed_avai_set_by_order_hash(&oh).unwrap();
    assert_eq!(set.len(), 3);
    assert_eq!(set[2].1, 1);
    assert!(m.get_order_block(&oh).is_some());
}

#[test]
fn mempool_is_first_in_first_out() {
    let mut pool = Mempool::new();
    let a = tx_block(1, 0);
    let b = tx_block(2, 0);
    let ha = a.hash();
    let hb = b.hash();
    assert!(pool.insert_tx_blk(a.clone()));
    assert!(!pool.insert_tx_blk(a.clone()));
    assert!(pool.insert_tx_blk(b.clone()));
    assert_eq!(pool.get_size(), 2);
    assert_eq!(pool.get_queue_size(), 2);
    assert!(pool.check(&ha));
    assert!(pool.get_tx_blk(&hb).unwrap().same(&b));
    assert_eq!(pool.get_all_tx_blk_hash(), vec![ha, hb]);
    assert_eq!(pool.get_all_tx_blks().len(), 2);
    assert!(pool.pop_one_tx_blk().unwrap().same(&a));
    assert!(!pool.check(&ha));
    assert!(pool.delete_txs(vec![hb]));
    assert_eq!(pool.get_size(), 0);
    assert!(pool.pop_one_tx_blk().is_none());
    assert_eq!(pool.get_tx_blocks(3).unwrap_err().len(), 0);
}

fn symbol_fixture() -> (BlockContent, Vec<Vec<Transaction>>) {
    let groups: Vec<Vec<Transaction>> = (0..4u8)
        .map(|g| vec![Transaction::new(vec![g, 1]), Transaction::new(vec![g, 2])])
        .collect();
    let content = BlockContent::create(
        MerkleTree::<TransactionBlock>::new(&[]),
        MerkleTree::<TransactionBlock>::new(&[]),
        vec![],
        groups.clone(),
    );
    (content, groups)
}

fn symbol_config() -> optchain::configuration::Configuration {
    let mut p = params();
    p.block_size = 4;
    p.symbol_size = 1;
    make_configuration(&p).unwrap()
}

#[test]
fn a_symbol_from_the_content_tree_verifies() {
    let (content, groups) = symbol_fixture();
    let root = content.get_symbol_merkle_root();
    let c = symbol_config();
    for i in 0..4 {
        let proof = content.get_symbol_merkle_proof(i);
        let s = Symbol::new(SymbolIndex::new(root, i), groups[i].clone(), proof.clone(), &c);
        assert!(s.verify());
        let wrong = Symbol::new(SymbolIndex::new(root, (i + 1) % 4), groups[i].clone(), proof, &c);
        assert!(!wrong.verify());
    }
}

#[test]
fn the_symbol_pool_takes_requested_symbols_once() {
    let (content, groups) = symbol_fixture();
    let root = content.get_symbol_merkle_root();
    let c = symbol_config();
    let mut pool = SymbolPool::new(&c);
    let s1 = Symbol::new(SymbolIndex::new(root, 1), groups[1].clone(), content.get_symbol_merkle_proof(1), &c);
    assert_eq!(pool.insert_symbol(s1.clone()).unwrap_err(), SymbolError::InvalidRoot);
    assert_eq!(pool.get_unreceived_symbols(&root).unwrap_err(), SymbolError::NotRequested);
    assert_eq!(pool.request_symbols(&root, vec![1, 3]), Ok(true));
    assert_eq!(pool.request_symbols(&root, vec![2]).unwrap_err(), SymbolError::AlreadyRequested);
    assert!(pool.check_if_requested(&SymbolIndex::new(root, 3)));
    assert!(!pool.check_if_requested(&SymbolIndex::new(root, 2)));
    let missing = pool.get_unreceived_symbols(&root).unwrap();
    assert_eq!(missing.iter().map(|i| i.get_index()).collect::<Vec<_>>(), vec![1, 3]);
    let s0 = Symbol::new(SymbolIndex::new(root, 0), groups[0].clone(), content.get_symbol_merkle_proof(0), &c);
    assert_eq!(pool.insert_symbol(s0).unwrap_err(), SymbolError::IndexNotRequested);
    let bad = Symbol::new(SymbolIndex::new(root, 1), groups[2].clone(), content.get_symbol_merkle_proof(1), &c);
    assert_eq!(pool.insert_symbol(bad).unwrap_err(), SymbolError::IncorrectSymbol);
    assert_eq!(pool.insert_symbol(s1.clone()), Ok(true));
    assert_eq!(pool.insert_symbol(s1), Ok(false));
    let missing = pool.get_unreceived_symbols(&root).unwrap();
    assert_eq!(missing.len(), 1);
    assert_eq!(missing[0].get_index(), 3);
    assert!(pool.get_symbol(&SymbolIndex::new(root, 1)).is_ok());
    assert_eq!(pool.get_symbol(&SymbolIndex::new(root, 3)).unwrap_err(), SymbolError::SymbolMissing);
}

#[test]
fn drawn_requests_are_distinct_and_in_range() {
    let c = make_configuration(&params()).unwrap();
    let mut pool = SymbolPool::new(&c);
    let picked = pool.request_symbols_for_new_cmt(&h(4), true).unwrap();
    assert_eq!(picked.len(), 5);
    let mut idx: Vec<usize> = picked.iter().map(|i| i.get_index()).collect();
    assert!(idx.iter().all(|i| *i < 32));
    assert!(picked.iter().all(|i| i.get_root().equals(&h(4))));
    idx.sort();
    idx.dedup();
    assert_eq!(idx.len(), 5);
    assert_eq!(pool.request_symbols_for_new_cmt(&h(4), false).unwrap_err(), SymbolError::AlreadyRequested);
    let inclusive = pool.request_symbols_for_new_cmt(&h(5), false).unwrap();
    assert_eq!(inclusive.len(), 3);
}

#[test]
fn validator_checks_hashes() {
    let c = make_configuration(&params()).unwrap();
    let pool = SymbolPool::new(&c);
    let v = Validator::new(&c);
    // the default proposer block stores the zero hash, not its own
    assert_eq!(v.validate_block(&VersaBlock::default(), &pool), Err(ValidationError::IncorrectHash));
    let g = H256::zero();
    let good = prop_block(&g, 1, vec![]);
    assert_eq!(v.validate_block(&good, &pool), Ok(true));
    let avai = VersaBlock::ExAvaiBlock(optchain::block::availability_block::AvailabilityBlock::new(
        header(g, 0, h(9)),
        0,
        MerkleTree::<TransactionBlock>::new(&[tx_block(9, 0)]),
    ));
    assert_eq!(v.validate_block(&avai, &pool), Err(ValidationError::SymbolsMissing));
}

fn worker() -> WorkerState {
    let c = make_configuration(&params()).unwrap();
    let m = genesis_multichain(&c).unwrap();
    WorkerState::new(m, Mempool::new(), SymbolPool::new(&c), &c)
}

#[test]
fn ping_is_answered_with_pong() {
    let mut w = worker();
    let (reply, broadcast) = w.handle_message(Message::Ping("7".to_string()));
    assert_eq!(reply.len(), 1);
    assert!(matches!(&reply[0], Message::Pong(s) if s == "7"));
    assert!(broadcast.is_empty());
    let (reply, broadcast) = w.handle_message(Message::Pong("7".to_string()));
    assert!(reply.is_empty() && broadcast.is_empty());
}

#[test]
fn unknown_block_hashes_are_asked_for() {
    let w = worker();
    let g = w.get_multichain().get_highest_prop_block();
    let r = w.handle_new_block_hash(vec![VersaHash::PropHash(g), VersaHash::PropHash(h(1)), VersaHash::ExHash(h(2))]);
    match r {
        Some(Message::GetBlocks(v)) => {
            assert_eq!(v.len(), 2);
            assert!(v[0].equals(&VersaHash::PropHash(h(1))));
        }
        _ => panic!("expected a request"),
    }
    assert!(w.handle_new_block_hash(vec![VersaHash::PropHash(g)]).is_none());
    match w.handle_get_blocks(vec![VersaHash::PropHash(g), VersaHash::PropHash(h(1))]) {
        Some(Message::Blocks(v)) => assert_eq!(v.len(), 1),
        _ => panic!("expected blocks"),
    }
    let ag = w.get_multichain().get_highest_avai_block(1);
    match w.handle_get_blocks(vec![VersaHash::ExHash(ag)]) {
        Some(Message::Blocks(v)) => assert!(matches!(v[0], VersaBlock::ExAvaiBlock(_))),
        _ => panic!("expected blocks"),
    }
}

#[test]
fn incoming_blocks_are_inserted_announced_and_buffered() {
    let mut w = worker();
    let g = w.get_multichain().get_highest_prop_block();
    let b1 = prop_block(&g, 1, vec![]);
    let h1 = b1.hash_value();
    let b2 = prop_block(&h1, 2, vec![]);
    let h2 = b2.hash_value();
    // the child comes first: it waits for its parent, which is asked for
    let (new, missing, symbols) = w.handle_blocks(vec![b2]);
    assert!(new.is_none() && symbols.is_none());
    match missing {
        Some(Message::GetBlocks(v)) => assert!(v[0].equals(&VersaHash::PropHash(h1))),
        _ => panic!("expected a missing parent"),
    }
    let (new, missing, _) = w.handle_blocks(vec![b1]);
    assert!(missing.is_none());
    match new {
        Some(Message::NewBlockHash(v)) => assert!(v[0].equals(&VersaHash::PropHash(h1))),
        _ => panic!("expected a new block"),
    }
    assert!(w.get_multichain().get_highest_prop_block().equals(&h1));
    assert!(w.get_multichain().get_prop_block(&h2).is_none());
}

#[test]
fn a_proposer_block_has_its_commitments_requested() {
    let mut w = worker();
    let g = w.get_multichain().get_highest_prop_block();
    let b1 = prop_block(&g, 1, vec![tx_block(1, 0), tx_block(2, 1)]);
    let (new, _, symbols) = w.handle_blocks(vec![b1]);
    assert!(new.is_some());
    match symbols {
        Some(Message::GetSymbols(v)) => assert_eq!(v.len(), 5 + 3),
        _ => panic!("expected symbol requests"),
    }
}

#[test]
fn transaction_blocks_enter_the_pool_once() {
    let mut w = worker();
    let t = tx_block(3, 0);
    let th = t.hash();
    match w.handle_new_tx_blk_hash(vec![th]) {
        Some(Message::GetTxBlocks(v)) => assert_eq!(v, vec![th]),
        _ => panic!("expected a request"),
    }
    match w.handle_tx_blocks(vec![t.clone(), t.clone()]) {
        Some(Message::NewTxBlockHash(v)) => assert_eq!(v, vec![th]),
        _ => panic!("expected an announcement"),
    }
    assert!(w.handle_tx_blocks(vec![t.clone()]).is_none());
    assert!(w.handle_new_tx_blk_hash(vec![th]).is_none());
    match w.handle_get_tx_blks(vec![th, h(1)]) {
        Some(Message::TxBlocks(v)) => assert!(v.len() == 1 && v[0].same(&t)),
        _ => panic!("expected blocks"),
    }
    assert_eq!(w.get_mempool().get_size(), 1);
}

#[test]
fn symbols_are_announced_when_taken() {
    let mut w = worker();
    let (content, groups) = symbol_fixture();
    let root = content.get_symbol_merkle_root();
    let c = symbol_config();
    let s = Symbol::new(SymbolIndex::new(root, 1), groups[1].clone(), content.get_symbol_merkle_proof(1), &c);
    // not requested: ignored
    let (a, b, d) = w.handle_symbols(vec![s.clone()]);
    assert!(a.is_none() && b.is_none() && d.is_none());
    assert!(w.handle_new_symbols(vec![SymbolIndex::new(root, 1)]).is_none());
    assert!(w.handle_get_symbols(vec![SymbolIndex::new(root, 1)]).is_none());
}

#[test]
fn unreferred_commitments_of_the_highest_proposer_block_are_sampled() {
    let mut w = worker();
    let g = w.get_multichain().get_highest_prop_block();
    assert!(w.request_unreferred_symbols().is_none());
    let b1 = prop_block(&g, 1, vec![tx_block(1, 0)]);
    w.handle_blocks(vec![b1]);
    match w.request_unreferred_symbols() {
        Some(Message::GetSymbols(v)) => assert_eq!(v.len(), 5),
        _ => panic!("expected requests"),
    }
}

#[test]
fn block_size_of_a_hybrid_block() {
    let block_size = 2048;
    let symbol_size = 64;
    let txs: Vec<Vec<Transaction>> = (0..(block_size / symbol_size))
        .map(|g: usize| (0..symbol_size).map(|i: usize| Transaction::new(vec![g as u8, i as u8])).collect())
        .collect();
    let prop_tx_set: Vec<TransactionBlock> = (0..3).map(|_| TransactionBlock::new(BlockHeader::random(), 0)).collect();
    let avai_tx_set: Vec<TransactionBlock> = (0..3).map(|_| TransactionBlock::new(BlockHeader::random(), 0)).collect();
    let confirmed_avai_tx_set: Vec<(H256, u32)> =
        vec![(H256::default(), 0), (H256::default(), 1), (H256::default(), 2), (H256::default(), 3)];
    let hybrid_block = optchain::block::content::Block::construct(
        0,
        H256::default(),
        H256::default(),
        vec![(H256::default(), 0), (H256::default(), 1), (H256::default(), 2), (H256::default(), 3)],
        H256::default(),
        prop_tx_set,
        avai_tx_set,
        confirmed_avai_tx_set,
        txs,
    );
    let block_header = hybrid_block.get_header();
    let block_content = hybrid_block.get_content();
    assert!(optchain::block::content::Block::verify_hash(&hybrid_block));
    let prop_merkle_tree = block_content.get_prop_merkle_tree();
    let avai_merkle_tree = block_content.get_avai_merkle_tree();
    let prop_block = ProposerBlock::new(block_header.clone(), 0, prop_merkle_tree);
    let avai_block = AvailabilityBlock::new(block_header.clone(), 0, avai_merkle_tree);
    assert!(prop_block.verify_hash());
    assert!(avai_block.verify_hash());
    assert_eq!(prop_block.get_prop_tx_set().len(), 3);
    assert_eq!(avai_block.get_avai_tx_set().len(), 3);
    println!("Size of a header: {} bytes", block_header.get_mem_size());
}

#[test]
fn a_block_with_a_wrong_hash_changes_nothing() {
    let mut w = worker();
    let g = w.get_multichain().get_highest_prop_block();
    let forged = VersaBlock::PropBlock(ProposerBlock::from_parts(
        header(g, 0, H256::zero()),
        1,
        MerkleTree::<TransactionBlock>::new(&vec![tx_block(1, 0)]),
        h(9),
    ));
    assert!(!forged.verify_hash());
    let (new, missing, symbols) = w.handle_blocks(vec![forged]);
    assert!(new.is_none() && missing.is_none() && symbols.is_none());
    assert!(w.get_multichain().get_highest_prop_block().equals(&g));
    assert!(w.request_unreferred_symbols().is_none());
}

#[test]
fn requested_commitments_are_not_drawn_again() {
    let mut w = worker();
    let g = w.get_multichain().get_highest_prop_block();
    let b1 = prop_block(&g, 1, vec![tx_block(1, 0)]);
    w.handle_blocks(vec![b1]);
    let first = match w.request_unreferred_symbols() {
        Some(Message::GetSymbols(v)) => v,
        _ => panic!("expected requests"),
    };
    let second = match w.request_unreferred_symbols() {
        Some(Message::GetSymbols(v)) => v,
        _ => panic!("expected requests"),
    };
    assert_eq!(first.len(), 5);
    assert_eq!(second.len(), 5);
    for (a, b) in first.iter().zip(second.iter()) {
        assert!(a.root == b.root && a.index == b.index);
    }
}

#[test]
fn the_order_root_is_the_merkle_root_of_the_confirmed_set() {
    let conf: Vec<(H256, u32)> = vec![(h(1), 0), (h(2), 1), (h(3), 0)];
    let b = optchain::block::content::Block::construct(
        1,
        H256::default(),
        H256::default(),
        vec![(H256::default(), 0)],
        H256::default(),
        vec![tx_block(4, 0)],
        vec![tx_block(5, 1), tx_block(6, 1)],
        conf.clone(),
        vec![],
    );
    let header = b.get_header();
    let tree = MerkleTree::<(H256, u32)>::new(&conf);
    assert!(header.get_order_root().equals(&tree.root()));
    let flat: Vec<H256> = conf.iter().map(|(x, s)| H256::pow_hash(x, *s)).collect();
    assert!(!header.get_order_root().equals(&H256::multi_hash(&flat)));
    let content = b.get_content();
    assert!(content.get_prop_merkle_root().equals(&header.get_prop_root()));
    assert!(content.get_avai_merkle_root().equals(&header.get_avai_root()));
    let leaf = tx_block(5, 1).hash();
    let proof = content.get_avai_merkle_proof(0);
    assert!(content.avai_merkle_prove(&leaf, &proof, 0));
}

#[test]
fn a_block_of_another_kind_under_a_proposer_hash_is_refused() {
    let c = make_configuration(&params()).unwrap();
    let mut m = genesis_multichain(&c).unwrap();
    let g = m.get_highest_prop_block();
    let hd = BlockHeader::create(
        0,
        H256::zero(),
        H256::zero(),
        vec![],
        h(7),
        H256::zero(),
        H256::zero(),
        H256::zero(),
        H256::zero(),
        Timestamp::epoch(),
    );
    let o = VersaBlock::OrderBlock(OrderingBlock::new(hd, 3, vec![]));
    assert_eq!(
        m.insert_block_with_parent(o, &VersaHash::PropHash(g), 0),
        Err(optchain::blockchain::ChainError::WrongParent)
    );
    assert_eq!(m.get_prop_size(), 1);
}

#[test]
fn a_proposer_block_taken_in_a_batch_is_held_and_announced() {
    let mut w = worker();
    let g = w.get_multichain().get_highest_prop_block();
    let bad = VersaBlock::PropBlock(ProposerBlock::from_parts(
        header(g, 0, H256::zero()),
        0,
        MerkleTree::<TransactionBlock>::new(&[]),
        h(9),
    ));
    let b1 = prop_block(&g, 4, vec![tx_block(8, 0)]);
    let h1 = b1.hash_value();
    let (new, _, symbols) = w.handle_blocks(vec![bad, b1]);
    match new {
        Some(Message::NewBlockHash(v)) => assert!(v.iter().any(|x| x.equals(&VersaHash::PropHash(h1)))),
        _ => panic!("expected the block to be announced"),
    }
    assert!(w.get_multichain().get_prop_block(&h1).is_some());
    match symbols {
        Some(Message::GetSymbols(v)) => assert!(v.iter().all(|i| i.get_root().equals(&h(8)))),
        _ => panic!("expected symbol requests"),
    }
}

fn symbol_worker() -> WorkerState {
    let c = symbol_config();
    let m = genesis_multichain(&c).unwrap();
    WorkerState::new(m, Mempool::new(), SymbolPool::new(&c), &c)
}

#[test]
fn an_availability_block_waits_for_its_symbols_and_is_released() {
    let mut w = symbol_worker();
    let c = symbol_config();
    let (content, groups) = symbol_fixture();
    let root = content.get_symbol_merkle_root();
    let inter_parent = w.get_multichain().get_highest_avai_block(0);
    let hd = BlockHeader::create(
        0,
        H256::zero(),
        inter_parent,
        vec![],
        H256::zero(),
        H256::zero(),
        H256::zero(),
        H256::zero(),
        H256::zero(),
        Timestamp::epoch(),
    );
    let tx = TransactionBlock::new(header(H256::zero(), 0, root), 0);
    let avai = AvailabilityBlock::new(hd, 5, MerkleTree::<TransactionBlock>::new(&[tx]));
    let ah = avai.hash();
    // the symbols of its commitment are missing: it waits, and they are asked for
    let (new, missing, symbols) = w.handle_blocks(vec![VersaBlock::ExAvaiBlock(avai)]);
    assert!(new.is_none() && missing.is_none());
    match symbols {
        Some(Message::GetSymbols(v)) => {
            assert_eq!(v.len(), 4);
            assert!(v.iter().all(|i| i.get_root().equals(&root)));
        }
        _ => panic!("expected symbol requests"),
    }
    assert!(w.get_multichain().get_avai_block_by_shard(&ah, 0).is_none());
    // the symbols arrive: the block is released, inserted and announced
    let syms: Vec<Symbol> = (0..4)
        .map(|i| Symbol::new(SymbolIndex::new(root, i), groups[i].clone(), content.get_symbol_merkle_proof(i), &c))
        .collect();
    let (new_symbols, new_blocks, _) = w.handle_symbols(syms);
    match new_symbols {
        Some(Message::NewSymbols(v)) => assert_eq!(v.len(), 4),
        _ => panic!("expected new symbols"),
    }
    match new_blocks {
        Some(Message::NewBlockHash(v)) => assert!(v.iter().any(|x| x.equals(&VersaHash::ExHash(ah)))),
        _ => panic!("expected the released block"),
    }
    assert!(w.get_multichain().get_avai_block_by_shard(&ah, 0).is_some());
}

#[test]
fn an_ordering_block_that_confirms_again_is_refused() {
    let mut w = worker();
    let og = w.get_multichain().get_highest_order_block();
    let confirmed = w.get_multichain().get_confirmed_avai_set_by_order_hash(&og).unwrap();
    let ordering = |set: Vec<(H256, u32)>, nonce: u32| {
        let hd = BlockHeader::create(
            0,
            H256::zero(),
            H256::zero(),
            vec![],
            og,
            H256::zero(),
            H256::zero(),
            H256::zero(),
            H256::zero(),
            Timestamp::epoch(),
        );
        OrderingBlock::new(hd, nonce, set)
    };
    let again = ordering(vec![confirmed[0]], 1);
    let again_hash = again.hash();
    let (new, _, _) = w.handle_blocks(vec![VersaBlock::OrderBlock(again)]);
    assert!(new.is_none());
    assert!(w.get_multichain().get_order_block(&again_hash).is_none());
    let fresh = ordering(vec![(h(5), 1)], 2);
    let fresh_hash = fresh.hash();
    let (new, _, _) = w.handle_blocks(vec![VersaBlock::OrderBlock(fresh)]);
    assert!(new.is_some());
    assert!(w.get_multichain().get_order_block(&fresh_hash).is_some());
}

#[test]
fn a_block_with_a_missing_parent_reports_it() {
    let mut w = worker();
    let b = prop_block(&h(4), 1, vec![]);
    let (new, missing, _) = w.handle_blocks(vec![b]);
    assert!(new.is_none());
    match missing {
        Some(Message::GetBlocks(v)) => assert!(v.len() == 1 && v[0].equals(&VersaHash::PropHash(h(4)))),
        _ => panic!("expected the missing parent"),
    }
}
