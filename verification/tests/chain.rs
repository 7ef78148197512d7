use optchain::block::availability_block::AvailabilityBlock;
use optchain::block::proposer_block::ProposerBlock;
use optchain::block::transaction_block::TransactionBlock;
use optchain::block::versa_block::VersaBlock;
use optchain::block::{BlockHeader, Timestamp};
use optchain::blockchain::{Blockchain, ChainError};
use optchain::configuration::Configuration;
use optchain::hash::H256;
use optchain::merkle::MerkleTree;
use optchain::tree::Node;

fn h(b: u8) -> H256 {
    H256([b; 32])
}

fn header(prop_parent: H256, inter_parent: H256, shard: usize, cmt: H256) -> BlockHeader {
    BlockHeader::create(
        shard,
        prop_parent,
        inter_parent,
        vec![],
        H256::zero(),
        H256::zero(),
        H256::zero(),
        H256::zero(),
        cmt,
        Timestamp::epoch(),
    )
}

fn tx_block(cmt: u8, shard: usize) -> TransactionBlock {
    TransactionBlock::new(header(H256::zero(), H256::zero(), shard, h(cmt)), 0)
}

fn prop_block(parent: &H256, nonce: usize, txs: Vec<TransactionBlock>) -> VersaBlock {
    VersaBlock::PropBlock(ProposerBlock::new(
        header(*parent, H256::zero(), 0, H256::zero()),
        nonce,
        MerkleTree::<TransactionBlock>::new(&txs),
    ))
}

fn leaf(v: H256, height: usize) -> Box<Node> {
    Box::new(Node { val: v, children: vec![], height, longest_height: height })
}

#[test]
fn tree_insert_builds_branches_and_heights() {
    let mut root = leaf(h(0), 0);
    let a = Node::insert(&mut root, &h(0), h(1), 6).unwrap();
    assert_eq!(a.height, 1);
    let b = Node::insert(&mut root, &h(1), h(2), 6).unwrap();
    assert_eq!(b.height, 2);
    let c = Node::insert(&mut root, &h(0), h(3), 6).unwrap();
    assert_eq!(c.height, 1);
    assert!(Node::insert(&mut root, &h(9), h(4), 6).is_none());
    assert_eq!(root.longest_height, 2);
    assert_eq!(Node::get_longest_height(&root), 2);
    assert_eq!(Node::pre_traverse(&root), vec![h(0), h(1), h(2), h(3)]);
    assert_eq!(Node::get_leaves(&root), vec![h(2), h(3)]);
    assert_eq!(Node::get_path(&root, &h(2)), Some(vec![h(0), h(1), h(2)]));
    assert_eq!(Node::get_path(&root, &h(7)), None);
    assert_eq!(Node::get_leaves_start_from(&root, &h(1)), Some(vec![h(2)]));
    let n = Node::get_node_by_hash(&root, &h(1)).unwrap();
    assert_eq!(n.longest_height, 2);
    assert!(Node::get_node_by_hash(&root, &h(8)).is_none());
}

#[test]
fn tree_insert_of_an_existing_child_returns_it() {
    let mut root = leaf(h(0), 0);
    Node::insert(&mut root, &h(0), h(1), 6).unwrap();
    Node::insert(&mut root, &h(1), h(2), 6).unwrap();
    let again = Node::insert(&mut root, &h(0), h(1), 6).unwrap();
    assert_eq!(again.longest_height, 2);
    assert_eq!(root.children.len(), 1);
}

#[test]
fn tree_prune_cuts_a_branch_and_recomputes_heights() {
    let mut root = leaf(h(0), 0);
    Node::insert(&mut root, &h(0), h(1), 6).unwrap();
    Node::insert(&mut root, &h(1), h(2), 6).unwrap();
    Node::insert(&mut root, &h(0), h(3), 6).unwrap();
    let cut = Node::prune(&mut root, &h(1)).unwrap();
    assert_eq!(cut, vec![h(1), h(2)]);
    assert_eq!(root.longest_height, 1);
    assert_eq!(Node::pre_traverse(&root), vec![h(0), h(3)]);
    assert_eq!(Node::prune(&mut root, &h(9)), None);
    let mut lone = leaf(h(5), 0);
    assert_eq!(Node::prune(&mut lone, &h(5)), None);
}

#[test]
fn new_chain_holds_only_its_genesis() {
    let genesis = VersaBlock::default();
    let gh = genesis.hash_value();
    let chain = Blockchain::new(genesis, &Configuration::new());
    assert_eq!(chain.size(), 1);
    assert!(chain.tip().equals(&gh));
    assert_eq!(chain.all_blocks_in_longest_chain(), vec![gh]);
    assert_eq!(chain.get_block_height(&gh), Some(0));
    assert!(chain.get_genesis_block().same(&VersaBlock::default()));
    assert!(chain.is_block_confirmed(&gh, 0));
    assert!(!chain.is_block_confirmed(&gh, 1));
    assert_eq!(chain.config().k, 6);
}

#[test]
fn insert_extends_the_longest_chain_and_moves_the_tip() {
    let genesis = VersaBlock::default();
    let gh = genesis.hash_value();
    let mut chain = Blockchain::new(genesis, &Configuration::new());
    let b1 = prop_block(&gh, 1, vec![]);
    let h1 = b1.hash_value();
    assert_eq!(chain.insert_block_with_parent(b1, &gh), Ok(true));
    let b2 = prop_block(&h1, 2, vec![]);
    let h2 = b2.hash_value();
    assert_eq!(chain.insert_block_with_parent(b2, &h1), Ok(true));
    let fork = prop_block(&gh, 3, vec![]);
    let hf = fork.hash_value();
    assert_eq!(chain.insert_block_with_parent(fork, &gh), Ok(true));
    assert_eq!(chain.size(), 4);
    assert!(chain.tip().equals(&h2));
    assert_eq!(chain.all_blocks_in_longest_chain(), vec![gh, h1, h2]);
    assert_eq!(chain.all_blocks_end_with_block(&hf), Some(vec![gh, hf]));
    assert_eq!(chain.all_blocks_end_with_block(&h(42)), None);
    assert_eq!(chain.get_block_height(&h2), Some(2));
    assert_eq!(chain.get_block_height(&h(42)), None);
    assert!(chain.is_block_confirmed(&gh, 2));
    assert!(chain.is_block_confirmed(&h1, 1));
    assert!(!chain.is_block_confirmed(&hf, 1));
    assert!(!chain.is_block_confirmed(&h(42), 0));
    assert!(chain.get_block(&h1).is_some());
    assert!(chain.get_block(&h(42)).is_none());
}

#[test]
fn a_block_no_higher_than_the_tip_leaves_the_tip() {
    let genesis = VersaBlock::default();
    let gh = genesis.hash_value();
    let mut chain = Blockchain::new(genesis, &Configuration::new());
    let b1 = prop_block(&gh, 1, vec![]);
    let h1 = b1.hash_value();
    chain.insert_block_with_parent(b1, &gh).unwrap();
    let b2 = prop_block(&gh, 2, vec![]);
    chain.insert_block_with_parent(b2, &gh).unwrap();
    assert!(chain.tip().equals(&h1));
}

#[test]
fn insert_refuses_in_order_and_changes_nothing() {
    let genesis = VersaBlock::default();
    let gh = genesis.hash_value();
    let mut chain = Blockchain::new(genesis, &Configuration::new());
    let b1 = prop_block(&gh, 1, vec![]);
    let h1 = b1.hash_value();
    assert_eq!(chain.insert_block_with_parent(b1.clone(), &gh), Ok(true));
    assert_eq!(chain.insert_block_with_parent(b1, &gh), Err(ChainError::BlockExists));
    let named_other = prop_block(&gh, 5, vec![]);
    assert_eq!(chain.insert_block_with_parent(named_other, &h1), Err(ChainError::WrongParent));
    let orphan = prop_block(&h(77), 6, vec![]);
    assert_eq!(chain.insert_block_with_parent(orphan, &h(77)), Err(ChainError::ParentMissing));
    assert_eq!(chain.size(), 2);
    assert!(chain.tip().equals(&h1));
}

#[test]
fn transaction_blocks_of_the_longest_chain_are_found() {
    let genesis = VersaBlock::default();
    let gh = genesis.hash_value();
    let mut chain = Blockchain::new(genesis, &Configuration::new());
    let t1 = tx_block(1, 0);
    let t2 = tx_block(2, 1);
    let t1_hash = optchain::hash::Hashable::hash(&t1);
    let b1 = prop_block(&gh, 1, vec![t1.clone(), t2.clone()]);
    chain.insert_block_with_parent(b1, &gh).unwrap();
    let all = chain.get_all_tx_blk_in_longest_chain();
    assert_eq!(all.len(), 2);
    assert!(all[0].same(&t1) && all[1].same(&t2));
    assert_eq!(chain.get_all_tx_blk_in_longest_chain_by_shard(0).len(), 2);
    assert!(chain.get_tx_blk_in_longest_chain(&t1_hash).unwrap().same(&t1));
    assert!(chain.get_tx_blk_in_longest_chain(&h(3)).is_none());
}

#[test]
fn an_availability_block_names_its_intra_shard_parent() {
    let genesis = VersaBlock::ExAvaiBlock(AvailabilityBlock::default());
    let gh = genesis.hash_value();
    let mut chain = Blockchain::new(genesis, &Configuration::new());
    let b = VersaBlock::ExAvaiBlock(AvailabilityBlock::new(
        header(H256::zero(), gh, 0, H256::zero()),
        1,
        MerkleTree::<TransactionBlock>::new(&[]),
    ));
    let bh = b.hash_value();
    assert_eq!(chain.insert_block_with_parent(b, &gh), Ok(true));
    assert!(chain.tip().equals(&bh));
}

#[test]
fn a_chain_on_the_default_genesis_holds_the_zero_hash() {
    let chain = Blockchain::new(VersaBlock::default(), &Configuration::new());
    let g = H256::zero();
    assert!(chain.tip().equals(&g));
    assert_eq!(chain.size(), 1);
    assert_eq!(chain.all_blocks_in_longest_chain(), vec![g]);
    assert_eq!(chain.get_block_height(&g), Some(0));
    assert!(chain.get_block(&g).is_some());
    assert!(chain.get_block(&H256([1; 32])).is_none());
}
