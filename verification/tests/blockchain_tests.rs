use distributed_legder::blockchain::block::{Block, BlockHeader};
use distributed_legder::blockchain::blockchain_handler::{BlockAction, BlockchainHandler};
use distributed_legder::blockchain::blockchain::Blockchain;
use distributed_legder::blockchain::consensus::ConsensusAlgorithm;
use distributed_legder::blockchain::miner::Miner;
use distributed_legder::blockchain::transaction::Transaction;
use distributed_legder::constants::blockchain_node_type::BlockchainNodeType;
use distributed_legder::constants::fixed_sizes::{BLOCKCHAIN_VERSION, ZEROS_HASH};
use distributed_legder::constants::multicast_info_type::MulticastInfoType;
use distributed_legder::constants::utils::calculate_block_hash;
use distributed_legder::network::node::Node;

const EMPTY_SHA256: &str = "e3b0c44298fc1c149afbf4c8996fb92427ae41e4649b934ca495991b7852b855";

fn tx(sender: &str, recipient: &str, amount: f64) -> Transaction {
    Transaction::new(String::new(), sender.to_string(), recipient.to_string(), amount.to_bits(), String::new())
}

#[test]
fn test_mining_pow_block_and_validate() {
    let mut block = Block::new(
        0,
        ZEROS_HASH.to_string(),
        "".to_string(),
        Vec::from([tx("sad", "dpr", 100000.0), tx("sad2", "dpr2", 100000.0)]),
    );
    println!("initial {:?}", block);

    block.header.timestamp = 0;

    let miner = Miner::new(ConsensusAlgorithm::ProofOfWork);

    let nonce = miner.mine_block(&block);

    block.header.nonce = nonce;

    let string_hash = calculate_block_hash(&block);
    let is_valid = block.is_valid();

    println!("Last {:?}", block);
    println!("Nonce {} Hash {}", nonce, string_hash);
    assert_eq!(is_valid, true);
    assert_eq!(nonce, 3791);
    assert_eq!(string_hash, "000a35cf331f01830668292ac66797ba9389ee0662a1dc3f80a5461d54cf58ad");
}

#[test]
fn new_block_has_empty_merkle_root_and_nonce_zero() {
    let block = Block::new(4, "prev".to_string(), "h".to_string(), vec![tx("a", "b", 1.0)]);
    assert_eq!(block.header.index, 4);
    assert_eq!(block.header.version, BLOCKCHAIN_VERSION);
    assert_eq!(block.header.previous_hash, "prev");
    assert_eq!(block.header.hash, "h");
    assert_eq!(block.header.merkle_root, EMPTY_SHA256);
    assert_eq!(block.header.nonce, 0);
    assert_eq!(block.transactions.len(), 1);
    assert!(block.clone().validate_merkle_tree());
    let mut other = block;
    other.header.merkle_root = "x".to_string();
    assert!(!other.validate_merkle_tree());
}

#[test]
fn block_hash_covers_header_fields() {
    let mut block = Block::new(0, ZEROS_HASH.to_string(), String::new(), Vec::new());
    block.header.timestamp = 0;
    assert_eq!(
        calculate_block_hash(&block),
        "b2a5ecd4a19fd38b482292424ab334651437eb58cb3c87cfc160bbfb77891794"
    );
    assert!(!block.is_valid());
    block.header.hash = "ignored".to_string();
    assert_eq!(
        calculate_block_hash(&block),
        "b2a5ecd4a19fd38b482292424ab334651437eb58cb3c87cfc160bbfb77891794"
    );
}

#[test]
fn proof_of_stake_keeps_the_nonce() {
    let mut block = Block::new(0, ZEROS_HASH.to_string(), String::new(), Vec::new());
    block.header.nonce = 42;
    let miner = Miner::new(ConsensusAlgorithm::DelegatedProofOfStake);
    assert_eq!(miner.mine_block(&block), 42);
    assert_eq!(miner.try_mine_block(&block), Some(42));
}

#[test]
fn bootstrap_init_mines_genesis() {
    let mut chain = Blockchain::new(ConsensusAlgorithm::ProofOfWork, BlockchainNodeType::Bootstrap);
    assert_eq!(chain.block_count(), 0);
    let genesis = chain.init().unwrap();
    assert_eq!(chain.block_count(), 1);
    assert_eq!(genesis.header.index, 0);
    assert_eq!(genesis.header.timestamp, 0);
    assert_eq!(genesis.header.previous_hash, "0");
    assert_eq!(genesis.header.nonce, 3110);
    assert_eq!(genesis.header.hash, "bf05d20baefd76eaee6a62fd4ead142eee16862671dc6dc55b7c4092cd87783e");
    assert!(genesis.is_valid());
    assert!(!chain.is_chain_valid());
}

#[test]
fn miner_node_has_no_genesis() {
    let mut chain = Blockchain::new(ConsensusAlgorithm::ProofOfWork, BlockchainNodeType::Miner);
    assert!(chain.init().is_none());
    assert!(chain.try_init().is_none());
    assert_eq!(chain.block_count(), 0);
    assert!(chain.is_chain_valid());
}

#[test]
fn mined_blocks_extend_a_valid_chain() {
    let mut chain = Blockchain::new(ConsensusAlgorithm::ProofOfWork, BlockchainNodeType::Miner);
    let first = Block::new(0, ZEROS_HASH.to_string(), String::new(), Vec::new());
    let first = chain.mine_block(first);
    assert!(first.is_valid());
    assert_eq!(first.header.hash, calculate_block_hash(&first));
    assert!(chain.add_block(first.clone()));
    assert!(chain.is_chain_valid());
    let second = Block::new(1, first.header.hash.clone(), String::new(), vec![tx("a", "b", 2.5)]);
    let second = chain.try_mine_block(second).unwrap();
    assert_eq!(chain.try_add_block(second), Some(true));
    assert_eq!(chain.block_count(), 2);
    assert!(chain.is_chain_valid());
}

#[test]
fn blocks_that_do_not_link_are_refused() {
    let mut chain = Blockchain::new(ConsensusAlgorithm::ProofOfWork, BlockchainNodeType::Miner);
    let not_genesis = Block::new(0, "abc".to_string(), String::new(), Vec::new());
    assert_eq!(chain.try_add_block(not_genesis), None);
    assert_eq!(chain.block_count(), 0);
    let first = chain.mine_block(Block::new(0, ZEROS_HASH.to_string(), String::new(), Vec::new()));
    assert_eq!(chain.try_add_block(first), Some(true));
    let stray = chain.mine_block(Block::new(1, "elsewhere".to_string(), String::new(), Vec::new()));
    assert!(!chain.add_block(stray));
    assert_eq!(chain.block_count(), 1);
}

#[test]
fn created_block_empties_pending_transactions() {
    let mut chain = Blockchain::new(ConsensusAlgorithm::DelegatedProofOfStake, BlockchainNodeType::Bootstrap);
    chain.create_block();
    let genesis = chain.try_init().unwrap();
    assert_eq!(genesis.header.nonce, 0);
    chain.add_transaction(tx("a", "b", 1.0));
    chain.add_transaction(tx("b", "c", 2.0));
    chain.create_block();
    assert_eq!(chain.block_count(), 1);
}

#[test]
fn try_init_mines_the_same_genesis_as_init() {
    let mut chain = Blockchain::new(ConsensusAlgorithm::ProofOfWork, BlockchainNodeType::Bootstrap);
    let genesis = chain.try_init().unwrap();
    assert_eq!(genesis.header.nonce, 3110);
    assert_eq!(genesis.header.hash, "bf05d20baefd76eaee6a62fd4ead142eee16862671dc6dc55b7c4092cd87783e");
    assert_eq!(chain.block_count(), 1);
}

#[test]
fn header_with_timestamp_keeps_every_field() {
    let h = BlockHeader::with_timestamp(3, 1, 77, "p".to_string(), "h".to_string(), "m".to_string(), 9);
    assert_eq!(h.index, 3);
    assert_eq!(h.version, 1);
    assert_eq!(h.timestamp, 77);
    assert_eq!(h.previous_hash, "p");
    assert_eq!(h.hash, "h");
    assert_eq!(h.merkle_root, "m");
    assert_eq!(h.nonce, 9);
    let now = BlockHeader::new(0, 1, String::new(), String::new(), String::new(), 0);
    assert!(now.timestamp > 0);
}

#[test]
fn block_hash_is_64_lowercase_hex_digits() {
    let block = Block::new(5, "prev".to_string(), String::new(), Vec::new());
    let h = calculate_block_hash(&block);
    assert_eq!(h.len(), 64);
    assert!(h.chars().all(|c| c.is_ascii_digit() || ('a'..='f').contains(&c)));
}

#[test]
fn miner_notifies_on_valid_block_and_mines_an_invalid_one() {
    let chain_owner = Node::new("10.0.0.3".to_string(), 1500);
    let mut handler = BlockchainHandler::new(
        ConsensusAlgorithm::ProofOfWork,
        chain_owner,
        BlockchainNodeType::Miner,
        None,
    );
    let raw = Block::new(0, ZEROS_HASH.to_string(), String::new(), Vec::new());
    assert_eq!(handler.on_block(MulticastInfoType::Miscellaneous, &raw), BlockAction::Ignore);
    assert_eq!(handler.on_block(MulticastInfoType::Block, &raw), BlockAction::Mine);
    let mined = handler.worker_nine(raw).unwrap();
    assert!(mined.is_valid());
    assert_eq!(handler.blockchain.block_count(), 1);
    assert_eq!(handler.on_block(MulticastInfoType::Block, &mined), BlockAction::NotifyMiner);
    let stray = Block::new(1, "elsewhere".to_string(), String::new(), Vec::new());
    assert!(handler.worker_nine(stray).unwrap().is_valid());
    assert_eq!(handler.blockchain.block_count(), 1);
}

#[test]
fn bootstrap_catches_up_only_with_a_valid_chain() {
    let owner = Node::new("10.0.0.4".to_string(), 1500);
    let mut handler = BlockchainHandler::new(
        ConsensusAlgorithm::ProofOfWork,
        owner,
        BlockchainNodeType::Bootstrap,
        None,
    );
    let raw = Block::new(0, ZEROS_HASH.to_string(), String::new(), Vec::new());
    assert_eq!(handler.on_block(MulticastInfoType::Block, &raw), BlockAction::CatchUpAndAdd);
    handler.blockchain.init().unwrap();
    assert_eq!(handler.on_block(MulticastInfoType::Block, &raw), BlockAction::Ignore);
}
