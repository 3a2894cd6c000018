use tracker::bag_id::BagId;
use tracker::index::{Index, TrackerError};
use tracker::record::BidProof;
use tracker::storage::{BidStorage, BidStorageError, MemoryIndexStorage};
use tracker::test_utils::{
    create_test_block, create_test_block_with_mint_tx, create_test_mint_transaction,
    TestBitcoinClient,
};

#[test]
fn test_new_blocks_with_mint_txs() {
    let initial_block = create_test_block(0, 1, None);
    let initial_hash = initial_block.block_hash;
    let (block2, prf) = create_test_block_with_mint_tx(1, 2, Some(initial_hash), [1; 32]);
    let block2_hash = block2.block_hash;

    let client = TestBitcoinClient::new(initial_block);
    let storage = MemoryIndexStorage::new();
    let mut index = Index::new(client, storage, None).unwrap();

    index.add_bag(BagId([1; 32])).unwrap();

    index.btc_client.push_main(block2);
    index.add_bid(prf).unwrap();

    assert_eq!(index.bids_storage.get_blocks_count().unwrap(), 1);

    let txs_in_index = index.bids_storage.get_records_by_block_hash(&block2_hash).unwrap();
    let block2_tx_out = &txs_in_index[0];

    assert_eq!(block2_tx_out.amount, 10);
    assert_eq!(block2_tx_out.proof.tx.bag_id.0, [1u8; 32]);
}

#[test]
fn test_new_blocks_with_mint_txs_invalid_bags() {
    let initial_block = create_test_block(0, 1, None);
    let initial_hash = initial_block.block_hash;
    let (mut block2, prf1) = create_test_block_with_mint_tx(1, 2, Some(initial_hash), [1; 32]);
    let (tx2, prf2) = create_test_mint_transaction([2; 32]);
    block2.block.txdata.push(tx2);
    let block2_hash = block2.block_hash;

    let client = TestBitcoinClient::new(initial_block);
    let storage = MemoryIndexStorage::new();
    let mut index = Index::new(client, storage, None).unwrap();

    // A bid for an unregistered bag is refused, so register both bags first.
    index.add_bag(BagId([1; 32])).unwrap();
    index.add_bag(BagId([2; 32])).unwrap();

    index.btc_client.push_main(block2);

    index.add_bid(prf1).unwrap();
    index.add_bid(BidProof::new(block2_hash, prf2)).unwrap();
    assert_eq!(index.bids_storage.get_blocks_count().unwrap(), 1);

    let mut txs_in_index = index.bids_storage.get_records_by_block_hash(&block2_hash).unwrap();
    txs_in_index.sort_by(|x, y| x.proof.tx.bag_id.0.cmp(&y.proof.tx.bag_id.0));

    assert_eq!(txs_in_index.len(), 2);
    assert_eq!(txs_in_index[0].proof.tx.bag_id.0, [1u8; 32]);
    assert_eq!(txs_in_index[1].proof.tx.bag_id.0, [2u8; 32]);
}

#[test]
fn test_reorg() {
    let initial_block = create_test_block(0, 1, None);
    let initial_hash = initial_block.block_hash;
    let (block2, _prf1) = create_test_block_with_mint_tx(1, 2, Some(initial_hash), [1; 32]);
    let (forked_block, _prf2) = create_test_block_with_mint_tx(1, 3, Some(initial_hash), [2; 32]);
    let (forked_block2, _prf3) =
        create_test_block_with_mint_tx(2, 4, Some(forked_block.block_hash), [3; 32]);
    let forked_hash = forked_block.block_hash;
    let forked2_hash = forked_block2.block_hash;

    let client = TestBitcoinClient::new(initial_block);
    let storage = MemoryIndexStorage::new();
    let mut index = Index::new(client, storage, None).unwrap();

    index.add_bag(BagId([1; 32])).unwrap();
    index.add_bag(BagId([2; 32])).unwrap();
    index.add_bag(BagId([3; 32])).unwrap();

    index.btc_client.push_main(block2);
    index.check_reorgs().unwrap();

    assert_eq!(index.current_height, 1);
    assert_eq!(index.bids_storage.get_blocks_count().unwrap(), 1);

    // The fork replaces block2 with two blocks on top of the genesis block.
    index.btc_client.orphan_tip();
    index.btc_client.push_main(forked_block);
    index.btc_client.push_main(forked_block2);
    index.check_reorgs().unwrap();

    assert_eq!(index.current_height, 2);
    assert_eq!(index.bids_storage.get_blocks_count().unwrap(), 2);

    let txs_in_index = index.bids_storage.get_records_by_block_hash(&forked_hash).unwrap();
    let forked_block_tx_out = &txs_in_index[0];
    assert_eq!(forked_block_tx_out.proof.tx.bag_id.0, [2u8; 32]);

    let txs_in_index = index.bids_storage.get_records_by_block_hash(&forked2_hash).unwrap();
    let forked_block2_tx_out = &txs_in_index[0];
    assert_eq!(forked_block2_tx_out.proof.tx.bag_id.0, [3u8; 32]);
}

#[test]
fn test_reorg_shorter_chain() {
    let initial_block = create_test_block(0, 1, None);
    let initial_hash = initial_block.block_hash;
    let (forked_block, _prf1) = create_test_block_with_mint_tx(1, 2, Some(initial_hash), [1; 32]);
    let (block2, _prf2) = create_test_block_with_mint_tx(1, 3, Some(initial_hash), [2; 32]);
    let (block3, _prf3) = create_test_block_with_mint_tx(2, 4, Some(block2.block_hash), [3; 32]);
    let forked_hash = forked_block.block_hash;

    let client = TestBitcoinClient::new(initial_block);
    let storage = MemoryIndexStorage::new();
    let mut index = Index::new(client, storage, None).unwrap();

    index.add_bag(BagId([1; 32])).unwrap();
    index.add_bag(BagId([2; 32])).unwrap();
    index.add_bag(BagId([3; 32])).unwrap();

    index.btc_client.push_main(block2);
    index.btc_client.push_main(block3);
    index.check_reorgs().unwrap();

    assert_eq!(index.current_height, 2);
    assert_eq!(index.bids_storage.get_blocks_count().unwrap(), 2);

    // The fork replaces the two processed blocks with a single block.
    index.btc_client.orphan_tip();
    index.btc_client.orphan_tip();
    index.btc_client.push_main(forked_block);
    index.check_reorgs().unwrap();

    assert_eq!(index.current_height, 1);
    assert_eq!(index.bids_storage.get_blocks_count().unwrap(), 1);

    let txs_in_index = index.bids_storage.get_records_by_block_hash(&forked_hash).unwrap();
    let forked_block_tx_out = &txs_in_index[0];
    assert_eq!(forked_block_tx_out.proof.tx.bag_id.0, [1u8; 32]);
}

#[test]
fn two_bids_across_blocks_count_two_blocks() {
    let initial_block = create_test_block(0, 1, None);
    let initial_hash = initial_block.block_hash;
    let (block1, prf1) = create_test_block_with_mint_tx(1, 2, Some(initial_hash), [1; 32]);
    let block1_hash = block1.block_hash;
    let (block2, prf2) = create_test_block_with_mint_tx(2, 3, Some(block1_hash), [2; 32]);

    let client = TestBitcoinClient::new(initial_block);
    let storage = MemoryIndexStorage::new();
    let mut index = Index::new(client, storage, None).unwrap();

    index.add_bag(BagId([1; 32])).unwrap();
    index.add_bag(BagId([2; 32])).unwrap();
    index.btc_client.push_main(block1);
    index.add_bid(prf1).unwrap();
    index.btc_client.push_main(block2);
    index.add_bid(prf2).unwrap();

    // The two confirmations sit in two distinct blocks.
    assert_eq!(index.bids_storage.get_blocks_count().unwrap(), 2);
    assert_eq!(index.current_height, 2);
}

#[test]
fn check_reorgs_reports_the_discarded_blocks() {
    let initial_block = create_test_block(0, 1, None);
    let initial_hash = initial_block.block_hash;
    let (block2, _p1) = create_test_block_with_mint_tx(1, 2, Some(initial_hash), [1; 32]);
    let block2_hash = block2.block_hash;
    let (block3, _p2) = create_test_block_with_mint_tx(2, 3, Some(block2_hash), [2; 32]);
    let block3_hash = block3.block_hash;
    let (forked_block, _p3) = create_test_block_with_mint_tx(1, 4, Some(initial_hash), [3; 32]);

    let client = TestBitcoinClient::new(initial_block);
    let storage = MemoryIndexStorage::new();
    let mut index = Index::new(client, storage, None).unwrap();
    index.btc_client.push_main(block2);
    index.btc_client.push_main(block3);
    index.check_reorgs().unwrap();

    index.btc_client.orphan_tip();
    index.btc_client.orphan_tip();
    index.btc_client.push_main(forked_block);
    let reorg = index.check_reorgs().unwrap().expect("a reorganization happened");

    assert_eq!(reorg.height_when_fork, 0);
    assert_eq!(reorg.fork_root.0, initial_hash.0);
    // Orphaned hashes come newest first, from the old tip down to the fork root.
    assert_eq!(reorg.discarded_blocks.len(), 2);
    assert_eq!(reorg.discarded_blocks[0].0, block3_hash.0);
    assert_eq!(reorg.discarded_blocks[1].0, block2_hash.0);
}

#[test]
fn check_reorgs_is_idempotent_when_chain_unchanged() {
    let initial_block = create_test_block(0, 1, None);
    let initial_hash = initial_block.block_hash;
    let (block2, _prf) = create_test_block_with_mint_tx(1, 2, Some(initial_hash), [1; 32]);

    let client = TestBitcoinClient::new(initial_block);
    let storage = MemoryIndexStorage::new();
    let mut index = Index::new(client, storage, None).unwrap();
    index.add_bag(BagId([1; 32])).unwrap();
    index.btc_client.push_main(block2);

    let first = index.check_reorgs().unwrap();
    assert!(first.is_none());
    assert_eq!(index.current_height, 1);
    let count_after_first = index.bids_storage.get_blocks_count().unwrap();

    // With the chain unchanged, a second sweep is a no-op.
    let second = index.check_reorgs().unwrap();
    assert!(second.is_none());
    assert_eq!(index.current_height, 1);
    assert_eq!(index.bids_storage.get_blocks_count().unwrap(), count_after_first);
}

#[test]
fn check_reorgs_follows_tip_height() {
    let initial_block = create_test_block(0, 1, None);
    let initial_hash = initial_block.block_hash;
    let (block2, _p1) = create_test_block_with_mint_tx(1, 2, Some(initial_hash), [1; 32]);
    let block2_hash = block2.block_hash;
    let (block3, _p2) = create_test_block_with_mint_tx(2, 3, Some(block2_hash), [2; 32]);
    let block3_hash = block3.block_hash;

    let client = TestBitcoinClient::new(initial_block);
    let storage = MemoryIndexStorage::new();
    let mut index = Index::new(client, storage, None).unwrap();
    index.btc_client.push_main(block2);
    index.btc_client.push_main(block3);

    index.check_reorgs().unwrap();
    assert_eq!(index.current_height, 2);
    assert_eq!(index.current_tip.0, block3_hash.0);
}

#[test]
fn add_bid_unknown_block_is_tx_does_not_exists() {
    let initial_block = create_test_block(0, 1, None);
    let initial_hash = initial_block.block_hash;
    let (_block2, prf) = create_test_block_with_mint_tx(1, 2, Some(initial_hash), [1; 32]);

    let client = TestBitcoinClient::new(initial_block);
    let storage = MemoryIndexStorage::new();
    let mut index = Index::new(client, storage, None).unwrap();
    index.add_bag(BagId([1; 32])).unwrap();

    // block2 was never handed to the client: the proof names an unknown block.
    let err = index.add_bid(prf).unwrap_err();
    assert!(matches!(err, TrackerError::TxDoesNotExists(_, _)));
}

#[test]
fn add_bid_wrong_position_is_wrong_output_format() {
    let initial_block = create_test_block(0, 1, None);
    let initial_hash = initial_block.block_hash;
    let (block2, mut prf) = create_test_block_with_mint_tx(1, 2, Some(initial_hash), [1; 32]);

    let client = TestBitcoinClient::new(initial_block);
    let storage = MemoryIndexStorage::new();
    let mut index = Index::new(client, storage, None).unwrap();
    index.add_bag(BagId([1; 32])).unwrap();
    index.btc_client.push_main(block2);

    // The transaction has a single output at position 0.
    prf.tx.outpoint.out_pos = 5;
    let err = index.add_bid(prf).unwrap_err();
    assert!(matches!(err, TrackerError::WrongOutputFormat));
}

#[test]
fn add_bid_other_bag_is_wrong_bag_id() {
    let initial_block = create_test_block(0, 1, None);
    let initial_hash = initial_block.block_hash;
    let (block2, mut prf) = create_test_block_with_mint_tx(1, 2, Some(initial_hash), [1; 32]);

    let client = TestBitcoinClient::new(initial_block);
    let storage = MemoryIndexStorage::new();
    let mut index = Index::new(client, storage, None).unwrap();
    index.add_bag(BagId([1; 32])).unwrap();
    index.add_bag(BagId([9; 32])).unwrap();
    index.btc_client.push_main(block2);

    // The output embeds bag [1; 32], not the claimed [9; 32].
    prf.tx.bag_id = BagId([9; 32]);
    let err = index.add_bid(prf).unwrap_err();
    match err {
        TrackerError::WrongBagId { expected, actual, .. } => {
            assert_eq!(expected.0, [9u8; 32]);
            assert_eq!(actual.0, [1u8; 32]);
        },
        other => panic!("unexpected error {:?}", other),
    }
}

#[test]
fn add_bid_unregistered_bag_is_bag_does_not_exists() {
    let initial_block = create_test_block(0, 1, None);
    let initial_hash = initial_block.block_hash;
    let (block2, prf) = create_test_block_with_mint_tx(1, 2, Some(initial_hash), [1; 32]);

    let client = TestBitcoinClient::new(initial_block);
    let storage = MemoryIndexStorage::new();
    let mut index = Index::new(client, storage, None).unwrap();
    index.btc_client.push_main(block2);

    // The operator skipped add_bag: the storage refuses the promotion.
    let err = index.add_bid(prf).unwrap_err();
    assert!(matches!(
        err,
        TrackerError::StorageError(BidStorageError::BagDoesNotExists(_))
    ));
}
