use tracker::bag_id::BagId;
use tracker::bag_storage::{BagMemoryStorage, BagMemoryStorageError};
use tracker::index::mint_script;
use tracker::record::{BidEntry, BidProof, BidTx, BlockHash, Outpoint, Txid};
use tracker::storage::{BidStorage, BidStorageError, MemoryIndexStorage};

fn dummy_record(block: [u8; 32], txid: [u8; 32], out_pos: u64, bag_id: [u8; 32], amount: u64) -> BidEntry {
    BidEntry {
        amount,
        proof: BidProof::new(
            BlockHash(block),
            BidTx::new(Outpoint::new(Txid(txid), out_pos), BagId(bag_id)),
        ),
    }
}

#[test]
fn memory_storage_confirmation_lifecycle() {
    let mut store = MemoryIndexStorage::new();
    let record = dummy_record([1; 32], [2; 32], 4, [3; 32], 5);

    store.insert_bid(record).unwrap();
    assert_eq!(store.get_blocks_count().unwrap(), 1);

    let records = store.get_records_by_block_hash(&record.proof.btc_block).unwrap();
    assert_eq!(records.len(), 1);
    assert_eq!(records[0].amount, 5);
    assert_eq!(records[0].proof.tx.bag_id.0, [3u8; 32]);
    assert_eq!(records[0].proof.tx.outpoint.out_pos, 4);

    assert!(store.is_bag_confirmed(&BagId([3; 32])).unwrap());

    // Demotion keeps the bag but drops its confirmation.
    store.remove_confirmation_with_block_hash(&record.proof.btc_block).unwrap();
    assert_eq!(store.get_blocks_count().unwrap(), 0);
    assert!(store.is_bag_exists(&BagId([3; 32])).unwrap());
    assert!(!store.is_bag_confirmed(&BagId([3; 32])).unwrap());
    assert!(store.get_records_by_block_hash(&record.proof.btc_block).unwrap().is_empty());

    // The demoted bag can be re-confirmed, in a different block.
    let record2 = dummy_record([9; 32], [2; 32], 4, [3; 32], 7);
    store.update_bid(record2).unwrap();
    assert_eq!(store.get_blocks_count().unwrap(), 1);

    store.remove_bag(&BagId([3; 32])).unwrap();
    assert_eq!(store.get_blocks_count().unwrap(), 0);
    assert!(!store.is_bag_exists(&BagId([3; 32])).unwrap());
}

#[test]
fn memory_storage_error_cases() {
    let mut store = MemoryIndexStorage::new();
    let record = dummy_record([1; 32], [2; 32], 0, [3; 32], 5);

    // update_bid needs an existing record.
    assert!(matches!(
        store.update_bid(record).unwrap_err(),
        BidStorageError::BagDoesNotExists(_)
    ));
    // remove_bag needs an existing record.
    assert!(matches!(
        store.remove_bag(&BagId([3; 32])).unwrap_err(),
        BidStorageError::BagDoesNotExists(_)
    ));

    store.insert_bid(record).unwrap();
    // insert_bid refuses a second record for the same bag.
    assert!(matches!(
        store.insert_bid(record).unwrap_err(),
        BidStorageError::BagAlreadyExists(_)
    ));

    // insert_unconfirmed_bag is an idempotent no-op on an existing record.
    store.insert_unconfirmed_bag(BagId([3; 32])).unwrap();
    assert_eq!(store.get_blocks_count().unwrap(), 1);
}

#[test]
fn memory_storage_counts_distinct_blocks() {
    let mut store = MemoryIndexStorage::new();
    store.insert_bid(dummy_record([1; 32], [2; 32], 0, [10; 32], 1)).unwrap();
    store.insert_bid(dummy_record([1; 32], [3; 32], 0, [11; 32], 2)).unwrap();
    store.insert_bid(dummy_record([2; 32], [4; 32], 0, [12; 32], 3)).unwrap();
    store.insert_unconfirmed_bag(BagId([13; 32])).unwrap();
    assert_eq!(store.get_blocks_count().unwrap(), 2);
}

#[test]
fn bag_memory_storage_lifecycle() {
    let mut store = BagMemoryStorage::new();
    let bag = BagId([1; 32]);

    store.insert_unconfirmed_bag(bag).unwrap();
    assert!(store.is_bag_exists(&bag).unwrap());
    assert!(!store.is_bag_confirmed(&bag).unwrap());
    assert_eq!(store.count_bags().unwrap(), 1);

    store
        .update_confirm_bag(&bag, BlockHash([2; 32]), Outpoint::new(Txid([3; 32]), 0))
        .unwrap();
    assert!(store.is_bag_confirmed(&bag).unwrap());
    assert_eq!(store.count_bags().unwrap(), 1);

    store.delete_bag(&bag).unwrap();
    assert_eq!(store.count_bags().unwrap(), 0);
    assert_eq!(store.delete_bag(&bag), Err(BagMemoryStorageError::BagNotExists));
    assert_eq!(
        store.update_confirm_bag(&bag, BlockHash([2; 32]), Outpoint::new(Txid([3; 32]), 0)),
        Err(BagMemoryStorageError::BagNotExists)
    );
}

#[test]
fn bag_memory_storage_insert_confirmed() {
    let mut store = BagMemoryStorage::new();
    let bag = BagId([5; 32]);
    let proof = BidProof::new(
        BlockHash([6; 32]),
        BidTx::new(Outpoint::new(Txid([7; 32]), 1), bag),
    );
    store.insert_confirmed_bag(proof).unwrap();
    assert!(store.is_bag_exists(&bag).unwrap());
    assert!(store.is_bag_confirmed(&bag).unwrap());
    assert_eq!(store.count_bags().unwrap(), 1);
}

#[test]
fn storage_keeps_scripts_mint_shaped() {
    // A confirmed record's witness data round-trips through the storage
    // unchanged, and its script (as rebuilt from the bag) matches the
    // recognizer's format.
    let mut store = MemoryIndexStorage::new();
    let record = dummy_record([1; 32], [2; 32], 0, [3; 32], 5);
    store.insert_bid(record).unwrap();
    let records = store.get_records_by_block_hash(&record.proof.btc_block).unwrap();
    let script = mint_script(&records[0].proof.tx.bag_id);
    assert_eq!(script.len(), 34);
    assert_eq!(&script[2..34], &records[0].proof.tx.bag_id.0);
}
