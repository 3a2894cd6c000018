use tracker::bag_id::BagId;
use tracker::bitcoin_client::{
    BitcoinMintExt, FundRawTransactionResult, SignRawTransactionResult, Tx, TxOut,
};
use tracker::index::mint_script;
use tracker::record::Txid;
use tracker::test_utils::{create_test_block, TestBitcoinClient};

#[test]
fn send_mint_transaction_finds_moved_output() {
    let bag = BagId([7; 32]);

    // The node funded the transaction and moved the bag output to position
    // 1, with the change output at position 0.
    let signed_tx = Tx {
        txid: Txid([9; 32]),
        output: vec![
            TxOut { value: 1234, script_pubkey: vec![0x76, 0xa9] },
            TxOut { value: 5000, script_pubkey: mint_script(&bag) },
        ],
    };

    let genesis = create_test_block(0, 1, None);
    let mut client = TestBitcoinClient::new(genesis);
    client.funded_response = Some(FundRawTransactionResult { hex: vec![1, 2, 3] });
    client.signed_response = Some(SignRawTransactionResult { hex: vec![4, 5, 6], transaction: signed_tx });
    client.send_response = Some(Txid([8; 32]));

    let bid = client.send_mint_transaction(5000, &bag).unwrap();
    assert_eq!(bid.outpoint.out_pos, 1);
    assert_eq!(bid.outpoint.txid.0, [8u8; 32]);
    assert_eq!(bid.bag_id.0, [7u8; 32]);
}

#[test]
fn send_mint_transaction_fails_without_wallet() {
    let bag = BagId([7; 32]);
    let genesis = create_test_block(0, 1, None);
    let client = TestBitcoinClient::new(genesis);
    assert!(client.send_mint_transaction(5000, &bag).is_err());
}

#[test]
fn send_mint_transaction_fails_when_output_is_stripped() {
    let bag = BagId([7; 32]);
    // The signed transaction carries no output for the bag.
    let signed_tx = Tx {
        txid: Txid([9; 32]),
        output: vec![TxOut { value: 1234, script_pubkey: vec![0x76, 0xa9] }],
    };
    let genesis = create_test_block(0, 1, None);
    let mut client = TestBitcoinClient::new(genesis);
    client.funded_response = Some(FundRawTransactionResult { hex: vec![1] });
    client.signed_response = Some(SignRawTransactionResult { hex: vec![2], transaction: signed_tx });
    client.send_response = Some(Txid([8; 32]));
    assert!(client.send_mint_transaction(5000, &bag).is_err());
}
