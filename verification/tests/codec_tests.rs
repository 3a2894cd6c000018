use tracker::bag_id::BagId;
use tracker::bitcoin_client::{consensus_encode_tx, find_out_pos_mint_tx, Tx, TxOut};
use tracker::index::{mint_script, parse_mint_btc_output, parse_mint_transaction_btc_block};
use tracker::record::Txid;

#[test]
fn mint_codec_round_trip() {
    let bag = BagId([7; 32]);
    let script = mint_script(&bag);
    assert_eq!(script.len(), 34);
    assert_eq!(script[0], 0x00);
    assert_eq!(script[1], 0x20);
    let out = TxOut { value: 42, script_pubkey: script };
    let parsed = parse_mint_btc_output(&out).unwrap();
    assert_eq!(parsed.bag_id.0, [7u8; 32]);
    assert_eq!(parsed.amount, 42);
}

#[test]
fn mint_codec_rejects_op_return_script() {
    // The older OP_RETURN-based shape: 0x6a then a 32-byte push.
    let mut script = vec![0x6au8, 0x20u8];
    script.extend_from_slice(&[7u8; 32]);
    assert_eq!(script.len(), 34);
    let out = TxOut { value: 42, script_pubkey: script };
    assert!(parse_mint_btc_output(&out).is_none());
}

#[test]
fn mint_codec_rejects_wrong_length() {
    let mut script = vec![0x00u8, 0x20u8];
    script.extend_from_slice(&[7u8; 31]);
    let out = TxOut { value: 42, script_pubkey: script };
    assert!(parse_mint_btc_output(&out).is_none());

    let mut long_script = vec![0x00u8, 0x20u8];
    long_script.extend_from_slice(&[7u8; 33]);
    let out2 = TxOut { value: 42, script_pubkey: long_script };
    assert!(parse_mint_btc_output(&out2).is_none());
}

#[test]
fn mint_codec_rejects_wrong_push_prefix() {
    let mut script = vec![0x00u8, 0x21u8];
    script.extend_from_slice(&[7u8; 32]);
    let out = TxOut { value: 42, script_pubkey: script };
    assert!(parse_mint_btc_output(&out).is_none());
}

#[test]
fn parse_at_position_respects_bounds() {
    let bag = BagId([3; 32]);
    let tx = Tx {
        txid: Txid([1; 32]),
        output: vec![TxOut { value: 9, script_pubkey: mint_script(&bag) }],
    };
    let parsed = parse_mint_transaction_btc_block(&tx, 0).unwrap();
    assert_eq!(parsed.bag_id.0, [3u8; 32]);
    assert_eq!(parsed.amount, 9);
    assert!(parse_mint_transaction_btc_block(&tx, 1).is_none());
}

#[test]
fn mint_tx_encoding_layout() {
    let bag = BagId([5; 32]);
    let bytes = consensus_encode_tx(0x0102030405060708, &bag);
    // version (4) + input count (1) + output count (1) + value (8)
    // + script length (1) + script (34) + lock time (4)
    assert_eq!(bytes.len(), 53);
    assert_eq!(&bytes[0..4], &[2, 0, 0, 0]);
    assert_eq!(bytes[4], 0); // no inputs
    assert_eq!(bytes[5], 1); // one output
    assert_eq!(&bytes[6..14], &[8, 7, 6, 5, 4, 3, 2, 1]); // value, little endian
    assert_eq!(bytes[14], 34); // script length
    assert_eq!(bytes[15], 0x00);
    assert_eq!(bytes[16], 0x20);
    assert_eq!(&bytes[17..49], &[5u8; 32]);
    assert_eq!(&bytes[49..53], &[0, 0, 0, 0]); // lock time
}

#[test]
fn find_out_pos_scans_for_the_bag() {
    let bag = BagId([7; 32]);
    let other = BagId([8; 32]);
    let tx = Tx {
        txid: Txid([1; 32]),
        output: vec![
            TxOut { value: 1, script_pubkey: vec![0x76, 0xa9] },
            TxOut { value: 2, script_pubkey: mint_script(&other) },
            TxOut { value: 3, script_pubkey: mint_script(&bag) },
        ],
    };
    assert_eq!(find_out_pos_mint_tx(&tx, &bag), Some(2));
    assert_eq!(find_out_pos_mint_tx(&tx, &other), Some(1));
    assert_eq!(find_out_pos_mint_tx(&tx, &BagId([9; 32])), None);
}
