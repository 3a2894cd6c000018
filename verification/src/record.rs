use vstd::prelude::*;

use crate::bag_id::{bytes32_eq, BagId};

verus! {

/// Hash of a block: a 32-byte value, compared bytewise.
///
/// The tracker never computes block hashes itself; it only carries the values
/// the chain client reports and compares them for equality.
#[derive(Debug, Clone, Copy)]
pub struct BlockHash(pub [u8; 32]);

impl View for BlockHash {
    type V = Seq<u8>;

    open spec fn view(&self) -> Seq<u8> {
        self.0@
    }
}

impl BlockHash {
    /// Bytewise equality test usable from verified code.
    pub fn eq_hash(&self, other: &BlockHash) -> (r: bool)
        ensures
            r <==> self@ == other@,
    {
        bytes32_eq(&self.0, &other.0)
    }
}

/// Id of a transaction: a 32-byte double-hash, compared bytewise.
///
/// As with [`BlockHash`], the value is reported by the chain client; the
/// tracker never hashes transaction bytes itself.
#[derive(Debug, Clone, Copy)]
pub struct Txid(pub [u8; 32]);

impl View for Txid {
    type V = Seq<u8>;

    open spec fn view(&self) -> Seq<u8> {
        self.0@
    }
}

impl Txid {
    /// Bytewise equality test usable from verified code.
    pub fn eq_id(&self, other: &Txid) -> (r: bool)
        ensures
            r <==> self@ == other@,
    {
        bytes32_eq(&self.0, &other.0)
    }
}

/// Bid entry with full data: the record persisted for a confirmed bag.
#[derive(Debug, Clone, Copy)]
pub struct BidEntry {
    pub amount: u64,
    pub proof: BidProof,
}

/// Bitcoin outpoint that contains txid and output position.
#[derive(Debug, Clone, Copy)]
pub struct Outpoint {
    pub txid: Txid,
    pub out_pos: u64,
}

impl Outpoint {
    pub fn new(txid: Txid, out_pos: u64) -> (r: Self)
        ensures
            r.txid == txid,
            r.out_pos == out_pos,
    {
        Outpoint { txid, out_pos }
    }
}

/// Bid information extracted from a single transaction output by the mint
/// recognizer: the embedded bag id and the output's satoshi value.
#[derive(Debug, Clone, Copy)]
pub struct BidEntryData {
    pub bag_id: BagId,
    pub amount: u64,
}

/// Proof that contains all information needed to check existence of a bid:
/// a claim that `tx` appears in the block named by `btc_block`.
#[derive(Debug, Clone, Copy)]
pub struct BidProof {
    pub btc_block: BlockHash,
    pub tx: BidTx,
}

impl BidProof {
    pub fn new(btc_block: BlockHash, tx: BidTx) -> (r: Self)
        ensures
            r.btc_block == btc_block,
            r.tx == tx,
    {
        BidProof { btc_block, tx }
    }
}

/// The on-chain half of a bid: "this outpoint carries this bag".
#[derive(Debug, Clone, Copy)]
pub struct BidTx {
    pub outpoint: Outpoint,
    pub bag_id: BagId,
}

impl BidTx {
    pub fn new(outpoint: Outpoint, bag_id: BagId) -> (r: Self)
        ensures
            r.outpoint == outpoint,
            r.bag_id == bag_id,
    {
        BidTx { outpoint, bag_id }
    }
}

} // verus!
