use vstd::prelude::*;

use crate::bag_id::BagId;
use crate::index::{
    is_mint_out_for, mint_script, mint_script_bag, mint_script_spec, parse_mint_btc_output,
};
use crate::record::{BidTx, BlockHash, Outpoint, Txid};

verus! {

/// Error returned from the `BitcoinClient` trait: a transport or node failure.
#[derive(Debug)]
pub struct ClientError {
    pub message: String,
}

impl ClientError {
    pub fn new(message: String) -> (r: Self)
        ensures
            r.message == message,
    {
        ClientError { message }
    }
}

/// A transaction output: its satoshi value and its locking script bytes.
#[derive(Debug, Clone)]
pub struct TxOut {
    pub value: u64,
    pub script_pubkey: Vec<u8>,
}

/// A transaction as the tracker reads it: the id the chain reports for it,
/// and its outputs. The id is carried, never recomputed, so the tracker's
/// logic is independent of the hashing scheme.
#[derive(Debug, Clone)]
pub struct Tx {
    pub txid: Txid,
    pub output: Vec<TxOut>,
}

/// A block's transaction list.
#[derive(Debug, Clone)]
pub struct Block {
    pub txdata: Vec<Tx>,
}

/// What `get_blockchain_info` reports: the height and hash of the canonical tip.
#[derive(Debug, Clone, Copy)]
pub struct BlockchainInfo {
    pub blocks: u64,
    pub best_block_hash: BlockHash,
}

/// What `get_block_header_info` reports of one block. `confirmations == -1`
/// means the block is not in the main chain; `previous_block_hash` is `None`
/// only for the genesis block.
#[derive(Debug, Clone, Copy)]
pub struct BlockHeaderInfo {
    pub height: u64,
    pub confirmations: i64,
    pub previous_block_hash: Option<BlockHash>,
}

/// What `fund_raw_transaction` returns: the funded raw transaction.
#[derive(Debug, Clone)]
pub struct FundRawTransactionResult {
    pub hex: Vec<u8>,
}

/// What `sign_raw_transaction_with_wallet` returns: the signed raw
/// transaction and its decoded form.
#[derive(Debug, Clone)]
pub struct SignRawTransactionResult {
    pub hex: Vec<u8>,
    pub transaction: Tx,
}

/// The model of one block known to the chain client.
pub struct BlockView {
    pub hash: BlockHash,
    pub height: nat,
    pub prev: Option<BlockHash>,
    pub txs: Seq<Tx>,
}

/// The model of a chain client's state: the canonical chain (indexed by
/// height, genesis first) and the known blocks that are off the canonical
/// chain.
pub struct ChainView {
    pub chain: Seq<BlockView>,
    pub orphans: Seq<BlockView>,
}

/// The first block of `s` whose hash bytes are `h`.
pub open spec fn find_block(s: Seq<BlockView>, h: Seq<u8>) -> Option<BlockView>
    decreases s.len(),
{
    if s.len() == 0 {
        None
    } else if s[0].hash@ == h {
        Some(s[0])
    } else {
        find_block(s.subrange(1, s.len() as int), h)
    }
}

/// [`find_block`] finds exactly the blocks that are present.
pub proof fn lemma_find_block_index(s: Seq<BlockView>, h: Seq<u8>)
    ensures
        match find_block(s, h) {
            Some(b) => b.hash@ == h && exists|i: int| 0 <= i < s.len() && #[trigger] s[i] == b,
            None => forall|i: int| 0 <= i < s.len() ==> (#[trigger] s[i]).hash@ != h,
        },
    decreases s.len(),
{
    if s.len() > 0 && s[0].hash@ != h {
        let rest = s.subrange(1, s.len() as int);
        lemma_find_block_index(rest, h);
        match find_block(s, h) {
            Some(b) => {
                let i = choose|i: int| 0 <= i < rest.len() && #[trigger] rest[i] == b;
                assert(s[i + 1] == b);
            },
            None => {
                assert forall|i: int| 0 <= i < s.len() implies (#[trigger] s[i]).hash@ != h by {
                    if i >= 1 {
                        assert(rest[i - 1] == s[i]);
                    }
                }
            },
        }
    } else {
        if s.len() > 0 {
            assert(s[0] == s[0]);
        }
    }
}

/// With pairwise-distinct hashes, [`find_block`] returns the block at the
/// index that holds `h`.
pub proof fn lemma_find_block_at(s: Seq<BlockView>, h: Seq<u8>, i: int)
    requires
        0 <= i < s.len(),
        s[i].hash@ == h,
        forall|a: int, b: int|
            0 <= a < b < s.len() ==> (#[trigger] s[a]).hash@ != (#[trigger] s[b]).hash@,
    ensures
        find_block(s, h) == Some(s[i]),
    decreases s.len(),
{
    if i > 0 {
        assert(s[0].hash@ != h);
        let rest = s.subrange(1, s.len() as int);
        assert(rest[i - 1] == s[i]);
        assert forall|a: int, b: int| 0 <= a < b < rest.len() implies (#[trigger] rest[a]).hash@
            != (#[trigger] rest[b]).hash@ by {
            assert(rest[a] == s[a + 1] && rest[b] == s[b + 1]);
        }
        lemma_find_block_at(rest, h, i - 1);
    }
}

impl ChainView {
    /// Every block the client knows: the canonical chain, then the orphans.
    pub open spec fn all_blocks(self) -> Seq<BlockView> {
        self.chain + self.orphans
    }

    /// The known block with hash bytes `h`, canonical or not.
    pub open spec fn lookup(self, h: Seq<u8>) -> Option<BlockView> {
        find_block(self.all_blocks(), h)
    }

    /// Is `h` the hash of a block on the canonical chain?
    pub open spec fn in_main(self, h: Seq<u8>) -> bool {
        exists|i: int| 0 <= i < self.chain.len() && (#[trigger] self.chain[i]).hash@ == h
    }

    /// Height of the canonical tip.
    pub open spec fn tip_height(self) -> int {
        self.chain.len() - 1
    }

    /// Consistency of the client's report: the canonical chain starts at a
    /// genesis block and is linked by `prev`; hashes are unique; every
    /// off-chain block has a known parent one height below it.
    pub open spec fn wf(self) -> bool {
        &&& self.chain.len() >= 1
        &&& forall|i: int| 0 <= i < self.chain.len() ==> (#[trigger] self.chain[i]).height == i
        &&& self.chain[0].prev is None
        &&& forall|i: int|
            1 <= i < self.chain.len() ==> ((#[trigger] self.chain[i]).prev matches Some(p) && p@
                == self.chain[i - 1].hash@)
        &&& forall|a: int, b: int|
            0 <= a < b < self.all_blocks().len() ==> (#[trigger] self.all_blocks()[a]).hash@ != (
            #[trigger] self.all_blocks()[b]).hash@
        &&& forall|j: int|
            0 <= j < self.orphans.len() ==> ((#[trigger] self.orphans[j]).height >= 1
                && (self.orphans[j].prev matches Some(p) && (self.lookup(p@) matches Some(pb)
                && pb.height == self.orphans[j].height - 1)))
    }
}

/// On a well-formed view, a canonical hash is found by [`ChainView::lookup`],
/// at its height.
pub proof fn lemma_lookup_main(v: ChainView, h: Seq<u8>)
    requires
        v.wf(),
        v.in_main(h),
    ensures
        v.lookup(h) matches Some(b) && (b.hash@ == h && 0 <= b.height < v.chain.len()
            && v.chain[b.height as int] == b),
{
    let i = choose|i: int| 0 <= i < v.chain.len() && (#[trigger] v.chain[i]).hash@ == h;
    assert(v.all_blocks()[i] == v.chain[i]);
    lemma_find_block_at(v.all_blocks(), h, i);
}

/// On a well-formed view, the block at height `i` of the canonical chain is
/// found by [`ChainView::lookup`].
pub proof fn lemma_lookup_at_height(v: ChainView, i: int)
    requires
        v.wf(),
        0 <= i < v.chain.len(),
    ensures
        v.lookup(v.chain[i].hash@) == Some(v.chain[i]),
        v.in_main(v.chain[i].hash@),
{
    assert(v.all_blocks()[i] == v.chain[i]);
    lemma_find_block_at(v.all_blocks(), v.chain[i].hash@, i);
}

/// On a well-formed view, a known block that is not canonical sits above a
/// known parent one height below it.
pub proof fn lemma_lookup_not_main(v: ChainView, h: Seq<u8>)
    requires
        v.wf(),
        v.lookup(h) is Some,
        !v.in_main(h),
    ensures
        v.lookup(h) matches Some(b) && (b.hash@ == h && b.height >= 1 && (b.prev matches Some(p)
            && (v.lookup(p@) matches Some(pb) && pb.height == b.height - 1))),
{
    lemma_find_block_index(v.all_blocks(), h);
    let b = v.lookup(h)->Some_0;
    let i = choose|i: int| 0 <= i < v.all_blocks().len() && #[trigger] v.all_blocks()[i] == b;
    if i < v.chain.len() {
        assert(v.chain[i] == v.all_blocks()[i]);
        assert(false);
    } else {
        let j = i - v.chain.len();
        assert(v.orphans[j] == v.all_blocks()[i]);
    }
}

/// The minimum capability set the tracker requires from a Bitcoin-like node.
///
/// The model of a client is [`BitcoinClient::chain_view`]: what the node
/// would currently report of the chain. Read operations are related to that
/// view; any of them may instead fail with a transport [`ClientError`]. The
/// wallet operations (`fund`/`sign`/`send`) are decided by the node and
/// carry no promise.
pub trait BitcoinClient: Sized {
    /// The chain as this client currently reports it.
    spec fn chain_view(&self) -> ChainView;

    /// Height and hash of the canonical tip.
    fn get_blockchain_info(&self) -> (r: Result<BlockchainInfo, ClientError>)
        requires
            self.chain_view().wf(),
        ensures
            r matches Ok(info) ==> info.blocks as int == self.chain_view().tip_height()
                && info.best_block_hash == self.chain_view().chain.last().hash,
    ;

    /// Hash of the canonical block at `height`; fails when `height` exceeds
    /// the tip.
    fn get_block_hash(&self, height: u64) -> (r: Result<BlockHash, ClientError>)
        requires
            self.chain_view().wf(),
        ensures
            r matches Ok(h) ==> height < self.chain_view().chain.len() && h
                == self.chain_view().chain[height as int].hash,
    ;

    /// Header data of the known block named by `hash`; fails when the block
    /// is unknown.
    fn get_block_header_info(&self, hash: &BlockHash) -> (r: Result<BlockHeaderInfo, ClientError>)
        requires
            self.chain_view().wf(),
        ensures
            r matches Ok(hdr) ==> self.chain_view().lookup(hash@) matches Some(b) && ({
                &&& hdr.height as nat == b.height
                &&& hdr.previous_block_hash == b.prev
                &&& (hdr.confirmations != -1 <==> self.chain_view().in_main(hash@))
            }),
    ;

    /// Contents of the known block named by `hash`, or `None` when the node
    /// does not know the block.
    fn get_block(&self, hash: &BlockHash) -> (r: Result<Option<&Block>, ClientError>)
        requires
            self.chain_view().wf(),
        ensures
            r matches Ok(ob) ==> match ob {
                Some(blk) => self.chain_view().lookup(hash@) matches Some(b) && blk.txdata@
                    == b.txs,
                None => self.chain_view().lookup(hash@) is None,
            },
    ;

    /// Ask the node's wallet to fund the raw transaction `tx`.
    fn fund_raw_transaction(&self, tx: &Vec<u8>) -> (r: Result<
        FundRawTransactionResult,
        ClientError,
    >);

    /// Ask the node's wallet to sign the raw transaction `tx`.
    fn sign_raw_transaction_with_wallet(&self, tx: &Vec<u8>) -> (r: Result<
        SignRawTransactionResult,
        ClientError,
    >);

    /// Broadcast the raw transaction `tx`; the node reports its id.
    fn send_raw_transaction(&self, tx: &Vec<u8>) -> (r: Result<Txid, ClientError>);
}

/// The little-endian bytes of a 64-bit satoshi amount.
pub open spec fn u64_le_bytes(v: u64) -> Seq<u8> {
    seq![
        (v & 0xff) as u8,
        ((v >> 8) & 0xff) as u8,
        ((v >> 16) & 0xff) as u8,
        ((v >> 24) & 0xff) as u8,
        ((v >> 32) & 0xff) as u8,
        ((v >> 40) & 0xff) as u8,
        ((v >> 48) & 0xff) as u8,
        ((v >> 56) & 0xff) as u8,
    ]
}

/// The consensus encoding of the unfunded mint transaction: version 2, then
/// the input count 0 written directly in the input-list-length form (which
/// stays parseable with zero inputs), then one output of `satoshies` locked
/// by the canonical mint script, then lock time 0.
pub open spec fn mint_tx_encoding(satoshies: u64, bag: Seq<u8>) -> Seq<u8> {
    seq![2u8, 0u8, 0u8, 0u8] + seq![0u8] + seq![1u8] + u64_le_bytes(satoshies) + seq![34u8]
        + mint_script_spec(bag) + seq![0u8, 0u8, 0u8, 0u8]
}

/// Write `v` to `out` as eight little-endian bytes.
fn push_u64_le(out: &mut Vec<u8>, v: u64)
    ensures
        final(out)@ == old(out)@ + u64_le_bytes(v),
{
    let ghost len0 = out@.len();
    assert((v & 0xff) < 256 && ((v >> 8) & 0xff) < 256 && ((v >> 16) & 0xff) < 256 && ((v >> 24)
        & 0xff) < 256 && ((v >> 32) & 0xff) < 256 && ((v >> 40) & 0xff) < 256 && ((v >> 48) & 0xff)
        < 256 && ((v >> 56) & 0xff) < 256) by (bit_vector);
    out.push((v & 0xff) as u8);
    out.push(((v >> 8) & 0xff) as u8);
    out.push(((v >> 16) & 0xff) as u8);
    out.push(((v >> 24) & 0xff) as u8);
    out.push(((v >> 32) & 0xff) as u8);
    out.push(((v >> 40) & 0xff) as u8);
    out.push(((v >> 48) & 0xff) as u8);
    out.push(((v >> 56) & 0xff) as u8);
    proof {
        assert(out@ =~= old(out)@ + u64_le_bytes(v));
    }
}

/// Serialize the unfunded mint transaction carrying `bag_id` with value
/// `satoshies`, byte for byte as [`mint_tx_encoding`] lays it out.
pub fn consensus_encode_tx(satoshies: u64, bag_id: &BagId) -> (r: Vec<u8>)
    ensures
        r@ == mint_tx_encoding(satoshies, bag_id@),
{
    let mut out: Vec<u8> = Vec::new();
    out.push(2u8);
    out.push(0u8);
    out.push(0u8);
    out.push(0u8);
    out.push(0u8);
    out.push(1u8);
    push_u64_le(&mut out, satoshies);
    out.push(34u8);
    let mut script = crate::index::mint_script(bag_id);
    out.append(&mut script);
    out.push(0u8);
    out.push(0u8);
    out.push(0u8);
    out.push(0u8);
    proof {
        assert(out@ =~= mint_tx_encoding(satoshies, bag_id@));
    }
    out
}

/// The position of the output of `tx` that locks exactly `bag`: the node
/// does not guarantee output order after funding, so the signed transaction
/// is searched for the first mint output carrying this bag.
pub fn find_out_pos_mint_tx(tx: &Tx, bag: &BagId) -> (r: Option<u64>)
    ensures
        match r {
            Some(i) => i < tx.output@.len() && is_mint_out_for(tx.output@[i as int], bag@) && (
            forall|j: int| 0 <= j < i ==> !is_mint_out_for(#[trigger] tx.output@[j], bag@)),
            None => forall|j: int|
                0 <= j < tx.output@.len() ==> !is_mint_out_for(#[trigger] tx.output@[j], bag@),
        },
{
    let n = tx.output.len();
    let mut i: usize = 0;
    while i < n
        invariant
            i <= n,
            n == tx.output@.len(),
            forall|j: int| 0 <= j < i ==> !is_mint_out_for(#[trigger] tx.output@[j], bag@),
        decreases n - i,
    {
        match parse_mint_btc_output(&tx.output[i]) {
            Some(d) => {
                if d.bag_id.eq_id(bag) {
                    return Some(i as u64);
                }
            },
            None => {},
        }
        i = i + 1;
    }
    None
}

/// Extensions for the mint processing.
pub trait BitcoinMintExt: BitcoinClient {
    /// Construct a bag-bearing transaction of `satoshies` for `bag_id`,
    /// have the node fund, sign and broadcast it, and locate the bag output
    /// in the signed result; the node may have moved the output while
    /// funding, so its position is recovered by scanning. Fails when the
    /// node fails, or when the signed transaction carries no output for the
    /// bag.
    fn send_mint_transaction(&self, satoshies: u64, bag_id: &BagId) -> (r: Result<
        BidTx,
        ClientError,
    >)
        ensures
            r matches Ok(bid) ==> bid.bag_id == *bag_id,
    {
        let bytes = consensus_encode_tx(satoshies, bag_id);
        let funded = match self.fund_raw_transaction(&bytes) {
            Ok(f) => f,
            Err(e) => {
                return Err(e);
            },
        };
        let signed = match self.sign_raw_transaction_with_wallet(&funded.hex) {
            Ok(s) => s,
            Err(e) => {
                return Err(e);
            },
        };
        let txid = match self.send_raw_transaction(&signed.hex) {
            Ok(t) => t,
            Err(e) => {
                return Err(e);
            },
        };
        let out_pos = match find_out_pos_mint_tx(&signed.transaction, bag_id) {
            Some(p) => p,
            None => {
                return Err(
                    ClientError::new(
                        "signed transaction carries no output for the bag".to_owned(),
                    ),
                );
            },
        };
        Ok(BidTx::new(Outpoint::new(txid, out_pos), *bag_id))
    }
}

impl<T: BitcoinClient> BitcoinMintExt for T {

}

} // verus!
