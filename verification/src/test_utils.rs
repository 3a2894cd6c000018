use vstd::prelude::*;

use crate::bag_id::BagId;
use crate::bitcoin_client::{
    lemma_find_block_at, lemma_find_block_index, BitcoinClient, Block, BlockHeaderInfo,
    BlockView, BlockchainInfo, ChainView, ClientError, FundRawTransactionResult,
    SignRawTransactionResult, Tx, TxOut,
};
use crate::index::mint_script;
use crate::record::{BidProof, BidTx, BlockHash, Outpoint, Txid};

verus! {

/// One block of the fake chain: enough data to serve every read operation
/// of [`BitcoinClient`].
#[derive(Debug)]
pub struct TestBlock {
    pub height: u64,
    pub block_hash: BlockHash,
    pub prev: Option<BlockHash>,
    pub block: Block,
}

impl View for TestBlock {
    type V = BlockView;

    open spec fn view(&self) -> BlockView {
        BlockView {
            hash: self.block_hash,
            height: self.height as nat,
            prev: self.prev,
            txs: self.block.txdata@,
        }
    }
}

/// A deterministic in-memory chain client for exercising the tracker: the
/// canonical chain (genesis first), the blocks orphaned by past
/// reorganizations, and canned responses for the wallet operations.
pub struct TestBitcoinClient {
    pub chain: Vec<TestBlock>,
    pub orphans: Vec<TestBlock>,
    pub funded_response: Option<FundRawTransactionResult>,
    pub signed_response: Option<SignRawTransactionResult>,
    pub send_response: Option<Txid>,
}

/// The index of the block of `blocks` whose hash bytes equal `hash`.
fn find_test_block(blocks: &Vec<TestBlock>, hash: &BlockHash) -> (r: Option<usize>)
    ensures
        match r {
            Some(i) => i < blocks@.len() && blocks@[i as int].block_hash@ == hash@,
            None => forall|i: int|
                0 <= i < blocks@.len() ==> (#[trigger] blocks@[i]).block_hash@ != hash@,
        },
{
    let n = blocks.len();
    let mut i: usize = 0;
    while i < n
        invariant
            i <= n,
            n == blocks@.len(),
            forall|j: int| 0 <= j < i ==> (#[trigger] blocks@[j]).block_hash@ != hash@,
        decreases n - i,
    {
        if blocks[i].block_hash.eq_hash(hash) {
            return Some(i);
        }
        i = i + 1;
    }
    None
}

impl TestBitcoinClient {
    /// A fresh fake chain holding only `genesis`, with no canned wallet
    /// responses.
    pub fn new(genesis: TestBlock) -> (r: Self)
        requires
            genesis.height == 0,
            genesis.prev is None,
        ensures
            r.chain_view().chain == seq![genesis@],
            r.chain_view().orphans == Seq::<BlockView>::empty(),
            r.chain_view().wf(),
    {
        let mut chain: Vec<TestBlock> = Vec::new();
        chain.push(genesis);
        let r = TestBitcoinClient {
            chain,
            orphans: Vec::new(),
            funded_response: None,
            signed_response: None,
            send_response: None,
        };
        proof {
            assert(r.chain_view().chain =~= seq![genesis@]);
            assert(r.chain_view().orphans =~= Seq::<BlockView>::empty());
            assert(r.chain_view().all_blocks() =~= seq![genesis@]);
        }
        r
    }

    /// Append a block to the canonical chain: its height must be the next
    /// one, its parent the current tip, and its hash fresh.
    pub fn push_main(&mut self, b: TestBlock)
        requires
            old(self).chain_view().wf(),
            b.height == old(self).chain_view().chain.len(),
            b.prev matches Some(p) && p@ == old(self).chain_view().chain.last().hash@,
            forall|i: int|
                0 <= i < old(self).chain_view().all_blocks().len() ==> (#[trigger] old(
                    self,
                ).chain_view().all_blocks()[i]).hash@ != b.block_hash@,
        ensures
            final(self).chain_view().chain == old(self).chain_view().chain.push(b@),
            final(self).chain_view().orphans == old(self).chain_view().orphans,
            final(self).chain_view().wf(),
            final(self).funded_response == old(self).funded_response,
            final(self).signed_response == old(self).signed_response,
            final(self).send_response == old(self).send_response,
    {
        let ghost v = self.chain_view();
        let ghost bv = b@;
        self.chain.push(b);
        proof {
            assert(self.chain_view().chain =~= v.chain.push(bv));
            assert(self.chain_view().orphans =~= v.orphans);
            lemma_wf_push_main(v, bv);
        }
    }

    /// Move the canonical tip to the orphan set, shortening the chain by
    /// one; the genesis block can never be orphaned.
    pub fn orphan_tip(&mut self)
        requires
            old(self).chain_view().wf(),
            old(self).chain_view().chain.len() >= 2,
        ensures
            final(self).chain_view().chain == old(self).chain_view().chain.drop_last(),
            final(self).chain_view().orphans == old(self).chain_view().orphans.push(
                old(self).chain_view().chain.last(),
            ),
            final(self).chain_view().wf(),
            final(self).funded_response == old(self).funded_response,
            final(self).signed_response == old(self).signed_response,
            final(self).send_response == old(self).send_response,
    {
        let ghost v = self.chain_view();
        let tip = match self.chain.pop() {
            Some(t) => t,
            None => {
                proof {
                    assert(false);
                }
                return ;
            },
        };
        self.orphans.push(tip);
        proof {
            assert(self.chain_view().chain =~= v.chain.drop_last());
            assert(self.chain_view().orphans =~= v.orphans.push(v.chain.last()));
            lemma_wf_orphan_tip(v);
        }
    }
}

/// Appending a fresh, correctly linked block to the canonical chain keeps
/// the client's report well-formed.
proof fn lemma_wf_push_main(v: ChainView, b: BlockView)
    requires
        v.wf(),
        b.height == v.chain.len(),
        b.prev matches Some(p) && p@ == v.chain.last().hash@,
        forall|i: int|
            0 <= i < v.all_blocks().len() ==> (#[trigger] v.all_blocks()[i]).hash@ != b.hash@,
    ensures
        (ChainView { chain: v.chain.push(b), orphans: v.orphans }).wf(),
{
    let v2 = ChainView { chain: v.chain.push(b), orphans: v.orphans };
    let n = v.chain.len() as int;
    assert forall|i: int| 0 <= i < v2.all_blocks().len() implies #[trigger] v2.all_blocks()[i]
        == (if i < n {
        v.all_blocks()[i]
    } else if i == n {
        b
    } else {
        v.all_blocks()[i - 1]
    }) by {
        if i < n {
            assert(v2.all_blocks()[i] == v2.chain[i]);
            assert(v.all_blocks()[i] == v.chain[i]);
        } else if i == n {
            assert(v2.all_blocks()[i] == v2.chain[i]);
        } else {
            assert(v2.all_blocks()[i] == v2.orphans[i - n - 1]);
            assert(v.all_blocks()[i - 1] == v.orphans[i - 1 - n]);
        }
    }
    assert forall|a: int, c: int| 0 <= a < c < v2.all_blocks().len() implies (
    #[trigger] v2.all_blocks()[a]).hash@ != (#[trigger] v2.all_blocks()[c]).hash@ by {
        let a0 = if a < n {
            a
        } else {
            a - 1
        };
        let c0 = if c < n {
            c
        } else {
            c - 1
        };
        if a == n {
            assert(v2.all_blocks()[a] == b && v2.all_blocks()[c] == v.all_blocks()[c0]);
        } else if c == n {
            assert(v2.all_blocks()[c] == b && v2.all_blocks()[a] == v.all_blocks()[a0]);
        } else {
            assert(v2.all_blocks()[a] == v.all_blocks()[a0] && v2.all_blocks()[c]
                == v.all_blocks()[c0]);
        }
    }
    assert forall|i: int| 0 <= i < v2.chain.len() implies (#[trigger] v2.chain[i]).height == i by {
        if i < n {
            assert(v2.chain[i] == v.chain[i]);
        }
    }
    assert(v2.chain[0] == v.chain[0]);
    assert forall|i: int| 1 <= i < v2.chain.len() implies ((#[trigger] v2.chain[i]).prev matches
        Some(p) && p@ == v2.chain[i - 1].hash@) by {
        if i < n {
            assert(v2.chain[i] == v.chain[i] && v2.chain[i - 1] == v.chain[i - 1]);
        } else {
            assert(v2.chain[i] == b && v2.chain[i - 1] == v.chain[n - 1]);
            assert(v.chain.last() == v.chain[n - 1]);
        }
    }
    assert forall|j: int| 0 <= j < v2.orphans.len() implies ((#[trigger] v2.orphans[j]).height
        >= 1 && (v2.orphans[j].prev matches Some(p) && (v2.lookup(p@) matches Some(pb)
        && pb.height == v2.orphans[j].height - 1))) by {
        assert(v.orphans[j] == v2.orphans[j]);
        let p = v.orphans[j].prev->0;
        assert(v.lookup(p@) is Some);
        lemma_find_block_index(v.all_blocks(), p@);
        let pb = v.lookup(p@)->Some_0;
        let i = choose|i: int| 0 <= i < v.all_blocks().len() && #[trigger] v.all_blocks()[i] == pb;
        let i2 = if i < n {
            i
        } else {
            i + 1
        };
        assert(v2.all_blocks()[i2] == pb);
        lemma_find_block_at(v2.all_blocks(), p@, i2);
    }
}

/// Moving the canonical tip to the orphan set keeps the client's report
/// well-formed.
proof fn lemma_wf_orphan_tip(v: ChainView)
    requires
        v.wf(),
        v.chain.len() >= 2,
    ensures
        (ChainView {
            chain: v.chain.drop_last(),
            orphans: v.orphans.push(v.chain.last()),
        }).wf(),
{
    let v2 = ChainView { chain: v.chain.drop_last(), orphans: v.orphans.push(v.chain.last()) };
    let n = v.chain.len() as int;
    let m = v.orphans.len() as int;
    assert forall|i: int| 0 <= i < v2.all_blocks().len() implies #[trigger] v2.all_blocks()[i]
        == (if i < n - 1 {
        v.all_blocks()[i]
    } else if i < n - 1 + m {
        v.all_blocks()[i + 1]
    } else {
        v.chain[n - 1]
    }) by {
        if i < n - 1 {
            assert(v2.all_blocks()[i] == v2.chain[i]);
            assert(v.all_blocks()[i] == v.chain[i]);
        } else if i < n - 1 + m {
            assert(v2.all_blocks()[i] == v2.orphans[i - (n - 1)]);
            assert(v.all_blocks()[i + 1] == v.orphans[i + 1 - n]);
        } else {
            assert(v2.all_blocks()[i] == v2.orphans[m]);
            assert(v2.orphans[m] == v.chain[n - 1]);
        }
    }
    assert forall|a: int, c: int| 0 <= a < c < v2.all_blocks().len() implies (
    #[trigger] v2.all_blocks()[a]).hash@ != (#[trigger] v2.all_blocks()[c]).hash@ by {
        let a0 = if a < n - 1 {
            a
        } else if a < n - 1 + m {
            a + 1
        } else {
            n - 1
        };
        let c0 = if c < n - 1 {
            c
        } else if c < n - 1 + m {
            c + 1
        } else {
            n - 1
        };
        assert(v2.all_blocks()[a] == v.all_blocks()[a0]);
        assert(v2.all_blocks()[c] == v.all_blocks()[c0]);
        assert(a0 != c0);
    }
    assert forall|i: int| 0 <= i < v2.chain.len() implies (#[trigger] v2.chain[i]).height == i by {
        assert(v2.chain[i] == v.chain[i]);
    }
    assert(v2.chain[0] == v.chain[0]);
    assert forall|i: int| 1 <= i < v2.chain.len() implies ((#[trigger] v2.chain[i]).prev matches
        Some(p) && p@ == v2.chain[i - 1].hash@) by {
        assert(v2.chain[i] == v.chain[i] && v2.chain[i - 1] == v.chain[i - 1]);
    }
    assert forall|j: int| 0 <= j < v2.orphans.len() implies ((#[trigger] v2.orphans[j]).height
        >= 1 && (v2.orphans[j].prev matches Some(p) && (v2.lookup(p@) matches Some(pb)
        && pb.height == v2.orphans[j].height - 1))) by {
        if j < m {
            assert(v2.orphans[j] == v.orphans[j]);
            let p = v.orphans[j].prev->0;
            assert(v.lookup(p@) is Some);
            lemma_find_block_index(v.all_blocks(), p@);
            let pb = v.lookup(p@)->Some_0;
            let i = choose|i: int|
                0 <= i < v.all_blocks().len() && #[trigger] v.all_blocks()[i] == pb;
            if pb.hash@ == v.chain[n - 1].hash@ && i != n - 1 {
                assert(v.all_blocks()[n - 1] == v.chain[n - 1]);
                assert((v.all_blocks()[i]).hash@ == (v.all_blocks()[n - 1]).hash@);
                assert(false);
            }
            let i2 = if i < n - 1 {
                i
            } else if i == n - 1 {
                n - 1 + m
            } else {
                i - 1
            };
            assert(v2.all_blocks()[i2] == pb);
            lemma_find_block_at(v2.all_blocks(), p@, i2);
        } else {
            assert(v2.orphans[j] == v.chain[n - 1]);
            assert(v.chain[n - 1].height == n - 1);
            let p = v.chain[n - 1].prev->0;
            assert(p@ == v.chain[n - 2].hash@);
            assert(v2.all_blocks()[n - 2] == v.chain[n - 2]);
            lemma_find_block_at(v2.all_blocks(), p@, n - 2);
        }
    }
}

impl BitcoinClient for TestBitcoinClient {
    open spec fn chain_view(&self) -> ChainView {
        ChainView {
            chain: self.chain@.map_values(|tb: TestBlock| tb@),
            orphans: self.orphans@.map_values(|tb: TestBlock| tb@),
        }
    }

    fn get_blockchain_info(&self) -> (r: Result<BlockchainInfo, ClientError>) {
        let n = self.chain.len();
        proof {
            assert(self.chain_view().chain.len() == n);
        }
        let last = &self.chain[n - 1];
        Ok(BlockchainInfo { blocks: last.height, best_block_hash: last.block_hash })
    }

    fn get_block_hash(&self, height: u64) -> (r: Result<BlockHash, ClientError>) {
        if height < self.chain.len() as u64 {
            Ok(self.chain[height as usize].block_hash)
        } else {
            Err(ClientError::new(String::new()))
        }
    }

    fn get_block_header_info(&self, hash: &BlockHash) -> (r: Result<
        BlockHeaderInfo,
        ClientError,
    >) {
        let ghost v = self.chain_view();
        match find_test_block(&self.chain, hash) {
            Some(i) => {
                let tb = &self.chain[i];
                proof {
                    assert(v.all_blocks()[i as int] == v.chain[i as int]);
                    lemma_find_block_at(v.all_blocks(), hash@, i as int);
                    assert(v.chain[i as int].hash@ == hash@);
                }
                Ok(
                    BlockHeaderInfo {
                        height: tb.height,
                        confirmations: 1,
                        previous_block_hash: tb.prev,
                    },
                )
            },
            None => {
                match find_test_block(&self.orphans, hash) {
                    Some(j) => {
                        let tb = &self.orphans[j];
                        proof {
                            let i2 = v.chain.len() as int + j as int;
                            assert(v.all_blocks()[i2] == v.orphans[j as int]);
                            lemma_find_block_at(v.all_blocks(), hash@, i2);
                            assert forall|i: int| 0 <= i < v.chain.len() implies (
                            #[trigger] v.chain[i]).hash@ != hash@ by {
                                assert(v.chain[i] == self.chain@[i]@);
                            }
                        }
                        Ok(
                            BlockHeaderInfo {
                                height: tb.height,
                                confirmations: -1,
                                previous_block_hash: tb.prev,
                            },
                        )
                    },
                    None => Err(ClientError::new(String::new())),
                }
            },
        }
    }

    fn get_block(&self, hash: &BlockHash) -> (r: Result<Option<&Block>, ClientError>) {
        let ghost v = self.chain_view();
        match find_test_block(&self.chain, hash) {
            Some(i) => {
                proof {
                    assert(v.all_blocks()[i as int] == v.chain[i as int]);
                    lemma_find_block_at(v.all_blocks(), hash@, i as int);
                }
                Ok(Some(&self.chain[i].block))
            },
            None => {
                match find_test_block(&self.orphans, hash) {
                    Some(j) => {
                        proof {
                            let i2 = v.chain.len() as int + j as int;
                            assert(v.all_blocks()[i2] == v.orphans[j as int]);
                            lemma_find_block_at(v.all_blocks(), hash@, i2);
                        }
                        Ok(Some(&self.orphans[j].block))
                    },
                    None => {
                        proof {
                            lemma_find_block_index(v.all_blocks(), hash@);
                            if v.lookup(hash@) is Some {
                                let i = choose|i: int|
                                    0 <= i < v.all_blocks().len() && #[trigger] v.all_blocks()[i]
                                        == v.lookup(hash@)->Some_0;
                                if i < v.chain.len() {
                                    assert(v.chain[i] == self.chain@[i]@);
                                } else {
                                    let j = i - v.chain.len();
                                    assert(v.orphans[j] == self.orphans@[j]@);
                                }
                            }
                        }
                        Ok(None)
                    },
                }
            },
        }
    }

    fn fund_raw_transaction(&self, tx: &Vec<u8>) -> (r: Result<
        FundRawTransactionResult,
        ClientError,
    >) {
        match &self.funded_response {
            Some(f) => Ok(f.clone()),
            None => Err(ClientError::new(String::new())),
        }
    }

    fn sign_raw_transaction_with_wallet(&self, tx: &Vec<u8>) -> (r: Result<
        SignRawTransactionResult,
        ClientError,
    >) {
        match &self.signed_response {
            Some(s) => Ok(s.clone()),
            None => Err(ClientError::new(String::new())),
        }
    }

    fn send_raw_transaction(&self, tx: &Vec<u8>) -> (r: Result<Txid, ClientError>) {
        match &self.send_response {
            Some(t) => Ok(*t),
            None => Err(ClientError::new(String::new())),
        }
    }
}

/// Thirty-two copies of one byte: the shape of the fake chain's hashes.
pub open spec fn repeat32(b: u8) -> Seq<u8> {
    Seq::new(32, |i: int| b)
}

/// A block of the fake chain with no transactions; its hash is the byte
/// `data` repeated.
pub fn create_test_block(height: u64, data: u8, prev: Option<BlockHash>) -> (r: TestBlock)
    ensures
        r.height == height,
        r.block_hash@ == repeat32(data),
        r.prev == prev,
        r@.txs.len() == 0,
{
    let r = TestBlock {
        height,
        block_hash: BlockHash([data; 32]),
        prev,
        block: Block { txdata: Vec::new() },
    };
    proof {
        assert(r.block_hash@ =~= repeat32(data));
    }
    r
}

/// A transaction whose only output is a mint output of value 10 carrying
/// the bag `tx_data`; its reported id is the same 32 bytes. Returns the
/// transaction and the bid that commits the bag to its first output.
pub fn create_test_mint_transaction(tx_data: [u8; 32]) -> (r: (Tx, BidTx))
    ensures
        r.0.txid@ == tx_data@,
        r.0.output@.len() == 1,
        crate::index::mint_script_bag(r.0.output@[0].script_pubkey@) == Some(tx_data@),
        r.0.output@[0].value == 10,
        r.1.outpoint.txid@ == tx_data@,
        r.1.outpoint.out_pos == 0,
        r.1.bag_id@ == tx_data@,
{
    let bag = BagId(tx_data);
    let script = mint_script(&bag);
    let tx = Tx { txid: Txid(tx_data), output: vec![TxOut { value: 10, script_pubkey: script }] };
    let bid_tx = BidTx::new(Outpoint::new(Txid(tx_data), 0), bag);
    (tx, bid_tx)
}

/// A block holding one mint transaction carrying the bag `tx_data`, and the
/// proof an operator would submit for it.
pub fn create_test_block_with_mint_tx(
    height: u64,
    data: u8,
    prev: Option<BlockHash>,
    tx_data: [u8; 32],
) -> (r: (TestBlock, BidProof))
    ensures
        r.0.height == height,
        r.0.block_hash@ == repeat32(data),
        r.0.prev == prev,
        r.0@.txs.len() == 1,
        r.1.btc_block == r.0.block_hash,
        r.1.tx.bag_id@ == tx_data@,
        r.1.tx.outpoint.txid@ == tx_data@,
        r.1.tx.outpoint.out_pos == 0,
{
    let (tx, bid_tx) = create_test_mint_transaction(tx_data);
    let block = TestBlock {
        height,
        block_hash: BlockHash([data; 32]),
        prev,
        block: Block { txdata: vec![tx] },
    };
    proof {
        assert(block.block_hash@ =~= repeat32(data));
    }
    let prf = BidProof::new(block.block_hash, bid_tx);
    (block, prf)
}

} // verus!
