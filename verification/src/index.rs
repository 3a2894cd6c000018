use vstd::prelude::*;

use crate::bag_id::BagId;
use crate::bitcoin_client::{BitcoinClient, Block, ChainView, ClientError, Tx, TxOut};
use crate::record::{BidEntry, BidEntryData, BidProof, BlockHash, Txid};
use crate::storage::{
    demote_confirmations, seq_has_hash, table_bags_ok, BagState, BidStorage, BidStorageError,
};

verus! {

/// The mint output codec, read side: a locking script carries a bag when it
/// is the 34-byte native SegWit v0 witness-script-hash push
/// `OP_0 (0x00) || 0x20 || <32 bytes bag id>`; the embedded bag is then the
/// trailing 32 bytes.
pub open spec fn mint_script_bag(s: Seq<u8>) -> Option<Seq<u8>> {
    if s.len() == 34 && s[0] == 0u8 && s[1] == 32u8 {
        Some(s.subrange(2, 34))
    } else {
        None
    }
}

/// The mint output codec, write side: the canonical script embedding `bag`.
pub open spec fn mint_script_spec(bag: Seq<u8>) -> Seq<u8> {
    seq![0u8, 32u8] + bag
}

/// Does this output lock exactly the bag with bytes `bag`?
pub open spec fn is_mint_out_for(o: TxOut, bag: Seq<u8>) -> bool {
    mint_script_bag(o.script_pubkey@) == Some(bag)
}

/// Construct the canonical v0-P2WSH locking script embedding `bag_id`.
pub fn mint_script(bag_id: &BagId) -> (r: Vec<u8>)
    ensures
        r@ == mint_script_spec(bag_id@),
        mint_script_bag(r@) == Some(bag_id@),
{
    let mut s: Vec<u8> = Vec::new();
    s.push(0u8);
    s.push(32u8);
    let mut i: usize = 0;
    while i < 32
        invariant
            i <= 32,
            s@.len() == i + 2,
            s@[0] == 0u8,
            s@[1] == 32u8,
            forall|j: int| 0 <= j < i ==> s@[j + 2] == bag_id@[j],
        decreases 32 - i,
    {
        s.push(bag_id.0[i]);
        i = i + 1;
    }
    proof {
        assert(s@ =~= mint_script_spec(bag_id@));
        lemma_mint_script_roundtrip(bag_id@);
    }
    s
}

/// Mint codec round-trip: recognizing the canonical script written for any
/// 32-byte bag recovers exactly that bag.
pub proof fn lemma_mint_script_roundtrip(bag: Seq<u8>)
    requires
        bag.len() == 32,
    ensures
        mint_script_bag(mint_script_spec(bag)) == Some(bag),
{
    let s = mint_script_spec(bag);
    assert(s.len() == 34);
    assert(s[0] == 0u8 && s[1] == 32u8);
    assert(s.subrange(2, 34) =~= bag);
}

/// Mint codec rejection: a script of the wrong length, or with either prefix
/// byte off the canonical form, carries no bag.
pub proof fn lemma_mint_script_rejects(s: Seq<u8>)
    requires
        s.len() != 34 || s[0] != 0u8 || s[1] != 32u8,
    ensures
        mint_script_bag(s) is None,
{
}

/// Apply the mint recognizer to one transaction output: its bag id and
/// satoshi value when the script is mint-shaped, `None` otherwise.
pub fn parse_mint_btc_output(out: &TxOut) -> (r: Option<BidEntryData>)
    ensures
        match r {
            Some(d) => mint_script_bag(out.script_pubkey@) == Some(d.bag_id@) && d.amount
                == out.value && is_mint_out_for(*out, d.bag_id@),
            None => mint_script_bag(out.script_pubkey@) is None,
        },
{
    let s = &out.script_pubkey;
    if s.len() != 34 {
        return None;
    }
    if s[0] != 0u8 || s[1] != 32u8 {
        return None;
    }
    let mut bag: [u8; 32] = [0u8; 32];
    let mut i: usize = 0;
    while i < 32
        invariant
            i <= 32,
            s@.len() == 34,
            forall|j: int| 0 <= j < i ==> bag@[j] == s@[j + 2],
        decreases 32 - i,
    {
        bag[i] = s[i + 2];
        i = i + 1;
    }
    proof {
        assert(bag@ =~= s@.subrange(2, 34));
    }
    Some(BidEntryData { bag_id: BagId(bag), amount: out.value })
}

/// The output position and recognizer result at `out_pos` of `tx`: `None`
/// when the position is out of range or the output is not mint-shaped.
pub fn parse_mint_transaction_btc_block(tx: &Tx, out_pos: u64) -> (r: Option<BidEntryData>)
    ensures
        match r {
            Some(d) => out_pos < tx.output@.len() && mint_script_bag(
                tx.output@[out_pos as int].script_pubkey@,
            ) == Some(d.bag_id@) && d.amount == tx.output@[out_pos as int].value,
            None => out_pos >= tx.output@.len() || mint_script_bag(
                tx.output@[out_pos as int].script_pubkey@,
            ) is None,
        },
{
    if out_pos >= tx.output.len() as u64 {
        return None;
    }
    let out = &tx.output[out_pos as usize];
    parse_mint_btc_output(out)
}

/// The first transaction of `txs` whose id has bytes `txid`.
pub open spec fn find_tx_spec(txs: Seq<Tx>, txid: Seq<u8>) -> Option<Tx>
    decreases txs.len(),
{
    if txs.len() == 0 {
        None
    } else if txs[0].txid@ == txid {
        Some(txs[0])
    } else {
        find_tx_spec(txs.subrange(1, txs.len() as int), txid)
    }
}

/// Find the first transaction of `block` with the given id.
pub fn find_tx<'a>(block: &'a Block, txid: &Txid) -> (r: Option<&'a Tx>)
    ensures
        match r {
            Some(t) => find_tx_spec(block.txdata@, txid@) == Some(*t),
            None => find_tx_spec(block.txdata@, txid@) is None,
        },
{
    let n = block.txdata.len();
    proof {
        assert(block.txdata@.subrange(0, n as int) =~= block.txdata@);
    }
    let mut i: usize = 0;
    while i < n
        invariant
            i <= n,
            n == block.txdata@.len(),
            forall|j: int| 0 <= j < i ==> (#[trigger] block.txdata@[j]).txid@ != txid@,
            find_tx_spec(block.txdata@, txid@) == find_tx_spec(
                block.txdata@.subrange(i as int, n as int),
                txid@,
            ),
        decreases n - i,
    {
        let t = &block.txdata[i];
        if t.txid.eq_id(txid) {
            proof {
                assert(block.txdata@.subrange(i as int, n as int)[0] == block.txdata@[i as int]);
            }
            return Some(t);
        }
        proof {
            let tail = block.txdata@.subrange(i as int, n as int);
            assert(tail[0] == block.txdata@[i as int]);
            assert(tail.subrange(1, tail.len() as int) =~= block.txdata@.subrange(
                i + 1,
                n as int,
            ));
        }
        i = i + 1;
    }
    proof {
        assert(block.txdata@.subrange(n as int, n as int) =~= Seq::<Tx>::empty());
    }
    None
}

/// The position of the first mint-shaped output of `tx`, at or after `pos`,
/// whose embedded bag is in `dom`.
pub open spec fn first_mint_pos(tx: Tx, dom: Set<Seq<u8>>, pos: int) -> Option<int>
    decreases tx.output@.len() - pos,
{
    if pos < 0 || pos >= tx.output@.len() {
        None
    } else if (mint_script_bag(tx.output@[pos].script_pubkey@) matches Some(bag) && dom.contains(
        bag,
    )) {
        Some(pos)
    } else {
        first_mint_pos(tx, dom, pos + 1)
    }
}

/// What [`first_mint_pos`] finds is in range, mint-shaped, and registered.
pub proof fn lemma_first_mint_pos_props(tx: Tx, dom: Set<Seq<u8>>, pos: int)
    ensures
        match first_mint_pos(tx, dom, pos) {
            Some(p) => pos <= p < tx.output@.len() && (mint_script_bag(
                tx.output@[p].script_pubkey@,
            ) matches Some(bag) && dom.contains(bag)),
            None => true,
        },
    decreases tx.output@.len() - pos,
{
    if pos < 0 || pos >= tx.output@.len() {
    } else {
        match mint_script_bag(tx.output@[pos].script_pubkey@) {
            Some(bag) => {
                if !dom.contains(bag) {
                    lemma_first_mint_pos_props(tx, dom, pos + 1);
                }
            },
            None => {
                lemma_first_mint_pos_props(tx, dom, pos + 1);
            },
        }
    }
}

/// `e` is exactly the entry that scanning `tx` inside the block named `hash`
/// yields at output position `p`.
pub open spec fn entry_at(e: BidEntry, tx: Tx, p: int, hash: BlockHash) -> bool {
    &&& e.proof.btc_block == hash
    &&& e.proof.tx.outpoint.txid == tx.txid
    &&& e.proof.tx.outpoint.out_pos == p
    &&& 0 <= p < tx.output@.len()
    &&& mint_script_bag(tx.output@[p].script_pubkey@) == Some(e.proof.tx.bag_id@)
    &&& e.amount == tx.output@[p].value
}

/// Every scanned entry is genuine: its bag is registered and some
/// transaction of the block yields it at that transaction's first matching
/// output. Kept opaque to confine the quantifiers to the proofs that open it.
#[verifier::opaque]
pub open spec fn scan_sound(
    es: Seq<BidEntry>,
    txs: Seq<Tx>,
    dom: Set<Seq<u8>>,
    hash: BlockHash,
) -> bool {
    forall|a: int|
        0 <= a < es.len() ==> ({
            &&& dom.contains((#[trigger] es[a]).proof.tx.bag_id@)
            &&& exists|t: int|
                0 <= t < txs.len() && (first_mint_pos(#[trigger] txs[t], dom, 0) == Some(
                    es[a].proof.tx.outpoint.out_pos as int,
                ) && entry_at(es[a], txs[t], es[a].proof.tx.outpoint.out_pos as int, hash))
        })
}

/// Every transaction among the first `upto` with a matching mint output is
/// represented by a scanned entry at its first matching output. Kept opaque
/// for the same reason as [`scan_sound`].
#[verifier::opaque]
pub open spec fn scan_complete(
    es: Seq<BidEntry>,
    txs: Seq<Tx>,
    dom: Set<Seq<u8>>,
    hash: BlockHash,
    upto: int,
) -> bool {
    forall|t: int|
        0 <= t < upto ==> match first_mint_pos(#[trigger] txs[t], dom, 0) {
            Some(p) => exists|a: int| 0 <= a < es.len() && entry_at(#[trigger] es[a], txs[t], p, hash),
            None => true,
        }
}

/// What a block scan returns: nothing but genuine entries, and one for every
/// transaction that has a matching mint output.
pub open spec fn scan_result_ok(
    es: Seq<BidEntry>,
    txs: Seq<Tx>,
    dom: Set<Seq<u8>>,
    hash: BlockHash,
) -> bool {
    scan_sound(es, txs, dom, hash) && scan_complete(es, txs, dom, hash, txs.len() as int)
}

/// The first matching mint output of `tx` carries bag `k`.
pub open spec fn tx_confirms_bag(tx: Tx, dom: Set<Seq<u8>>, k: Seq<u8>) -> bool {
    match first_mint_pos(tx, dom, 0) {
        Some(p) => mint_script_bag(tx.output@[p].script_pubkey@) == Some(k),
        None => false,
    }
}

/// Some transaction of the block confirms bag `k` when scanned. Kept opaque
/// to confine the quantifier to the proofs that open it.
#[verifier::opaque]
pub open spec fn block_confirms_bag(txs: Seq<Tx>, dom: Set<Seq<u8>>, k: Seq<u8>) -> bool {
    exists|t: int| 0 <= t < txs.len() && tx_confirms_bag(#[trigger] txs[t], dom, k)
}

/// Some canonical block with height in `(lo, hi]` confirms bag `k` when
/// scanned. Kept opaque for the same reason as [`block_confirms_bag`].
#[verifier::opaque]
pub open spec fn range_confirms_bag(
    v: ChainView,
    dom: Set<Seq<u8>>,
    lo: int,
    hi: int,
    k: Seq<u8>,
) -> bool {
    exists|h: int|
        lo < h <= hi && 0 <= h < v.chain.len() && block_confirms_bag(
            (#[trigger] v.chain[h]).txs,
            dom,
            k,
        )
}

/// Does `tx` witness the bid entry `e`: same transaction id, and the output
/// at the entry's position is mint-shaped with the entry's bag and amount.
pub open spec fn tx_entry_match(tx: Tx, e: BidEntry) -> bool {
    &&& tx.txid@ == e.proof.tx.outpoint.txid@
    &&& e.proof.tx.outpoint.out_pos < tx.output@.len()
    &&& mint_script_bag(tx.output@[e.proof.tx.outpoint.out_pos as int].script_pubkey@) == Some(
        e.proof.tx.bag_id@,
    )
    &&& e.amount == tx.output@[e.proof.tx.outpoint.out_pos as int].value
}

/// Some transaction of `txs` witnesses the bid entry `e`.
pub open spec fn tx_witnesses(txs: Seq<Tx>, e: BidEntry) -> bool {
    exists|t: int| 0 <= t < txs.len() && tx_entry_match(#[trigger] txs[t], e)
}

/// The entry `e` names a canonical block with height in `(lo, hi]` whose
/// contents witness it: the provenance of a confirmation made by a chain
/// scan.
pub open spec fn scanned_in_range(v: ChainView, lo: int, hi: int, e: BidEntry) -> bool {
    exists|h: int|
        lo < h <= hi && 0 <= h < v.chain.len() && (#[trigger] v.chain[h]).hash
            == e.proof.btc_block && tx_witnesses(v.chain[h].txs, e)
}

/// A scanned witness stays one when the height range widens on either side.
pub proof fn lemma_scanned_range_widen(
    v: ChainView,
    lo1: int,
    hi1: int,
    lo2: int,
    hi2: int,
    e: BidEntry,
)
    requires
        scanned_in_range(v, lo1, hi1, e),
        lo2 <= lo1,
        hi1 <= hi2,
    ensures
        scanned_in_range(v, lo2, hi2, e),
{
    let h = choose|h: int|
        lo1 < h <= hi1 && 0 <= h < v.chain.len() && (#[trigger] v.chain[h]).hash
            == e.proof.btc_block && tx_witnesses(v.chain[h].txs, e);
    assert(lo2 < h <= hi2 && 0 <= h < v.chain.len() && v.chain[h].hash == e.proof.btc_block
        && tx_witnesses(v.chain[h].txs, e));
}

/// A scanned witness stays one when the height range widens.
pub proof fn lemma_scanned_range_mono(v: ChainView, lo: int, hi1: int, hi2: int, e: BidEntry)
    requires
        scanned_in_range(v, lo, hi1, e),
        hi1 <= hi2,
    ensures
        scanned_in_range(v, lo, hi2, e),
{
    lemma_scanned_range_widen(v, lo, hi1, lo, hi2, e);
}

/// A table that differs from `t_start` only by confirmations scanned up to
/// height `hi` keeps that shape when the height bound widens.
proof fn lemma_scan_clause_widen(
    t_start: Map<Seq<u8>, BagState>,
    t_cur: Map<Seq<u8>, BagState>,
    dom: Set<Seq<u8>>,
    v: ChainView,
    lo: int,
    h1: int,
    h2: int,
)
    requires
        h1 <= h2,
        forall|k: Seq<u8>|
            #[trigger] dom.contains(k) ==> (t_cur[k] == t_start[k] || (
            t_cur[k] matches BagState::Confirmed(e) && (e.proof.tx.bag_id@ == k
                && scanned_in_range(v, lo, h1, e)))),
    ensures
        forall|k: Seq<u8>|
            #[trigger] dom.contains(k) ==> (t_cur[k] == t_start[k] || (
            t_cur[k] matches BagState::Confirmed(e) && (e.proof.tx.bag_id@ == k
                && scanned_in_range(v, lo, h2, e)))),
{
    assert forall|k: Seq<u8>| #[trigger] dom.contains(k) implies (t_cur[k] == t_start[k] || (
    t_cur[k] matches BagState::Confirmed(e) && (e.proof.tx.bag_id@ == k && scanned_in_range(
        v,
        lo,
        h2,
        e,
    )))) by {
        if t_cur[k] != t_start[k] {
            match t_cur[k] {
                BagState::Confirmed(e) => {
                    lemma_scanned_range_mono(v, lo, h1, h2, e);
                },
                BagState::Unconfirmed => {},
            }
        }
    }
}

/// Scanning one more canonical block, at height `next`, keeps a table in the
/// scanned-up-to shape with the bound moved to `next`.
proof fn lemma_scan_clause_step(
    t_start: Map<Seq<u8>, BagState>,
    t_mid: Map<Seq<u8>, BagState>,
    t_cur: Map<Seq<u8>, BagState>,
    dom: Set<Seq<u8>>,
    v: ChainView,
    lo: int,
    h1: int,
    next: int,
)
    requires
        lo < next,
        h1 <= next,
        0 <= next < v.chain.len(),
        forall|k: Seq<u8>|
            #[trigger] dom.contains(k) ==> (t_mid[k] == t_start[k] || (
            t_mid[k] matches BagState::Confirmed(e) && (e.proof.tx.bag_id@ == k
                && scanned_in_range(v, lo, h1, e)))),
        forall|k: Seq<u8>|
            #[trigger] dom.contains(k) ==> (t_cur[k] == t_mid[k] || (
            t_cur[k] matches BagState::Confirmed(e) && (e.proof.tx.bag_id@ == k
                && e.proof.btc_block == v.chain[next].hash && tx_witnesses(
                v.chain[next].txs,
                e,
            )))),
    ensures
        forall|k: Seq<u8>|
            #[trigger] dom.contains(k) ==> (t_cur[k] == t_start[k] || (
            t_cur[k] matches BagState::Confirmed(e) && (e.proof.tx.bag_id@ == k
                && scanned_in_range(v, lo, next, e)))),
{
    assert forall|k: Seq<u8>| #[trigger] dom.contains(k) implies (t_cur[k] == t_start[k] || (
    t_cur[k] matches BagState::Confirmed(e) && (e.proof.tx.bag_id@ == k && scanned_in_range(
        v,
        lo,
        next,
        e,
    )))) by {
        if t_cur[k] != t_start[k] {
            if t_cur[k] == t_mid[k] {
                match t_cur[k] {
                    BagState::Confirmed(e) => {
                        lemma_scanned_range_mono(v, lo, h1, next, e);
                    },
                    BagState::Unconfirmed => {},
                }
            } else {
                match t_cur[k] {
                    BagState::Confirmed(e) => {
                        assert(lo < next <= next && 0 <= next < v.chain.len()
                            && v.chain[next].hash == e.proof.btc_block && tx_witnesses(
                            v.chain[next].txs,
                            e,
                        ));
                    },
                    BagState::Unconfirmed => {},
                }
            }
        }
    }
}

/// An empty height range confirms no bag at all.
proof fn lemma_empty_range_confirms(
    v: ChainView,
    dom: Set<Seq<u8>>,
    lo: int,
    t: Map<Seq<u8>, BagState>,
)
    ensures
        forall|k: Seq<u8>|
            #![trigger range_confirms_bag(v, dom, lo, lo, k)]
            range_confirms_bag(v, dom, lo, lo, k) ==> (t[k] matches BagState::Confirmed(e) && (
            e.proof.tx.bag_id@ == k && scanned_in_range(v, lo, lo, e))),
{
    assert forall|k: Seq<u8>| range_confirms_bag(v, dom, lo, lo, k) implies (
    t[k] matches BagState::Confirmed(e) && (e.proof.tx.bag_id@ == k && scanned_in_range(
        v,
        lo,
        lo,
        e,
    ))) by {
        reveal(range_confirms_bag);
        let h = choose|h: int|
            lo < h <= lo && 0 <= h < v.chain.len() && block_confirms_bag(
                (#[trigger] v.chain[h]).txs,
                dom,
                k,
            );
        assert(false);
    }
}

/// Scanning one more canonical block, at height `next`, extends the
/// completeness of the confirmations: every bag that a block of the widened
/// range confirms holds a scanned confirmation.
proof fn lemma_confirm_clause_step(
    t_mid: Map<Seq<u8>, BagState>,
    t_cur: Map<Seq<u8>, BagState>,
    dom: Set<Seq<u8>>,
    v: ChainView,
    lo: int,
    next: int,
)
    requires
        lo < next,
        0 <= next < v.chain.len(),
        forall|k: Seq<u8>|
            #![trigger range_confirms_bag(v, dom, lo, next - 1, k)]
            range_confirms_bag(v, dom, lo, next - 1, k) ==> (t_mid[k] matches BagState::Confirmed(
                e,
            ) && (e.proof.tx.bag_id@ == k && scanned_in_range(v, lo, next - 1, e))),
        forall|k: Seq<u8>|
            #![trigger block_confirms_bag(v.chain[next].txs, dom, k)]
            block_confirms_bag(v.chain[next].txs, dom, k) ==> (t_cur[k] matches
                BagState::Confirmed(e) && (e.proof.tx.bag_id@ == k && e.proof.btc_block
                == v.chain[next].hash && tx_witnesses(v.chain[next].txs, e))),
        forall|k: Seq<u8>|
            #![trigger t_cur[k]]
            dom.contains(k) ==> (t_cur[k] == t_mid[k] || (t_cur[k] matches BagState::Confirmed(e)
                && (e.proof.tx.bag_id@ == k && e.proof.btc_block == v.chain[next].hash
                && tx_witnesses(v.chain[next].txs, e)))),
    ensures
        forall|k: Seq<u8>|
            #![trigger range_confirms_bag(v, dom, lo, next, k)]
            range_confirms_bag(v, dom, lo, next, k) ==> (t_cur[k] matches BagState::Confirmed(e)
                && (e.proof.tx.bag_id@ == k && scanned_in_range(v, lo, next, e))),
{
    assert forall|k: Seq<u8>| range_confirms_bag(v, dom, lo, next, k) implies (
    t_cur[k] matches BagState::Confirmed(e) && (e.proof.tx.bag_id@ == k && scanned_in_range(
        v,
        lo,
        next,
        e,
    ))) by {
        reveal(range_confirms_bag);
        let h = choose|h: int|
            lo < h <= next && 0 <= h < v.chain.len() && block_confirms_bag(
                (#[trigger] v.chain[h]).txs,
                dom,
                k,
            );
        assert(dom.contains(k)) by {
            reveal(block_confirms_bag);
            let t2 = choose|t2: int|
                0 <= t2 < v.chain[h].txs.len() && tx_confirms_bag(
                    #[trigger] v.chain[h].txs[t2],
                    dom,
                    k,
                );
            lemma_first_mint_pos_props(v.chain[h].txs[t2], dom, 0);
        }
        if h == next {
            match t_cur[k] {
                BagState::Confirmed(e) => {
                    assert(lo < next <= next && 0 <= next < v.chain.len() && v.chain[next].hash
                        == e.proof.btc_block && tx_witnesses(v.chain[next].txs, e));
                },
                BagState::Unconfirmed => {},
            }
        } else {
            assert(range_confirms_bag(v, dom, lo, next - 1, k));
            if t_cur[k] == t_mid[k] {
                match t_cur[k] {
                    BagState::Confirmed(e) => {
                        lemma_scanned_range_mono(v, lo, next - 1, next, e);
                    },
                    BagState::Unconfirmed => {},
                }
            } else {
                match t_cur[k] {
                    BagState::Confirmed(e) => {
                        assert(lo < next <= next && 0 <= next < v.chain.len()
                            && v.chain[next].hash == e.proof.btc_block && tx_witnesses(
                            v.chain[next].txs,
                            e,
                        ));
                    },
                    BagState::Unconfirmed => {},
                }
            }
        }
    }
}

/// The table after demoting the confirmations of each block of `hs` in turn.
pub open spec fn demote_seq(m: Map<Seq<u8>, BagState>, hs: Seq<BlockHash>) -> Map<
    Seq<u8>,
    BagState,
>
    decreases hs.len(),
{
    if hs.len() == 0 {
        m
    } else {
        demote_confirmations(demote_seq(m, hs.drop_last()), hs.last()@)
    }
}

/// Demoting block by block keeps the domain, demotes exactly the
/// confirmations witnessed by a block of `hs`, and leaves the rest alone.
pub proof fn lemma_demote_seq_at(m: Map<Seq<u8>, BagState>, hs: Seq<BlockHash>)
    ensures
        demote_seq(m, hs).dom() == m.dom(),
        forall|k: Seq<u8>|
            #[trigger] m.dom().contains(k) ==> demote_seq(m, hs)[k] == (match m[k] {
                BagState::Confirmed(e) => if seq_has_hash(hs, e.proof.btc_block@) {
                    BagState::Unconfirmed
                } else {
                    m[k]
                },
                BagState::Unconfirmed => m[k],
            }),
    decreases hs.len(),
{
    reveal(seq_has_hash);
    if hs.len() == 0 {
    } else {
        let prefix = hs.drop_last();
        lemma_demote_seq_at(m, prefix);
        assert(demote_seq(m, hs).dom() =~= m.dom());
        assert forall|k: Seq<u8>| #[trigger] m.dom().contains(k) implies demote_seq(m, hs)[k] == (
        match m[k] {
            BagState::Confirmed(e) => if seq_has_hash(hs, e.proof.btc_block@) {
                BagState::Unconfirmed
            } else {
                m[k]
            },
            BagState::Unconfirmed => m[k],
        }) by {
            match m[k] {
                BagState::Confirmed(e) => {
                    let hb = e.proof.btc_block@;
                    if seq_has_hash(prefix, hb) {
                        let d = choose|d: int|
                            0 <= d < prefix.len() && (#[trigger] prefix[d])@ == hb;
                        assert(hs[d]@ == hb);
                        assert(seq_has_hash(hs, hb));
                    } else if hs.last()@ == hb {
                        assert(hs[hs.len() - 1]@ == hb);
                        assert(seq_has_hash(hs, hb));
                    } else {
                        if seq_has_hash(hs, hb) {
                            let d = choose|d: int| 0 <= d < hs.len() && (#[trigger] hs[d])@ == hb;
                            if d < hs.len() - 1 {
                                assert(prefix[d]@ == hb);
                            }
                            assert(false);
                        }
                    }
                },
                BagState::Unconfirmed => {},
            }
        }
    }
}

/// The header marks a block as being in the main chain unless its
/// confirmation count is the sentinel `-1`.
fn is_block_in_main_chain(block: &crate::bitcoin_client::BlockHeaderInfo) -> (r: bool)
    ensures
        r <==> block.confirmations != -1,
{
    block.confirmations != -1
}

/// The reorganization that one sweep of [`Index::check_reorgs`] found: the
/// deepest block shared by the old and new chains, and the orphaned block
/// hashes, newest first.
#[derive(Debug)]
pub struct ReorgInfo {
    pub height_when_fork: u64,
    pub fork_root: BlockHash,
    pub discarded_blocks: Vec<BlockHash>,
}

/// Errors surfaced by the tracker's operations.
#[derive(Debug)]
pub enum TrackerError {
    /// The chain client failed; the operation may be retried.
    ClientError(ClientError),
    /// The storage backend failed.
    StorageError(BidStorageError),
    /// A supplied proof names a block that is unknown or does not contain
    /// its transaction.
    TxDoesNotExists(BlockHash, Txid),
    /// The output at the proof's position is not mint-shaped.
    WrongOutputFormat,
    /// The output is mint-shaped but carries a different bag.
    WrongBagId { tx: Txid, expected: BagId, actual: BagId },
}

/// The tracker: a chain follower that keeps `(current_height, current_tip)`
/// aligned with the canonical chain of its client and drives the bag
/// lifecycle in its storage.
pub struct Index<C: BitcoinClient, S: BidStorage> {
    pub btc_client: C,
    pub bids_storage: S,
    pub current_height: u64,
    pub current_tip: BlockHash,
}

impl<C: BitcoinClient, S: BidStorage> Index<C, S> {
    /// The tracker's tip names a block that `v` knows, at the tracker's own
    /// height.
    pub open spec fn synced_with(self, v: ChainView) -> bool {
        v.lookup(self.current_tip@) matches Some(b) && b.height == self.current_height
    }

    /// Well-formedness, preserved by every tracker operation: the client's
    /// report is consistent, the storage invariant holds, every confirmed
    /// record is keyed by its own bag id, and the tracker is synced with the
    /// client.
    pub open spec fn wf(self) -> bool {
        &&& self.btc_client.chain_view().wf()
        &&& self.bids_storage.inv()
        &&& table_bags_ok(self.bids_storage.table())
        &&& self.synced_with(self.btc_client.chain_view())
    }

    /// Start tracking at `base_height` (or at the client's current tip),
    /// with the given storage.
    pub fn new(client: C, storage: S, base_height: Option<u64>) -> (r: Result<Self, ClientError>)
        requires
            client.chain_view().wf(),
            storage.inv(),
            table_bags_ok(storage.table()),
        ensures
            r matches Ok(idx) ==> ({
                &&& idx.wf()
                &&& idx.btc_client == client
                &&& idx.bids_storage == storage
                &&& match base_height {
                    Some(h) => idx.current_height == h,
                    None => idx.current_height as int == client.chain_view().tip_height(),
                }
                &&& idx.current_height < client.chain_view().chain.len()
                &&& idx.current_tip == client.chain_view().chain[idx.current_height as int].hash
            }),
    {
        let info = match client.get_blockchain_info() {
            Ok(i) => i,
            Err(e) => {
                return Err(e);
            },
        };
        let height = match base_height {
            Some(h) => h,
            None => info.blocks,
        };
        let tip = match client.get_block_hash(height) {
            Ok(t) => t,
            Err(e) => {
                return Err(e);
            },
        };
        proof {
            crate::bitcoin_client::lemma_lookup_at_height(client.chain_view(), height as int);
        }
        Ok(Index { btc_client: client, current_height: height, current_tip: tip, bids_storage: storage })
    }

    /// Register a bag as unconfirmed; forwards to the storage.
    pub fn add_bag(&mut self, bag: BagId) -> (r: Result<(), BidStorageError>)
        requires
            old(self).wf(),
        ensures
            final(self).wf(),
            final(self).btc_client == old(self).btc_client,
            final(self).current_height == old(self).current_height,
            final(self).current_tip == old(self).current_tip,
            match r {
                Ok(()) => final(self).bids_storage.table() == if old(self).bids_storage.table().dom().contains(bag@) {
                    old(self).bids_storage.table()
                } else {
                    old(self).bids_storage.table().insert(bag@, BagState::Unconfirmed)
                },
                Err(BidStorageError::Other(_)) => final(self).bids_storage.table() == old(self).bids_storage.table(),
                Err(_) => false,
            },
    {
        self.bids_storage.insert_unconfirmed_bag(bag)
    }

    /// Operator-driven confirmation path: check that the bid named by
    /// `proof` exists in the chain as claimed, and if so promote its bag in
    /// the storage to confirmed, adopting the witness block as the new tip
    /// when it is higher than the current one.
    pub fn add_bid(&mut self, proof: BidProof) -> (r: Result<(), TrackerError>)
        requires
            old(self).wf(),
        ensures
            final(self).wf(),
            final(self).btc_client == old(self).btc_client,
            ({
                let v = old(self).btc_client.chain_view();
                let t0 = old(self).bids_storage.table();
                let t1 = final(self).bids_storage.table();
                let bagk = proof.tx.bag_id@;
                let pos = proof.tx.outpoint.out_pos;
                match r {
                    Ok(()) => v.lookup(proof.btc_block@) matches Some(b) && (find_tx_spec(
                        b.txs,
                        proof.tx.outpoint.txid@,
                    ) matches Some(t) && {
                        &&& pos < t.output@.len()
                        &&& mint_script_bag(t.output@[pos as int].script_pubkey@) == Some(bagk)
                        &&& t0.dom().contains(bagk)
                        &&& t1 == t0.insert(
                            bagk,
                            BagState::Confirmed(
                                BidEntry { amount: t.output@[pos as int].value, proof },
                            ),
                        )
                        &&& (b.height > old(self).current_height ==> final(self).current_height
                            as nat == b.height && final(self).current_tip == proof.btc_block)
                        &&& (b.height <= old(self).current_height ==> final(self).current_height
                            == old(self).current_height && final(self).current_tip == old(self).current_tip)
                    }),
                    Err(TrackerError::TxDoesNotExists(bh, txid)) => {
                        &&& bh == proof.btc_block
                        &&& txid == proof.tx.outpoint.txid
                        &&& (v.lookup(proof.btc_block@) is None || (v.lookup(
                            proof.btc_block@,
                        ) matches Some(b) && find_tx_spec(b.txs, proof.tx.outpoint.txid@)
                            is None))
                        &&& t1 == t0
                        &&& final(self).current_height == old(self).current_height
                        &&& final(self).current_tip == old(self).current_tip
                    },
                    Err(TrackerError::WrongOutputFormat) => {
                        &&& v.lookup(proof.btc_block@) matches Some(b) && (find_tx_spec(
                            b.txs,
                            proof.tx.outpoint.txid@,
                        ) matches Some(t) && (pos >= t.output@.len() || mint_script_bag(
                            t.output@[pos as int].script_pubkey@,
                        ) is None))
                        &&& t1 == t0
                        &&& final(self).current_height == old(self).current_height
                        &&& final(self).current_tip == old(self).current_tip
                    },
                    Err(TrackerError::WrongBagId { tx: txid, expected, actual }) => {
                        &&& txid == proof.tx.outpoint.txid
                        &&& expected == proof.tx.bag_id
                        &&& v.lookup(proof.btc_block@) matches Some(b) && (find_tx_spec(
                            b.txs,
                            proof.tx.outpoint.txid@,
                        ) matches Some(t) && (pos < t.output@.len() && mint_script_bag(
                            t.output@[pos as int].script_pubkey@,
                        ) == Some(actual@) && actual@ != bagk))
                        &&& t1 == t0
                        &&& final(self).current_height == old(self).current_height
                        &&& final(self).current_tip == old(self).current_tip
                    },
                    Err(TrackerError::StorageError(se)) => {
                        &&& match se {
                            BidStorageError::BagDoesNotExists(bg) => bg == proof.tx.bag_id
                                && !t0.dom().contains(bagk),
                            BidStorageError::Other(_) => true,
                            _ => false,
                        }
                        &&& t1 == t0
                        &&& final(self).current_height == old(self).current_height
                        &&& final(self).current_tip == old(self).current_tip
                    },
                    Err(TrackerError::ClientError(_)) => {
                        &&& t1 == t0
                        &&& final(self).current_height == old(self).current_height
                        &&& final(self).current_tip == old(self).current_tip
                    },
                }
            }),
    {
        let block = match self.btc_client.get_block(&proof.btc_block) {
            Ok(Some(b)) => b,
            Ok(None) => {
                return Err(
                    TrackerError::TxDoesNotExists(proof.btc_block, proof.tx.outpoint.txid),
                );
            },
            Err(e) => {
                return Err(TrackerError::ClientError(e));
            },
        };
        let header = match self.btc_client.get_block_header_info(&proof.btc_block) {
            Ok(h) => h,
            Err(e) => {
                return Err(TrackerError::ClientError(e));
            },
        };
        let height = header.height;
        let tx = match find_tx(&block, &proof.tx.outpoint.txid) {
            Some(t) => t,
            None => {
                return Err(
                    TrackerError::TxDoesNotExists(proof.btc_block, proof.tx.outpoint.txid),
                );
            },
        };
        let bid_data = match parse_mint_transaction_btc_block(tx, proof.tx.outpoint.out_pos) {
            Some(d) => d,
            None => {
                return Err(TrackerError::WrongOutputFormat);
            },
        };
        if !bid_data.bag_id.eq_id(&proof.tx.bag_id) {
            return Err(
                TrackerError::WrongBagId {
                    tx: proof.tx.outpoint.txid,
                    expected: proof.tx.bag_id,
                    actual: bid_data.bag_id,
                },
            );
        }
        let bid = BidEntry { amount: bid_data.amount, proof };
        match self.bids_storage.update_bid(bid) {
            Ok(()) => {},
            Err(e) => {
                return Err(TrackerError::StorageError(e));
            },
        }
        if height > self.current_height {
            self.current_height = height;
            self.current_tip = proof.btc_block;
        }
        Ok(())
    }

    /// Scan the block named by `hash`: for each of its transactions, the
    /// first mint-shaped output whose bag is registered in the storage
    /// yields one bid entry.
    pub fn check_btc_block_with_hash(&self, hash: BlockHash) -> (r: Result<
        Vec<BidEntry>,
        TrackerError,
    >)
        requires
            self.wf(),
        ensures
            r matches Ok(es) ==> (self.btc_client.chain_view().lookup(hash@) matches Some(b)
                && scan_result_ok(es@, b.txs, self.bids_storage.table().dom(), hash)),
    {
        let block = match self.btc_client.get_block(&hash) {
            Ok(Some(b)) => b,
            Ok(None) => {
                return Err(
                    TrackerError::ClientError(
                        ClientError::new("the node does not know the block".to_owned()),
                    ),
                );
            },
            Err(e) => {
                return Err(TrackerError::ClientError(e));
            },
        };
        let ghost txs = block.txdata@;
        let ghost dom = self.bids_storage.table().dom();
        let mut mint_txs: Vec<BidEntry> = Vec::new();
        let n = block.txdata.len();
        proof {
            reveal(scan_sound);
            reveal(scan_complete);
        }
        let mut t: usize = 0;
        while t < n
            invariant
                t <= n,
                n == txs.len(),
                block.txdata@ == txs,
                self.wf(),
                dom == self.bids_storage.table().dom(),
                scan_sound(mint_txs@, txs, dom, hash),
                scan_complete(mint_txs@, txs, dom, hash, t as int),
            decreases n - t,
        {
            let ghost es0 = mint_txs@;
            let txr = &block.txdata[t];
            let m = txr.output.len();
            let mut chosen: Option<BidEntry> = None;
            let mut p: usize = 0;
            while p < m && chosen.is_none()
                invariant
                    p <= m,
                    t < n,
                    n == txs.len(),
                    block.txdata@ == txs,
                    *txr == txs[t as int],
                    m == txr.output@.len(),
                    self.wf(),
                    dom == self.bids_storage.table().dom(),
                    chosen is None ==> first_mint_pos(txs[t as int], dom, 0) == first_mint_pos(
                        txs[t as int],
                        dom,
                        p as int,
                    ),
                    chosen matches Some(e) ==> (first_mint_pos(txs[t as int], dom, 0) == Some(
                        e.proof.tx.outpoint.out_pos as int,
                    ) && entry_at(e, txs[t as int], e.proof.tx.outpoint.out_pos as int, hash)
                        && dom.contains(e.proof.tx.bag_id@)),
                decreases m - p,
            {
                match parse_mint_btc_output(&txr.output[p]) {
                    Some(d) => {
                        let bag_known = match self.bids_storage.is_bag_exists(&d.bag_id) {
                            Ok(b) => b,
                            Err(e) => {
                                return Err(TrackerError::StorageError(e));
                            },
                        };
                        if bag_known {
                            chosen = Some(
                                BidEntry {
                                    amount: d.amount,
                                    proof: BidProof {
                                        btc_block: hash,
                                        tx: crate::record::BidTx {
                                            outpoint: crate::record::Outpoint {
                                                txid: txr.txid,
                                                out_pos: p as u64,
                                            },
                                            bag_id: d.bag_id,
                                        },
                                    },
                                },
                            );
                            proof {
                                assert(first_mint_pos(txs[t as int], dom, p as int) == Some(
                                    p as int,
                                ));
                            }
                        } else {
                            proof {
                                assert(first_mint_pos(txs[t as int], dom, p as int)
                                    == first_mint_pos(txs[t as int], dom, p + 1));
                            }
                        }
                    },
                    None => {
                        proof {
                            assert(first_mint_pos(txs[t as int], dom, p as int) == first_mint_pos(
                                txs[t as int],
                                dom,
                                p + 1,
                            ));
                        }
                    },
                }
                p = p + 1;
            }
            match chosen {
                Some(e) => {
                    mint_txs.push(e);
                    proof {
                        reveal(scan_sound);
                        reveal(scan_complete);
                        assert forall|a: int| 0 <= a < mint_txs@.len() implies ({
                            &&& dom.contains((#[trigger] mint_txs@[a]).proof.tx.bag_id@)
                            &&& exists|t2: int|
                                0 <= t2 < txs.len() && (first_mint_pos(#[trigger] txs[t2], dom, 0)
                                    == Some(mint_txs@[a].proof.tx.outpoint.out_pos as int)
                                    && entry_at(
                                    mint_txs@[a],
                                    txs[t2],
                                    mint_txs@[a].proof.tx.outpoint.out_pos as int,
                                    hash,
                                ))
                        }) by {
                            if a < es0.len() {
                                assert(mint_txs@[a] == es0[a]);
                            } else {
                                assert(mint_txs@[a] == e);
                                assert(first_mint_pos(#[trigger] txs[t as int], dom, 0) == Some(
                                    e.proof.tx.outpoint.out_pos as int,
                                ) && entry_at(
                                    e,
                                    txs[t as int],
                                    e.proof.tx.outpoint.out_pos as int,
                                    hash,
                                ));
                            }
                        }
                        assert forall|t2: int| 0 <= t2 < t + 1 implies match first_mint_pos(
                            #[trigger] txs[t2],
                            dom,
                            0,
                        ) {
                            Some(pp) => exists|a: int|
                                0 <= a < mint_txs@.len() && entry_at(
                                    #[trigger] mint_txs@[a],
                                    txs[t2],
                                    pp,
                                    hash,
                                ),
                            None => true,
                        } by {
                            if t2 < t {
                                match first_mint_pos(txs[t2], dom, 0) {
                                    Some(pp) => {
                                        let a = choose|a: int|
                                            0 <= a < es0.len() && entry_at(
                                                #[trigger] es0[a],
                                                txs[t2],
                                                pp,
                                                hash,
                                            );
                                        assert(mint_txs@[a] == es0[a]);
                                    },
                                    None => {},
                                }
                            } else {
                                assert(mint_txs@[mint_txs@.len() - 1] == e);
                            }
                        }
                    }
                },
                None => {
                    proof {
                        reveal(scan_sound);
                        reveal(scan_complete);
                        assert(first_mint_pos(txs[t as int], dom, m as int) is None);
                        assert forall|t2: int| 0 <= t2 < t + 1 implies match first_mint_pos(
                            #[trigger] txs[t2],
                            dom,
                            0,
                        ) {
                            Some(pp) => exists|a: int|
                                0 <= a < mint_txs@.len() && entry_at(
                                    #[trigger] mint_txs@[a],
                                    txs[t2],
                                    pp,
                                    hash,
                                ),
                            None => true,
                        } by {
                            if t2 < t {
                                match first_mint_pos(txs[t2], dom, 0) {
                                    Some(pp) => {
                                        let a = choose|a: int|
                                            0 <= a < mint_txs@.len() && entry_at(
                                                #[trigger] mint_txs@[a],
                                                txs[t2],
                                                pp,
                                                hash,
                                            );
                                    },
                                    None => {},
                                }
                            }
                        }
                    }
                },
            }
            t = t + 1;
        }
        proof {
            reveal(scan_sound);
            reveal(scan_complete);
        }
        Ok(mint_txs)
    }

    /// Scan one canonical block and promote every entry it yields through
    /// `update_bid`; a `BagDoesNotExists` from the race between the scan's
    /// membership test and the update is swallowed.
    fn add_btc_block_to_index(&mut self, block_hash: BlockHash) -> (r: Result<(), TrackerError>)
        requires
            old(self).wf(),
        ensures
            final(self).wf(),
            final(self).btc_client == old(self).btc_client,
            final(self).current_height == old(self).current_height,
            final(self).current_tip == old(self).current_tip,
            final(self).bids_storage.table().dom() == old(self).bids_storage.table().dom(),
            forall|k: Seq<u8>|
                #[trigger] old(self).bids_storage.table().dom().contains(k) ==> (final(self).bids_storage.table()[k] == old(self).bids_storage.table()[k] || (final(self).bids_storage.table()[k] matches BagState::Confirmed(e) && ({
                    &&& e.proof.tx.bag_id@ == k
                    &&& e.proof.btc_block == block_hash
                    &&& old(self).btc_client.chain_view().lookup(block_hash@) matches Some(b)
                        && tx_witnesses(b.txs, e)
                }))),
            r matches Ok(()) ==> (old(self).btc_client.chain_view().lookup(
                block_hash@,
            ) matches Some(b) && (forall|k: Seq<u8>|
                #![trigger block_confirms_bag(b.txs, old(self).bids_storage.table().dom(), k)]
                block_confirms_bag(b.txs, old(self).bids_storage.table().dom(), k) ==> (final(self).bids_storage.table()[k] matches BagState::Confirmed(e) && ({
                    &&& e.proof.tx.bag_id@ == k
                    &&& e.proof.btc_block == block_hash
                    &&& tx_witnesses(b.txs, e)
                })))),
    {
        let entries = match self.check_btc_block_with_hash(block_hash) {
            Ok(es) => es,
            Err(e) => {
                return Err(e);
            },
        };
        let ghost v = self.btc_client.chain_view();
        let ghost c0 = self.btc_client;
        let ghost h0 = self.current_height;
        let ghost tip0 = self.current_tip;
        let ghost t_start = self.bids_storage.table();
        let ghost dom = t_start.dom();
        let ghost bv = v.lookup(block_hash@)->Some_0;
        let n = entries.len();
        let mut i: usize = 0;
        while i < n
            invariant
                i <= n,
                n == entries@.len(),
                self.btc_client == c0,
                self.current_height == h0,
                self.current_tip == tip0,
                c0 == old(self).btc_client,
                h0 == old(self).current_height,
                tip0 == old(self).current_tip,
                t_start == old(self).bids_storage.table(),
                dom == t_start.dom(),
                c0.chain_view() == v,
                v.wf(),
                self.bids_storage.inv(),
                table_bags_ok(self.bids_storage.table()),
                self.synced_with(v),
                self.bids_storage.table().dom() == dom,
                v.lookup(block_hash@) == Some(bv),
                scan_sound(entries@, bv.txs, dom, block_hash),
                forall|k: Seq<u8>|
                    #[trigger] dom.contains(k) ==> (self.bids_storage.table()[k] == t_start[k] || (
                    self.bids_storage.table()[k] matches BagState::Confirmed(e) && ({
                        &&& e.proof.tx.bag_id@ == k
                        &&& e.proof.btc_block == block_hash
                        &&& tx_witnesses(bv.txs, e)
                    }))),
                forall|a: int|
                    #![trigger entries@[a]]
                    0 <= a < i ==> (self.bids_storage.table()[entries@[a].proof.tx.bag_id@] matches
                        BagState::Confirmed(e2) && ({
                        &&& e2.proof.tx.bag_id@ == entries@[a].proof.tx.bag_id@
                        &&& e2.proof.btc_block == block_hash
                        &&& tx_witnesses(bv.txs, e2)
                    })),
            decreases n - i,
        {
            let e = entries[i];
            proof {
                reveal(scan_sound);
                assert(dom.contains(e.proof.tx.bag_id@));
                let t2 = choose|t2: int|
                    0 <= t2 < bv.txs.len() && (first_mint_pos(#[trigger] bv.txs[t2], dom, 0)
                        == Some(e.proof.tx.outpoint.out_pos as int) && entry_at(
                        e,
                        bv.txs[t2],
                        e.proof.tx.outpoint.out_pos as int,
                        block_hash,
                    ));
                assert(tx_entry_match(bv.txs[t2], e));
                assert(tx_witnesses(bv.txs, e));
            }
            match self.bids_storage.update_bid(e) {
                Ok(()) => {},
                Err(BidStorageError::BagDoesNotExists(_)) => {},
                Err(err) => {
                    return Err(TrackerError::StorageError(err));
                },
            }
            i = i + 1;
        }
        proof {
            assert forall|k: Seq<u8>| block_confirms_bag(bv.txs, dom, k) implies (
            self.bids_storage.table()[k] matches BagState::Confirmed(e) && ({
                &&& e.proof.tx.bag_id@ == k
                &&& e.proof.btc_block == block_hash
                &&& tx_witnesses(bv.txs, e)
            })) by {
                reveal(block_confirms_bag);
                reveal(scan_complete);
                let t2 = choose|t2: int|
                    0 <= t2 < bv.txs.len() && tx_confirms_bag(#[trigger] bv.txs[t2], dom, k);
                lemma_first_mint_pos_props(bv.txs[t2], dom, 0);
                let p = first_mint_pos(bv.txs[t2], dom, 0)->Some_0;
                let a = choose|a: int|
                    0 <= a < entries@.len() && entry_at(#[trigger] entries@[a], bv.txs[t2], p, block_hash);
                assert(entries@[a].proof.tx.bag_id@ == k);
            }
        }
        Ok(())
    }

    /// Walk the canonical chain forward over heights `old_height + 1 ..=
    /// new_height`, scanning each block in order and adopting it as the new
    /// tip once fully processed. A transport failure aborts the walk; the
    /// tracker then still names the last block it processed, so the call can
    /// be retried.
    #[verifier::rlimit(60)]
    fn add_btc_blocks(&mut self, old_height: u64, new_height: u64) -> (r: Result<(), TrackerError>)
        requires
            old(self).wf(),
            old(self).current_height == old_height,
            new_height as int <= old(self).btc_client.chain_view().tip_height(),
        ensures
            final(self).wf(),
            final(self).btc_client == old(self).btc_client,
            final(self).bids_storage.table().dom() == old(self).bids_storage.table().dom(),
            r matches Ok(()) ==> (if old_height < new_height {
                final(self).current_height == new_height && final(self).current_tip == old(self).btc_client.chain_view().chain[new_height as int].hash
            } else {
                final(self).current_height == old(self).current_height && final(self).current_tip
                    == old(self).current_tip
            }),
            forall|k: Seq<u8>|
                #[trigger] old(self).bids_storage.table().dom().contains(k) ==> (final(self).bids_storage.table()[k] == old(self).bids_storage.table()[k] || (final(self).bids_storage.table()[k] matches BagState::Confirmed(e) && ({
                    &&& e.proof.tx.bag_id@ == k
                    &&& scanned_in_range(
                        old(self).btc_client.chain_view(),
                        old_height as int,
                        new_height as int,
                        e,
                    )
                }))),
            r matches Ok(()) ==> (forall|k: Seq<u8>|
                #![trigger range_confirms_bag(old(self).btc_client.chain_view(), old(self).bids_storage.table().dom(), old_height as int, new_height as int, k)]
                range_confirms_bag(
                    old(self).btc_client.chain_view(),
                    old(self).bids_storage.table().dom(),
                    old_height as int,
                    new_height as int,
                    k,
                ) ==> (final(self).bids_storage.table()[k] matches BagState::Confirmed(e) && ({
                    &&& e.proof.tx.bag_id@ == k
                    &&& scanned_in_range(
                        old(self).btc_client.chain_view(),
                        old_height as int,
                        new_height as int,
                        e,
                    )
                }))),
    {
        let ghost v = self.btc_client.chain_view();
        let ghost c0 = self.btc_client;
        let ghost tip0 = self.current_tip;
        let ghost t_start = self.bids_storage.table();
        let ghost dom = t_start.dom();
        proof {
            lemma_empty_range_confirms(v, dom, old_height as int, self.bids_storage.table());
        }
        let mut h = old_height;
        while h < new_height
            invariant
                old_height <= h,
                h <= new_height || h == old_height,
                new_height as int <= v.tip_height(),
                self.btc_client == c0,
                c0 == old(self).btc_client,
                tip0 == old(self).current_tip,
                t_start == old(self).bids_storage.table(),
                dom == t_start.dom(),
                c0.chain_view() == v,
                v.wf(),
                self.bids_storage.inv(),
                table_bags_ok(self.bids_storage.table()),
                self.synced_with(v),
                self.current_height == h,
                h == old_height ==> self.current_tip == tip0,
                h > old_height ==> h < v.chain.len() && self.current_tip == v.chain[h as int].hash,
                self.bids_storage.table().dom() == dom,
                forall|k: Seq<u8>|
                    #[trigger] dom.contains(k) ==> (self.bids_storage.table()[k] == t_start[k] || (
                    self.bids_storage.table()[k] matches BagState::Confirmed(e) && ({
                        &&& e.proof.tx.bag_id@ == k
                        &&& scanned_in_range(v, old_height as int, h as int, e)
                    }))),
                forall|k: Seq<u8>|
                    #![trigger range_confirms_bag(v, dom, old_height as int, h as int, k)]
                    range_confirms_bag(v, dom, old_height as int, h as int, k) ==> (
                    self.bids_storage.table()[k] matches BagState::Confirmed(e) && ({
                        &&& e.proof.tx.bag_id@ == k
                        &&& scanned_in_range(v, old_height as int, h as int, e)
                    })),
            decreases new_height - h,
        {
            let ghost t_before = self.bids_storage.table();
            let next = h + 1;
            let hash = match self.btc_client.get_block_hash(next) {
                Ok(x) => x,
                Err(e) => {
                    proof {
                        lemma_scan_clause_widen(
                            t_start,
                            self.bids_storage.table(),
                            dom,
                            v,
                            old_height as int,
                            h as int,
                            new_height as int,
                        );
                    }
                    return Err(TrackerError::ClientError(e));
                },
            };
            proof {
                crate::bitcoin_client::lemma_lookup_at_height(v, next as int);
            }
            let scan_result = self.add_btc_block_to_index(hash);
            proof {
                lemma_scan_clause_step(
                    t_start,
                    t_before,
                    self.bids_storage.table(),
                    dom,
                    v,
                    old_height as int,
                    h as int,
                    next as int,
                );
            }
            match scan_result {
                Ok(()) => {},
                Err(e) => {
                    proof {
                        lemma_scan_clause_widen(
                            t_start,
                            self.bids_storage.table(),
                            dom,
                            v,
                            old_height as int,
                            next as int,
                            new_height as int,
                        );
                    }
                    return Err(e);
                },
            }
            proof {
                lemma_confirm_clause_step(
                    t_before,
                    self.bids_storage.table(),
                    dom,
                    v,
                    old_height as int,
                    next as int,
                );
            }
            self.current_height = next;
            self.current_tip = hash;
            h = next;
        }
        proof {
            if h > new_height {
                assert forall|k: Seq<u8>|
                    range_confirms_bag(
                        v,
                        dom,
                        old_height as int,
                        new_height as int,
                        k,
                    ) implies (self.bids_storage.table()[k] matches BagState::Confirmed(e) && (
                e.proof.tx.bag_id@ == k && scanned_in_range(
                    v,
                    old_height as int,
                    new_height as int,
                    e,
                ))) by {
                    reveal(range_confirms_bag);
                    let hh = choose|hh: int|
                        old_height < hh <= new_height && 0 <= hh < v.chain.len()
                            && block_confirms_bag((#[trigger] v.chain[hh]).txs, dom, k);
                    assert(false);
                }
            }
            if h <= new_height {
                lemma_scan_clause_widen(
                    t_start,
                    self.bids_storage.table(),
                    dom,
                    v,
                    old_height as int,
                    h as int,
                    new_height as int,
                );
            } else {
                assert forall|k: Seq<u8>| #[trigger] dom.contains(k) implies (
                self.bids_storage.table()[k] == t_start[k] || (
                self.bids_storage.table()[k] matches BagState::Confirmed(e2) && ({
                    &&& e2.proof.tx.bag_id@ == k
                    &&& scanned_in_range(v, old_height as int, new_height as int, e2)
                }))) by {
                    if self.bids_storage.table()[k] != t_start[k] {
                        match self.bids_storage.table()[k] {
                            BagState::Confirmed(e2) => {
                                assert(scanned_in_range(v, old_height as int, h as int, e2));
                                let w = choose|w: int|
                                    old_height < w <= h && 0 <= w < v.chain.len() && (
                                    #[trigger] v.chain[w]).hash == e2.proof.btc_block
                                        && tx_witnesses(v.chain[w].txs, e2);
                                assert(false);
                            },
                            BagState::Unconfirmed => {},
                        }
                    }
                }
            }
        }
        Ok(())
    }

    /// Walk back from the tracker's tip through `previous_block_hash` links
    /// until a block still in the main chain is found. Returns `None` when
    /// the tip itself is still canonical; otherwise the discarded block
    /// hashes (newest first) and the fork root where the walk stopped.
    fn check_btc_for_reorgs(&self) -> (r: Result<Option<ReorgInfo>, TrackerError>)
        requires
            self.wf(),
        ensures
            r matches Ok(or) ==> ({
                let v = self.btc_client.chain_view();
                match or {
                    None => v.in_main(self.current_tip@),
                    Some(ri) => {
                        &&& !v.in_main(self.current_tip@)
                        &&& ri.discarded_blocks@.len() >= 1
                        &&& ri.discarded_blocks@[0] == self.current_tip
                        &&& forall|d: int|
                            0 <= d < ri.discarded_blocks@.len() ==> (!v.in_main(
                                (#[trigger] ri.discarded_blocks@[d])@,
                            ) && v.lookup(ri.discarded_blocks@[d]@) is Some)
                        &&& forall|d: int|
                            0 <= d < ri.discarded_blocks@.len() - 1 ==> (v.lookup(
                                (#[trigger] ri.discarded_blocks@[d])@,
                            ) matches Some(bd) && bd.prev == Some(ri.discarded_blocks@[d + 1]))
                        &&& (v.lookup(
                            ri.discarded_blocks@[ri.discarded_blocks@.len() - 1]@,
                        ) matches Some(bl) && bl.prev == Some(ri.fork_root))
                        &&& v.in_main(ri.fork_root@)
                        &&& (v.lookup(ri.fork_root@) matches Some(b) && b.height
                            == ri.height_when_fork)
                        &&& ri.height_when_fork < v.chain.len()
                    },
                }
            }),
    {
        let ghost v = self.btc_client.chain_view();
        let mut discarded_blocks: Vec<BlockHash> = Vec::new();
        let mut block_hash: BlockHash = self.current_tip;
        let mut height: u64 = 0;
        let mut reorg: bool = false;
        loop
            invariant
                v == self.btc_client.chain_view(),
                self.wf(),
                v.lookup(block_hash@) is Some,
                reorg <==> discarded_blocks@.len() >= 1,
                !reorg ==> block_hash == self.current_tip,
                reorg ==> discarded_blocks@[0] == self.current_tip,
                forall|d: int|
                    0 <= d < discarded_blocks@.len() ==> (!v.in_main(
                        (#[trigger] discarded_blocks@[d])@,
                    ) && v.lookup(discarded_blocks@[d]@) is Some),
                forall|d: int|
                    0 <= d < discarded_blocks@.len() - 1 ==> (v.lookup(
                        (#[trigger] discarded_blocks@[d])@,
                    ) matches Some(bd) && bd.prev == Some(discarded_blocks@[d + 1])),
                reorg ==> (v.lookup(discarded_blocks@[discarded_blocks@.len() - 1]@) matches Some(
                    bl,
                ) && bl.prev == Some(block_hash)),
            ensures
                v == self.btc_client.chain_view(),
                v.in_main(block_hash@),
                v.lookup(block_hash@) matches Some(b) && height as nat == b.height,
                reorg <==> discarded_blocks@.len() >= 1,
                !reorg ==> block_hash == self.current_tip,
                reorg ==> discarded_blocks@[0] == self.current_tip,
                reorg ==> !v.in_main(self.current_tip@),
                forall|d: int|
                    0 <= d < discarded_blocks@.len() ==> (!v.in_main(
                        (#[trigger] discarded_blocks@[d])@,
                    ) && v.lookup(discarded_blocks@[d]@) is Some),
                forall|d: int|
                    0 <= d < discarded_blocks@.len() - 1 ==> (v.lookup(
                        (#[trigger] discarded_blocks@[d])@,
                    ) matches Some(bd) && bd.prev == Some(discarded_blocks@[d + 1])),
                reorg ==> (v.lookup(discarded_blocks@[discarded_blocks@.len() - 1]@) matches Some(
                    bl,
                ) && bl.prev == Some(block_hash)),
            decreases (match v.lookup(block_hash@) {
                Some(b) => b.height,
                None => 0,
            }),
        {
            let header = match self.btc_client.get_block_header_info(&block_hash) {
                Ok(x) => x,
                Err(e) => {
                    return Err(TrackerError::ClientError(e));
                },
            };
            height = header.height;
            if is_block_in_main_chain(&header) {
                break;
            }
            proof {
                if !reorg {
                    assert(block_hash == self.current_tip);
                }
                crate::bitcoin_client::lemma_lookup_not_main(v, block_hash@);
            }
            reorg = true;
            let prev = match header.previous_block_hash {
                Some(p) => p,
                None => {
                    return Err(
                        TrackerError::ClientError(
                            ClientError::new(
                                "block off the main chain reports no parent".to_owned(),
                            ),
                        ),
                    );
                },
            };
            let ghost disc0 = discarded_blocks@;
            discarded_blocks.push(block_hash);
            proof {
                assert forall|d: int| 0 <= d < discarded_blocks@.len() - 1 implies (v.lookup(
                    (#[trigger] discarded_blocks@[d])@,
                ) matches Some(bd) && bd.prev == Some(discarded_blocks@[d + 1])) by {
                    if d < disc0.len() - 1 {
                        assert(discarded_blocks@[d] == disc0[d]);
                        assert(discarded_blocks@[d + 1] == disc0[d + 1]);
                    } else {
                        assert(discarded_blocks@[d] == disc0[disc0.len() - 1]);
                        assert(discarded_blocks@[d + 1] == block_hash);
                    }
                }
            }
            block_hash = prev;
        }
        proof {
            crate::bitcoin_client::lemma_lookup_main(v, block_hash@);
        }
        if reorg {
            Ok(
                Some(
                    ReorgInfo {
                        height_when_fork: height,
                        fork_root: block_hash,
                        discarded_blocks,
                    },
                ),
            )
        } else {
            Ok(None)
        }
    }

    /// Demote, in storage, the confirmations of every discarded block of the
    /// reorganization, newest first. A missing match is no error.
    fn remove_btc_blocks_when_fork(&mut self, reorg_info: &ReorgInfo) -> (r: Result<
        (),
        BidStorageError,
    >)
        requires
            old(self).wf(),
        ensures
            final(self).wf(),
            final(self).btc_client == old(self).btc_client,
            final(self).current_height == old(self).current_height,
            final(self).current_tip == old(self).current_tip,
            final(self).bids_storage.table().dom() == old(self).bids_storage.table().dom(),
            r matches Ok(()) ==> final(self).bids_storage.table() == demote_seq(
                old(self).bids_storage.table(),
                reorg_info.discarded_blocks@,
            ),
            forall|k: Seq<u8>|
                #[trigger] old(self).bids_storage.table().dom().contains(k) ==> (final(self).bids_storage.table()[k] == old(self).bids_storage.table()[k] || final(self).bids_storage.table()[k] is Unconfirmed),
    {
        let ghost t_start = self.bids_storage.table();
        let ghost c0 = self.btc_client;
        let ghost h0 = self.current_height;
        let ghost tip0 = self.current_tip;
        let ghost dom = t_start.dom();
        let n = reorg_info.discarded_blocks.len();
        let mut i: usize = 0;
        while i < n
            invariant
                i <= n,
                n == reorg_info.discarded_blocks@.len(),
                self.btc_client == c0,
                self.current_height == h0,
                self.current_tip == tip0,
                c0 == old(self).btc_client,
                h0 == old(self).current_height,
                tip0 == old(self).current_tip,
                t_start == old(self).bids_storage.table(),
                dom == t_start.dom(),
                old(self).wf(),
                self.bids_storage.inv(),
                self.bids_storage.table() == demote_seq(
                    t_start,
                    reorg_info.discarded_blocks@.subrange(0, i as int),
                ),
            decreases n - i,
        {
            let ghost t_before = self.bids_storage.table();
            let discarded_block = &reorg_info.discarded_blocks[i];
            match self.bids_storage.remove_confirmation_with_block_hash(discarded_block) {
                Ok(()) => {},
                Err(BidStorageError::BagDoesNotExists(_)) => {},
                Err(err) => {
                    proof {
                        self.lemma_after_partial_demote(
                            t_start,
                            reorg_info.discarded_blocks@.subrange(0, i as int),
                        );
                    }
                    return Err(err);
                },
            }
            proof {
                let sub1 = reorg_info.discarded_blocks@.subrange(0, i + 1);
                assert(sub1.drop_last() =~= reorg_info.discarded_blocks@.subrange(0, i as int));
                assert(sub1.last() == reorg_info.discarded_blocks@[i as int]);
            }
            i = i + 1;
        }
        proof {
            assert(reorg_info.discarded_blocks@.subrange(0, n as int)
                =~= reorg_info.discarded_blocks@);
            self.lemma_after_partial_demote(t_start, reorg_info.discarded_blocks@);
        }
        Ok(())
    }

    /// After demoting a prefix of blocks, the table is pointwise either the
    /// old record or `Unconfirmed`, the domain is unchanged, and the
    /// key-consistency of confirmed records is kept.
    proof fn lemma_after_partial_demote(&self, t_start: Map<Seq<u8>, BagState>, hs: Seq<BlockHash>)
        requires
            self.bids_storage.table() == demote_seq(t_start, hs),
            table_bags_ok(t_start),
        ensures
            self.bids_storage.table().dom() == t_start.dom(),
            table_bags_ok(self.bids_storage.table()),
            forall|k: Seq<u8>|
                #[trigger] t_start.dom().contains(k) ==> (self.bids_storage.table()[k]
                    == t_start[k] || self.bids_storage.table()[k] is Unconfirmed),
    {
        lemma_demote_seq_at(t_start, hs);
    }

    /// Sweep-and-extend: detect a reorganization by walking back from the
    /// tracker's tip; demote the confirmations of every orphaned block; then
    /// walk the canonical chain forward from the fork root (or from the old
    /// tip when no reorganization happened) and re-scan the new suffix.
    #[verifier::rlimit(100)]
    pub fn check_reorgs(&mut self) -> (r: Result<Option<ReorgInfo>, TrackerError>)
        requires
            old(self).wf(),
        ensures
            final(self).wf(),
            final(self).btc_client == old(self).btc_client,
            final(self).bids_storage.table().dom() == old(self).bids_storage.table().dom(),
            r matches Ok(_) ==> ({
                let v = old(self).btc_client.chain_view();
                final(self).current_height as int == v.tip_height() && final(self).current_tip@
                    == v.chain.last().hash@
            }),
            ({
                let v = old(self).btc_client.chain_view();
                r matches Ok(or) ==> ({
                    let synced_at_top = old(self).current_height as int == v.tip_height()
                        && old(self).current_tip@ == v.chain.last().hash@;
                    let unchanged = final(self).bids_storage.table()
                        == old(self).bids_storage.table()
                        && final(self).current_height == old(self).current_height
                        && final(self).current_tip == old(self).current_tip;
                    synced_at_top ==> (or is None && unchanged)
                })
            }),
            r matches Ok(Some(ri)) ==> ({
                let v = old(self).btc_client.chain_view();
                &&& !v.in_main(old(self).current_tip@)
                &&& ri.discarded_blocks@.len() >= 1
                &&& ri.discarded_blocks@[0] == old(self).current_tip
                &&& forall|d: int|
                    0 <= d < ri.discarded_blocks@.len() ==> (!v.in_main(
                        (#[trigger] ri.discarded_blocks@[d])@,
                    ) && v.lookup(ri.discarded_blocks@[d]@) is Some)
                &&& forall|d: int|
                    0 <= d < ri.discarded_blocks@.len() - 1 ==> (v.lookup(
                        (#[trigger] ri.discarded_blocks@[d])@,
                    ) matches Some(bd) && bd.prev == Some(ri.discarded_blocks@[d + 1]))
                &&& (v.lookup(ri.discarded_blocks@[ri.discarded_blocks@.len() - 1]@) matches Some(
                    bl,
                ) && bl.prev == Some(ri.fork_root))
                &&& v.in_main(ri.fork_root@)
                &&& (v.lookup(ri.fork_root@) matches Some(b) && b.height == ri.height_when_fork)
            }),
            r matches Ok(Some(ri)) ==> ({
                let v = old(self).btc_client.chain_view();
                forall|k: Seq<u8>|
                    #[trigger] old(self).bids_storage.table().dom().contains(k) ==> ((old(self).bids_storage.table()[k] matches BagState::Confirmed(e) && seq_has_hash(
                        ri.discarded_blocks@,
                        e.proof.btc_block@,
                    )) ==> (final(self).bids_storage.table()[k] is Unconfirmed || (final(self).bids_storage.table()[k] matches BagState::Confirmed(e2) && v.in_main(
                        e2.proof.btc_block@,
                    ))))
            }),
            r matches Ok(Some(ri)) ==> (forall|k: Seq<u8>|
                #[trigger] old(self).bids_storage.table().dom().contains(k) ==> (final(self).bids_storage.table()[k] matches BagState::Confirmed(e2) ==> !seq_has_hash(
                    ri.discarded_blocks@,
                    e2.proof.btc_block@,
                ))),
            ({
                let v = old(self).btc_client.chain_view();
                forall|k: Seq<u8>|
                    #[trigger] old(self).bids_storage.table().dom().contains(k) ==> (final(self).bids_storage.table()[k] == old(self).bids_storage.table()[k] || final(self).bids_storage.table()[k] is Unconfirmed || (final(self).bids_storage.table()[k] matches BagState::Confirmed(e) && (
                    e.proof.tx.bag_id@ == k && scanned_in_range(v, -1, v.tip_height(), e))))
            }),
            r matches Ok(or) ==> ({
                let v = old(self).btc_client.chain_view();
                let dom = old(self).bids_storage.table().dom();
                let lo = match or {
                    Some(ri) => ri.height_when_fork as int,
                    None => old(self).current_height as int,
                };
                forall|k: Seq<u8>|
                    #![trigger range_confirms_bag(v, dom, lo, v.tip_height(), k)]
                    range_confirms_bag(v, dom, lo, v.tip_height(), k) ==> (final(self).bids_storage.table()[k] matches BagState::Confirmed(e) && (
                    e.proof.tx.bag_id@ == k && scanned_in_range(v, lo, v.tip_height(), e)))
            }),
    {
        let ghost v = self.btc_client.chain_view();
        let ghost t0 = self.bids_storage.table();
        let new_btc_info = match self.btc_client.get_blockchain_info() {
            Ok(i) => i,
            Err(e) => {
                return Err(TrackerError::ClientError(e));
            },
        };
        let new_height = new_btc_info.blocks;
        let walk = match self.check_btc_for_reorgs() {
            Ok(x) => x,
            Err(e) => {
                return Err(e);
            },
        };
        let reorg = match walk {
            Some(ri) => {
                match self.remove_btc_blocks_when_fork(&ri) {
                    Ok(()) => {},
                    Err(e) => {
                        return Err(TrackerError::StorageError(e));
                    },
                }
                proof {
                    crate::bitcoin_client::lemma_lookup_main(v, ri.fork_root@);
                }
                self.current_height = ri.height_when_fork;
                self.current_tip = ri.fork_root;
                Some(ri)
            },
            None => {
                if new_height < self.current_height {
                    // The node reports a shorter chain, yet the tip is still
                    // canonical: an operational anomaly, surfaced rather than
                    // silently absorbed.
                    return Err(
                        TrackerError::ClientError(
                            ClientError::new(
                                "chain height went backward without a reorganization".to_owned(),
                            ),
                        ),
                    );
                }
                None
            },
        };
        let ghost t1 = self.bids_storage.table();
        let ghost mid_height = self.current_height;
        let cur = self.current_height;
        match self.add_btc_blocks(cur, new_height) {
            Ok(()) => {},
            Err(e) => {
                proof {
                    self.lemma_check_reorgs_final(v, t0, t1, cur as int, new_height as int, &reorg);
                }
                return Err(e);
            },
        }
        proof {
            self.lemma_check_reorgs_final(v, t0, t1, cur as int, new_height as int, &reorg);
            if new_height > cur {
            } else {
                if reorg is Some {
                    let ri = reorg->Some_0;
                    crate::bitcoin_client::lemma_lookup_main(v, ri.fork_root@);
                } else {
                    crate::bitcoin_client::lemma_lookup_main(v, old(self).current_tip@);
                }
                assert(cur <= v.tip_height());
                assert(cur == new_height);
            }
            if old(self).current_height as int == v.tip_height() && old(self).current_tip@
                == v.chain.last().hash@ {
                assert(v.chain[v.chain.len() - 1].hash@ == old(self).current_tip@);
                assert(v.in_main(old(self).current_tip@));
                assert(reorg is None);
                assert(t1 == t0);
                assert forall|k: Seq<u8>| #[trigger] t0.dom().contains(k) implies self
                    .bids_storage.table()[k] == t0[k] by {
                    if self.bids_storage.table()[k] != t1[k] {
                        match self.bids_storage.table()[k] {
                            BagState::Confirmed(e2) => {
                                assert(scanned_in_range(v, cur as int, new_height as int, e2));
                                let h = choose|h: int|
                                    cur < h <= new_height && 0 <= h < v.chain.len() && (
                                    #[trigger] v.chain[h]).hash == e2.proof.btc_block
                                        && tx_witnesses(v.chain[h].txs, e2);
                                assert(false);
                            },
                            BagState::Unconfirmed => {},
                        }
                    }
                }
                assert(self.bids_storage.table() =~= t0);
            }
        }
        Ok(reorg)
    }

    /// Combine the effect of the demotion sweep and the forward scan into
    /// the relational clauses that `check_reorgs` promises of the storage.
    proof fn lemma_check_reorgs_final(
        &self,
        v: ChainView,
        t0: Map<Seq<u8>, BagState>,
        t1: Map<Seq<u8>, BagState>,
        lo: int,
        hi: int,
        reorg: &Option<ReorgInfo>,
    )
        requires
            v.wf(),
            0 <= lo,
            hi <= v.tip_height(),
            t1.dom() == t0.dom(),
            match reorg {
                Some(ri) => t1 == demote_seq(t0, ri.discarded_blocks@) && (forall|d: int|
                    0 <= d < ri.discarded_blocks@.len() ==> !v.in_main(
                        (#[trigger] ri.discarded_blocks@[d])@,
                    )),
                None => t1 == t0,
            },
            self.bids_storage.table().dom() == t1.dom(),
            forall|k: Seq<u8>|
                #[trigger] t1.dom().contains(k) ==> (self.bids_storage.table()[k] == t1[k] || (
                self.bids_storage.table()[k] matches BagState::Confirmed(e) && (
                e.proof.tx.bag_id@ == k && scanned_in_range(v, lo, hi, e)))),
        ensures
            forall|k: Seq<u8>|
                #[trigger] t0.dom().contains(k) ==> (self.bids_storage.table()[k] == t0[k]
                    || self.bids_storage.table()[k] is Unconfirmed || (
                self.bids_storage.table()[k] matches BagState::Confirmed(e) && (
                e.proof.tx.bag_id@ == k && scanned_in_range(v, -1, v.tip_height(), e)))),
            reorg matches Some(ri) ==> (forall|k: Seq<u8>|
                #[trigger] t0.dom().contains(k) ==> ((t0[k] matches BagState::Confirmed(e)
                    && seq_has_hash(ri.discarded_blocks@, e.proof.btc_block@)) ==> (
                self.bids_storage.table()[k] is Unconfirmed || (
                self.bids_storage.table()[k] matches BagState::Confirmed(e2) && v.in_main(
                    e2.proof.btc_block@,
                ))))),
            reorg matches Some(ri) ==> (forall|k: Seq<u8>|
                #[trigger] t0.dom().contains(k) ==> (
                self.bids_storage.table()[k] matches BagState::Confirmed(e2) ==> !seq_has_hash(
                    ri.discarded_blocks@,
                    e2.proof.btc_block@,
                ))),
    {
        let t2 = self.bids_storage.table();
        match reorg {
            Some(ri) => {
                lemma_demote_seq_at(t0, ri.discarded_blocks@);
            },
            None => {},
        }
        assert forall|k: Seq<u8>| #[trigger] t0.dom().contains(k) implies (t2[k] == t0[k]
            || t2[k] is Unconfirmed || (t2[k] matches BagState::Confirmed(e) && (
        e.proof.tx.bag_id@ == k && scanned_in_range(v, -1, v.tip_height(), e)))) by {
            if t2[k] == t1[k] {
                match reorg {
                    Some(_) => {},
                    None => {},
                }
            } else {
                match t2[k] {
                    BagState::Confirmed(e) => {
                        lemma_scanned_range_widen(v, lo, hi, -1, v.tip_height(), e);
                    },
                    BagState::Unconfirmed => {},
                }
            }
        }
        match reorg {
            Some(ri) => {
                assert forall|k: Seq<u8>| #[trigger] t0.dom().contains(k) implies ((
                t0[k] matches BagState::Confirmed(e) && seq_has_hash(
                    ri.discarded_blocks@,
                    e.proof.btc_block@,
                )) ==> (t2[k] is Unconfirmed || (t2[k] matches BagState::Confirmed(e2)
                    && v.in_main(e2.proof.btc_block@)))) by {
                    if t0[k] matches BagState::Confirmed(e) && seq_has_hash(
                        ri.discarded_blocks@,
                        e.proof.btc_block@,
                    ) {
                        assert(t1[k] is Unconfirmed);
                        if t2[k] != t1[k] {
                            match t2[k] {
                                BagState::Confirmed(e2) => {
                                    let h = choose|h: int|
                                        lo < h <= hi && 0 <= h < v.chain.len() && (
                                        #[trigger] v.chain[h]).hash == e2.proof.btc_block
                                            && tx_witnesses(v.chain[h].txs, e2);
                                    assert(v.chain[h].hash@ == e2.proof.btc_block@);
                                    assert(v.in_main(e2.proof.btc_block@));
                                },
                                BagState::Unconfirmed => {},
                            }
                        }
                    }
                }
                assert forall|k: Seq<u8>| #[trigger] t0.dom().contains(k) implies (
                t2[k] matches BagState::Confirmed(e2) ==> !seq_has_hash(
                    ri.discarded_blocks@,
                    e2.proof.btc_block@,
                )) by {
                    match t2[k] {
                        BagState::Confirmed(e2) => {
                            if t2[k] == t1[k] {
                                assert(!seq_has_hash(ri.discarded_blocks@, e2.proof.btc_block@));
                            } else {
                                let h = choose|h: int|
                                    lo < h <= hi && 0 <= h < v.chain.len() && (
                                    #[trigger] v.chain[h]).hash == e2.proof.btc_block
                                        && tx_witnesses(v.chain[h].txs, e2);
                                assert(v.chain[h].hash@ == e2.proof.btc_block@);
                                assert(v.in_main(e2.proof.btc_block@));
                                if seq_has_hash(ri.discarded_blocks@, e2.proof.btc_block@) {
                                    reveal(seq_has_hash);
                                    let d = choose|d: int|
                                        0 <= d < ri.discarded_blocks@.len() && (
                                        #[trigger] ri.discarded_blocks@[d])@
                                            == e2.proof.btc_block@;
                                    assert(!v.in_main(ri.discarded_blocks@[d]@));
                                    assert(false);
                                }
                            }
                        },
                        BagState::Unconfirmed => {},
                    }
                }
            },
            None => {},
        }
    }

    /// The tracker's storage, for inspection.
    pub fn get_storage(&self) -> (r: &S)
        ensures
            r == &self.bids_storage,
    {
        &self.bids_storage
    }

    /// The tracker's chain client.
    pub fn btc_client(&self) -> (r: &C)
        ensures
            r == &self.btc_client,
    {
        &self.btc_client
    }

    /// Height of the last block the tracker has processed.
    pub fn current_height(&self) -> (r: u64)
        ensures
            r == self.current_height,
    {
        self.current_height
    }

    /// Hash of the last block the tracker has processed.
    pub fn current_tip(&self) -> (r: &BlockHash)
        ensures
            r == &self.current_tip,
    {
        &self.current_tip
    }
}

} // verus!
