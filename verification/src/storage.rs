use vstd::prelude::*;

use crate::bag_id::BagId;
use crate::record::{BidEntry, BlockHash};

verus! {

/// The stored state of one bag: registered by the operator but not yet
/// witnessed on chain, or confirmed by a bid entry whose proof names a block.
#[derive(Debug, Clone, Copy)]
pub enum BagState {
    Unconfirmed,
    Confirmed(BidEntry),
}

/// Errors surfaced by a [`BidStorage`] backend.
#[derive(Debug, Clone)]
pub enum BidStorageError {
    /// The operation referenced a bag id with no record in the storage.
    BagDoesNotExists(BagId),
    /// `insert_bid` was asked to create a record for a bag id that already has one.
    BagAlreadyExists(BagId),
    /// A persisted row cannot be decoded into a bid entry.
    WrongFormat,
    /// A backend-specific failure.
    Other(String),
}

/// What demotion does to a single stored state: a confirmation witnessed by
/// block `h` reverts to `Unconfirmed`; everything else is untouched.
pub open spec fn demote_state(st: BagState, h: Seq<u8>) -> BagState {
    match st {
        BagState::Confirmed(e) => if e.proof.btc_block@ == h {
            BagState::Unconfirmed
        } else {
            st
        },
        BagState::Unconfirmed => st,
    }
}

/// The table after every confirmation witnessed by block `h` is demoted.
pub open spec fn demote_confirmations(m: Map<Seq<u8>, BagState>, h: Seq<u8>) -> Map<
    Seq<u8>,
    BagState,
> {
    Map::new(|k: Seq<u8>| m.dom().contains(k), |k: Seq<u8>| demote_state(m[k], h))
}

/// The set of distinct block hashes appearing in any confirmed record.
pub open spec fn confirmed_blocks(m: Map<Seq<u8>, BagState>) -> Set<Seq<u8>> {
    Set::new(
        |h: Seq<u8>|
            exists|k: Seq<u8>|
                #[trigger] m.dom().contains(k) && (m[k] matches BagState::Confirmed(e)
                    && e.proof.btc_block@ == h),
    )
}

/// Every confirmed record is stored under its own bag id.
pub open spec fn table_bags_ok(m: Map<Seq<u8>, BagState>) -> bool {
    forall|k: Seq<u8>|
        #[trigger] m.dom().contains(k) ==> (m[k] matches BagState::Confirmed(e)
            ==> e.proof.tx.bag_id@ == k)
}

/// A storage that keeps at most one record per bag id, unconfirmed or confirmed.
///
/// The model of a storage is [`BidStorage::table`], a map from bag id bytes to
/// the stored state. Every operation is atomic: it performs the documented
/// update on the table, or fails and leaves the table unchanged.
pub trait BidStorage: Sized {
    /// Backend well-formedness, established by the constructor and preserved
    /// by every operation.
    spec fn inv(&self) -> bool;

    /// The stored records: bag id bytes -> state.
    spec fn table(&self) -> Map<Seq<u8>, BagState>;

    /// Create a new `Confirmed` record. Fails `BagAlreadyExists` when any
    /// record with this bag id exists.
    fn insert_bid(&mut self, record: BidEntry) -> (r: Result<(), BidStorageError>)
        requires
            old(self).inv(),
        ensures
            final(self).inv(),
            match r {
                Ok(()) => !old(self).table().dom().contains(record.proof.tx.bag_id@) && final(self).table() == old(self).table().insert(
                    record.proof.tx.bag_id@,
                    BagState::Confirmed(record),
                ),
                Err(BidStorageError::BagAlreadyExists(b)) => b == record.proof.tx.bag_id && old(self).table().dom().contains(record.proof.tx.bag_id@) && final(self).table() == old(self).table(),
                Err(BidStorageError::Other(_)) => final(self).table() == old(self).table(),
                Err(_) => false,
            },
    ;

    /// Record a bag as `Unconfirmed`. When any record with this bag id
    /// already exists the call is a no-op on the existing state.
    fn insert_unconfirmed_bag(&mut self, bag: BagId) -> (r: Result<(), BidStorageError>)
        requires
            old(self).inv(),
        ensures
            final(self).inv(),
            match r {
                Ok(()) => final(self).table() == if old(self).table().dom().contains(bag@) {
                    old(self).table()
                } else {
                    old(self).table().insert(bag@, BagState::Unconfirmed)
                },
                Err(BidStorageError::Other(_)) => final(self).table() == old(self).table(),
                Err(_) => false,
            },
    ;

    /// Promote the existing record for `record.proof.tx.bag_id` (unconfirmed
    /// or confirmed) to `Confirmed(record)`. Fails `BagDoesNotExists` when no
    /// record with this bag id exists.
    fn update_bid(&mut self, record: BidEntry) -> (r: Result<(), BidStorageError>)
        requires
            old(self).inv(),
        ensures
            final(self).inv(),
            match r {
                Ok(()) => old(self).table().dom().contains(record.proof.tx.bag_id@) && final(self).table() == old(self).table().insert(
                    record.proof.tx.bag_id@,
                    BagState::Confirmed(record),
                ),
                Err(BidStorageError::BagDoesNotExists(b)) => b == record.proof.tx.bag_id && !old(self).table().dom().contains(record.proof.tx.bag_id@) && final(self).table() == old(self).table(),
                Err(BidStorageError::Other(_)) => final(self).table() == old(self).table(),
                Err(_) => false,
            },
    ;

    /// Demote every confirmed record whose proof block hash equals `hash`
    /// back to `Unconfirmed`. Never fails on missing matches.
    fn remove_confirmation_with_block_hash(&mut self, hash: &BlockHash) -> (r: Result<
        (),
        BidStorageError,
    >)
        requires
            old(self).inv(),
        ensures
            final(self).inv(),
            match r {
                Ok(()) => final(self).table() == demote_confirmations(old(self).table(), hash@),
                Err(BidStorageError::Other(_)) => final(self).table() == old(self).table(),
                Err(_) => false,
            },
    ;

    /// Delete the record for `bag` entirely, whether confirmed or not.
    /// Fails `BagDoesNotExists` when no record with this bag id exists.
    fn remove_bag(&mut self, bag: &BagId) -> (r: Result<(), BidStorageError>)
        requires
            old(self).inv(),
        ensures
            final(self).inv(),
            match r {
                Ok(()) => old(self).table().dom().contains(bag@) && final(self).table() == old(self).table().remove(bag@),
                Err(BidStorageError::BagDoesNotExists(b)) => b == *bag && !old(self).table().dom().contains(bag@) && final(self).table() == old(self).table(),
                Err(BidStorageError::Other(_)) => final(self).table() == old(self).table(),
                Err(_) => false,
            },
    ;

    /// Count of distinct block hashes appearing in any confirmed record.
    fn get_blocks_count(&self) -> (r: Result<u64, BidStorageError>)
        requires
            self.inv(),
        ensures
            match r {
                Ok(n) => n as nat == confirmed_blocks(self.table()).len(),
                Err(BidStorageError::Other(_)) => true,
                Err(_) => false,
            },
    ;

    /// The confirmed records whose proof block hash equals `hash`: each
    /// returned entry is stored under its own bag id, every stored entry
    /// witnessed by `hash` is returned, and no bag id repeats.
    fn get_records_by_block_hash(&self, hash: &BlockHash) -> (r: Result<
        Vec<BidEntry>,
        BidStorageError,
    >)
        requires
            self.inv(),
        ensures
            match r {
                Ok(v) => (forall|i: int|
                    0 <= i < v@.len() ==> {
                        &&& self.table().dom().contains((#[trigger] v@[i]).proof.tx.bag_id@)
                        &&& self.table()[v@[i].proof.tx.bag_id@] == BagState::Confirmed(v@[i])
                        &&& v@[i].proof.btc_block@ == hash@
                    }) && (forall|k: Seq<u8>|
                    #[trigger] self.table().dom().contains(k) ==> match self.table()[k] {
                        BagState::Confirmed(e) => e.proof.btc_block@ == hash@ ==> exists|i: int|
                            0 <= i < v@.len() && v@[i] == e,
                        BagState::Unconfirmed => true,
                    }) && (forall|i: int, j: int|
                    0 <= i < j < v@.len() ==> (#[trigger] v@[i]).proof.tx.bag_id@ != (
                    #[trigger] v@[j]).proof.tx.bag_id@),
                Err(BidStorageError::BagDoesNotExists(_)) => false,
                Err(BidStorageError::BagAlreadyExists(_)) => false,
                Err(_) => true,
            },
    ;

    /// Membership test: is there any record (either state) for `bag`?
    fn is_bag_exists(&self, bag: &BagId) -> (r: Result<bool, BidStorageError>)
        requires
            self.inv(),
        ensures
            match r {
                Ok(b) => b <==> self.table().dom().contains(bag@),
                Err(BidStorageError::Other(_)) => true,
                Err(_) => false,
            },
    ;
}

/// The finite map held by a sequence of rows keyed by bag id; later rows win,
/// though under [`bags_distinct`] every key occurs at most once.
pub open spec fn bag_map<V>(rows: Seq<(BagId, V)>) -> Map<Seq<u8>, V>
    decreases rows.len(),
{
    if rows.len() == 0 {
        Map::empty()
    } else {
        bag_map(rows.drop_last()).insert(rows.last().0@, rows.last().1)
    }
}

/// The bag ids of the rows are pairwise distinct.
pub open spec fn bags_distinct<V>(rows: Seq<(BagId, V)>) -> bool {
    forall|i: int, j: int|
        0 <= i < j < rows.len() ==> (#[trigger] rows[i]).0@ != (#[trigger] rows[j]).0@
}

/// Under [`bags_distinct`], [`bag_map`] is the evident finite map: its domain
/// is exactly the row keys, each key maps to its row's value, and its size is
/// the number of rows.
pub proof fn lemma_bag_map_props<V>(rows: Seq<(BagId, V)>)
    requires
        bags_distinct(rows),
    ensures
        bag_map(rows).dom().finite(),
        bag_map(rows).dom().len() == rows.len(),
        forall|i: int|
            0 <= i < rows.len() ==> bag_map(rows).dom().contains((#[trigger] rows[i]).0@),
        forall|i: int| 0 <= i < rows.len() ==> bag_map(rows)[(#[trigger] rows[i]).0@] == rows[i].1,
        forall|k: Seq<u8>|
            #[trigger] bag_map(rows).dom().contains(k) ==> exists|i: int|
                0 <= i < rows.len() && (#[trigger] rows[i]).0@ == k,
    decreases rows.len(),
{
    if rows.len() > 0 {
        let prefix = rows.drop_last();
        lemma_bag_map_props(prefix);
        assert(!bag_map(prefix).dom().contains(rows.last().0@)) by {
            if bag_map(prefix).dom().contains(rows.last().0@) {
                let i = choose|i: int|
                    0 <= i < prefix.len() && (#[trigger] prefix[i]).0@ == rows.last().0@;
                assert(rows[i].0@ == rows[rows.len() - 1].0@);
            }
        }
        assert forall|i: int| 0 <= i < rows.len() implies bag_map(rows).dom().contains(
            (#[trigger] rows[i]).0@,
        ) && bag_map(rows)[rows[i].0@] == rows[i].1 by {
            if i < rows.len() - 1 {
                assert(prefix[i] == rows[i]);
                assert(rows[i].0@ != rows.last().0@);
            }
        }
        assert forall|k: Seq<u8>| #[trigger] bag_map(rows).dom().contains(k) implies exists|i: int|
            0 <= i < rows.len() && (#[trigger] rows[i]).0@ == k by {
            if k == rows.last().0@ {
                assert(rows[rows.len() - 1].0@ == k);
            } else {
                assert(bag_map(prefix).dom().contains(k));
                let i = choose|i: int| 0 <= i < prefix.len() && (#[trigger] prefix[i]).0@ == k;
                assert(rows[i].0@ == k);
            }
        }
    }
}

/// Appending a row with a fresh bag id inserts its binding into [`bag_map`].
pub proof fn lemma_bag_map_push<V>(rows: Seq<(BagId, V)>, bag: BagId, v: V)
    requires
        bags_distinct(rows),
        forall|i: int| 0 <= i < rows.len() ==> (#[trigger] rows[i]).0@ != bag@,
    ensures
        bags_distinct(rows.push((bag, v))),
        bag_map(rows.push((bag, v))) == bag_map(rows).insert(bag@, v),
{
    let rows2 = rows.push((bag, v));
    assert(rows2.drop_last() =~= rows);
    assert(rows2.last() == (bag, v));
    assert forall|i: int, j: int| 0 <= i < j < rows2.len() implies (#[trigger] rows2[i]).0@ != (
    #[trigger] rows2[j]).0@ by {
        if j < rows2.len() - 1 {
            assert(rows2[i] == rows[i] && rows2[j] == rows[j]);
        } else {
            assert(rows2[i] == rows[i] && rows2[j] == (bag, v));
        }
    }
}

/// Removing row `i` removes its binding from [`bag_map`].
pub proof fn lemma_bag_map_remove<V>(rows: Seq<(BagId, V)>, i: int)
    requires
        bags_distinct(rows),
        0 <= i < rows.len(),
    ensures
        bags_distinct(rows.remove(i)),
        bag_map(rows.remove(i)) == bag_map(rows).remove(rows[i].0@),
    decreases rows.len(),
{
    lemma_bag_map_props(rows);
    let rest = rows.remove(i);
    assert forall|a: int, b: int| 0 <= a < b < rest.len() implies (#[trigger] rest[a]).0@ != (
    #[trigger] rest[b]).0@ by {
        let a0 = if a < i {
            a
        } else {
            a + 1
        };
        let b0 = if b < i {
            b
        } else {
            b + 1
        };
        assert(rest[a] == rows[a0] && rest[b] == rows[b0]);
    }
    if i == rows.len() - 1 {
        assert(rest =~= rows.drop_last());
        lemma_bag_map_props(rows.drop_last());
        assert(bag_map(rest) =~= bag_map(rows).remove(rows[i].0@));
    } else {
        let prefix = rows.drop_last();
        lemma_bag_map_remove(prefix, i);
        assert(rest.drop_last() =~= prefix.remove(i));
        assert(rest.last() == rows.last());
        assert(bag_map(rest) == bag_map(prefix.remove(i)).insert(
            rows.last().0@,
            rows.last().1,
        ));
        assert(rows[i].0@ != rows.last().0@);
        assert(bag_map(rest) =~= bag_map(rows).remove(rows[i].0@));
    }
}

/// Replacing the value of row `i`, keeping its bag id, updates its binding in
/// [`bag_map`].
pub proof fn lemma_bag_map_update<V>(rows: Seq<(BagId, V)>, i: int, v: V)
    requires
        bags_distinct(rows),
        0 <= i < rows.len(),
    ensures
        bags_distinct(rows.update(i, (rows[i].0, v))),
        bag_map(rows.update(i, (rows[i].0, v))) == bag_map(rows).insert(rows[i].0@, v),
    decreases rows.len(),
{
    lemma_bag_map_props(rows);
    let rows2 = rows.update(i, (rows[i].0, v));
    assert(rows2[i].0@ == rows[i].0@);
    assert forall|a: int, b: int| 0 <= a < b < rows2.len() implies (#[trigger] rows2[a]).0@ != (
    #[trigger] rows2[b]).0@ by {
        assert(rows2[a].0@ == rows[a].0@ && rows2[b].0@ == rows[b].0@);
    }
    if i == rows.len() - 1 {
        assert(rows2.drop_last() =~= rows.drop_last());
        assert(rows2.last() == (rows[i].0, v));
        assert(bag_map(rows2) =~= bag_map(rows).insert(rows[i].0@, v));
    } else {
        let prefix = rows.drop_last();
        lemma_bag_map_update(prefix, i, v);
        assert(rows2.drop_last() =~= prefix.update(i, (prefix[i].0, v)));
        assert(rows2.last() == rows.last());
        assert(rows[i].0@ != rows.last().0@);
        assert(bag_map(rows2) =~= bag_map(rows).insert(rows[i].0@, v));
    }
}

/// A pointwise value transform of the rows maps [`bag_map`] through `f`.
pub proof fn lemma_bag_map_transform<V>(
    rows: Seq<(BagId, V)>,
    rows2: Seq<(BagId, V)>,
    f: spec_fn(V) -> V,
)
    requires
        bags_distinct(rows),
        rows2.len() == rows.len(),
        forall|i: int| 0 <= i < rows.len() ==> #[trigger] rows2[i] == (rows[i].0, f(rows[i].1)),
    ensures
        bags_distinct(rows2),
        bag_map(rows2) == bag_map(rows).map_values(f),
    decreases rows.len(),
{
    assert forall|a: int, b: int| 0 <= a < b < rows2.len() implies (#[trigger] rows2[a]).0@ != (
    #[trigger] rows2[b]).0@ by {
        assert(rows2[a].0@ == rows[a].0@ && rows2[b].0@ == rows[b].0@);
    }
    if rows.len() == 0 {
        assert(bag_map(rows2) =~= bag_map(rows).map_values(f));
    } else {
        lemma_bag_map_transform(rows.drop_last(), rows2.drop_last(), f);
        assert(rows2.last() == (rows.last().0, f(rows.last().1)));
        assert(bag_map(rows2) == bag_map(rows2.drop_last()).insert(
            rows.last().0@,
            f(rows.last().1),
        ));
        assert(bag_map(rows2) =~= bag_map(rows).map_values(f));
    }
}

/// In-memory reference implementation of [`BidStorage`].
///
/// Keeps one row per bag id in insertion order. The bag ids of the rows are
/// pairwise distinct, so the row list denotes the finite map [`bag_map`].
#[derive(Debug)]
pub struct MemoryIndexStorage {
    rows: Vec<(BagId, BagState)>,
}

impl MemoryIndexStorage {
    pub fn new() -> (r: Self)
        ensures
            r.inv(),
            r.table() == Map::<Seq<u8>, BagState>::empty(),
    {
        MemoryIndexStorage { rows: Vec::new() }
    }

    /// The index of the row holding `bag`, if any.
    fn find_row(&self, bag: &BagId) -> (r: Option<usize>)
        ensures
            match r {
                Some(i) => i < self.rows@.len() && self.rows@[i as int].0@ == bag@,
                None => forall|i: int|
                    0 <= i < self.rows@.len() ==> (#[trigger] self.rows@[i]).0@ != bag@,
            },
    {
        let n = self.rows.len();
        let mut i: usize = 0;
        while i < n
            invariant
                i <= n,
                n == self.rows@.len(),
                forall|j: int| 0 <= j < i ==> (#[trigger] self.rows@[j]).0@ != bag@,
            decreases n - i,
        {
            if self.rows[i].0.eq_id(bag) {
                return Some(i);
            }
            i = i + 1;
        }
        None
    }

    /// Does the storage hold a confirmed record for `bag`?
    pub fn is_bag_confirmed(&self, bag: &BagId) -> (r: Result<bool, BidStorageError>)
        requires
            self.inv(),
        ensures
            r matches Ok(b) && (b <==> (self.table().dom().contains(bag@) && self.table()[bag@]
                is Confirmed)),
    {
        proof {
            lemma_bag_map_props(self.rows@);
        }
        match self.find_row(bag) {
            Some(i) => {
                let row = self.rows[i];
                match row.1 {
                    BagState::Confirmed(_) => Ok(true),
                    BagState::Unconfirmed => Ok(false),
                }
            },
            None => Ok(false),
        }
    }
}

/// Some row with index below `upto` is confirmed with proof block `h`.
///
/// Kept opaque: the existential is only opened inside the proofs that need a
/// witness, which keeps the solver from chasing it.
#[verifier::opaque]
pub open spec fn block_confirmed_in(rows: Seq<(BagId, BagState)>, upto: int, h: Seq<u8>) -> bool {
    exists|j: int|
        0 <= j < upto && ((#[trigger] rows[j]).1 matches BagState::Confirmed(e)
            && e.proof.btc_block@ == h)
}

/// Some element of `seen` has bytes `h`. Kept opaque for the same reason as
/// [`block_confirmed_in`].
#[verifier::opaque]
pub open spec fn seq_has_hash(seen: Seq<BlockHash>, h: Seq<u8>) -> bool {
    exists|a: int| 0 <= a < seen.len() && (#[trigger] seen[a])@ == h
}

/// Does `seen` hold a hash with the same bytes as `h`?
fn contains_hash(seen: &Vec<BlockHash>, h: &BlockHash) -> (r: bool)
    ensures
        r <==> seq_has_hash(seen@, h@),
{
    let m = seen.len();
    let mut a: usize = 0;
    while a < m
        invariant
            a <= m,
            m == seen@.len(),
            forall|b: int| 0 <= b < a ==> (#[trigger] seen@[b])@ != h@,
        decreases m - a,
    {
        if seen[a].eq_hash(h) {
            proof {
                reveal(seq_has_hash);
                assert(seen@[a as int]@ == h@);
            }
            return true;
        }
        a = a + 1;
    }
    proof {
        reveal(seq_has_hash);
    }
    false
}

impl BidStorage for MemoryIndexStorage {
    closed spec fn inv(&self) -> bool {
        &&& bags_distinct(self.rows@)
        &&& forall|i: int|
            0 <= i < self.rows@.len() ==> match (#[trigger] self.rows@[i]).1 {
                BagState::Confirmed(e) => e.proof.tx.bag_id@ == self.rows@[i].0@,
                BagState::Unconfirmed => true,
            }
    }

    closed spec fn table(&self) -> Map<Seq<u8>, BagState> {
        bag_map(self.rows@)
    }

    fn insert_bid(&mut self, record: BidEntry) -> (r: Result<(), BidStorageError>) {
        let bag = record.proof.tx.bag_id;
        match self.find_row(&bag) {
            Some(_) => {
                proof {
                    lemma_bag_map_props(self.rows@);
                }
                Err(BidStorageError::BagAlreadyExists(bag))
            },
            None => {
                proof {
                    lemma_bag_map_props(self.rows@);
                    lemma_bag_map_push(self.rows@, bag, BagState::Confirmed(record));
                }
                self.rows.push((bag, BagState::Confirmed(record)));
                Ok(())
            },
        }
    }

    fn insert_unconfirmed_bag(&mut self, bag: BagId) -> (r: Result<(), BidStorageError>) {
        match self.find_row(&bag) {
            Some(_) => {
                proof {
                    lemma_bag_map_props(self.rows@);
                }
                Ok(())
            },
            None => {
                proof {
                    lemma_bag_map_props(self.rows@);
                    lemma_bag_map_push(self.rows@, bag, BagState::Unconfirmed);
                }
                self.rows.push((bag, BagState::Unconfirmed));
                Ok(())
            },
        }
    }

    fn update_bid(&mut self, record: BidEntry) -> (r: Result<(), BidStorageError>) {
        let bag = record.proof.tx.bag_id;
        match self.find_row(&bag) {
            Some(i) => {
                let key = self.rows[i].0;
                proof {
                    lemma_bag_map_props(self.rows@);
                    lemma_bag_map_update(self.rows@, i as int, BagState::Confirmed(record));
                }
                self.rows[i] = (key, BagState::Confirmed(record));
                Ok(())
            },
            None => {
                proof {
                    lemma_bag_map_props(self.rows@);
                }
                Err(BidStorageError::BagDoesNotExists(bag))
            },
        }
    }

    fn remove_confirmation_with_block_hash(&mut self, hash: &BlockHash) -> (r: Result<
        (),
        BidStorageError,
    >) {
        let ghost rows0 = self.rows@;
        let n = self.rows.len();
        let mut out: Vec<(BagId, BagState)> = Vec::new();
        let mut i: usize = 0;
        while i < n
            invariant
                i <= n,
                n == rows0.len(),
                self.rows@ == rows0,
                out@.len() == i,
                forall|j: int|
                    0 <= j < i ==> #[trigger] out@[j] == (
                        rows0[j].0,
                        demote_state(rows0[j].1, hash@),
                    ),
            decreases n - i,
        {
            let row = self.rows[i];
            let demoted = match row.1 {
                BagState::Confirmed(e) => {
                    if e.proof.btc_block.eq_hash(hash) {
                        BagState::Unconfirmed
                    } else {
                        row.1
                    }
                },
                BagState::Unconfirmed => row.1,
            };
            out.push((row.0, demoted));
            i = i + 1;
        }
        proof {
            lemma_bag_map_transform(rows0, out@, |v: BagState| demote_state(v, hash@));
            lemma_bag_map_props(rows0);
            assert(bag_map(out@) =~= demote_confirmations(bag_map(rows0), hash@));
        }
        self.rows = out;
        Ok(())
    }

    fn remove_bag(&mut self, bag: &BagId) -> (r: Result<(), BidStorageError>) {
        match self.find_row(bag) {
            Some(i) => {
                proof {
                    lemma_bag_map_props(self.rows@);
                    lemma_bag_map_remove(self.rows@, i as int);
                    assert(bag_map(self.rows@).remove(self.rows@[i as int].0@) =~= bag_map(
                        self.rows@,
                    ).remove(bag@));
                }
                self.rows.remove(i);
                Ok(())
            },
            None => {
                proof {
                    lemma_bag_map_props(self.rows@);
                }
                Err(BidStorageError::BagDoesNotExists(*bag))
            },
        }
    }

    #[verifier::rlimit(60)]
    fn get_blocks_count(&self) -> (r: Result<u64, BidStorageError>) {
        proof {
            lemma_bag_map_props(self.rows@);
        }
        let n = self.rows.len();
        let mut seen: Vec<BlockHash> = Vec::new();
        let mut i: usize = 0;
        while i < n
            invariant
                i <= n,
                n == self.rows@.len(),
                self.inv(),
                forall|a: int, b: int|
                    0 <= a < b < seen@.len() ==> (#[trigger] seen@[a])@ != (#[trigger] seen@[b])@,
                forall|a: int|
                    0 <= a < seen@.len() ==> block_confirmed_in(
                        self.rows@,
                        i as int,
                        (#[trigger] seen@[a])@,
                    ),
                forall|j: int|
                    0 <= j < i ==> match (#[trigger] self.rows@[j]).1 {
                        BagState::Confirmed(e) => seq_has_hash(seen@, e.proof.btc_block@),
                        BagState::Unconfirmed => true,
                    },
            decreases n - i,
        {
            let ghost seen0 = seen@;
            let row = self.rows[i];
            match row.1 {
                BagState::Confirmed(e) => {
                    let h = e.proof.btc_block;
                    let found = contains_hash(&seen, &h);
                    if !found {
                        seen.push(h);
                    }
                    proof {
                        assert forall|a: int| 0 <= a < seen@.len() implies block_confirmed_in(
                            self.rows@,
                            i + 1,
                            (#[trigger] seen@[a])@,
                        ) by {
                            reveal(block_confirmed_in);
                            if a < seen0.len() {
                                assert(seen@[a] == seen0[a]);
                                assert(block_confirmed_in(self.rows@, i as int, seen0[a]@));
                                let j = choose|j: int|
                                    0 <= j < i && ((#[trigger] self.rows@[j]).1 matches
                                    BagState::Confirmed(e2) && e2.proof.btc_block@ == seen0[a]@);
                                assert(0 <= j < i + 1 && ((self.rows@[j]).1 matches
                                BagState::Confirmed(e2) && e2.proof.btc_block@ == seen@[a]@));
                            } else {
                                assert(seen@[a] == h);
                                assert((self.rows@[i as int]).1 matches BagState::Confirmed(e2)
                                    && e2.proof.btc_block@ == seen@[a]@);
                            }
                        }
                        assert forall|j: int| 0 <= j < i + 1 implies match (
                        #[trigger] self.rows@[j]).1 {
                            BagState::Confirmed(e2) => seq_has_hash(seen@, e2.proof.btc_block@),
                            BagState::Unconfirmed => true,
                        } by {
                            reveal(seq_has_hash);
                            if j == i {
                                if found {
                                    let a = choose|a: int|
                                        0 <= a < seen0.len() && (#[trigger] seen0[a])@ == h@;
                                    assert(seen@[a]@ == h@);
                                } else {
                                    assert(seen@[seen@.len() - 1]@ == h@);
                                }
                            } else {
                                match self.rows@[j].1 {
                                    BagState::Confirmed(e2) => {
                                        assert(seq_has_hash(seen0, e2.proof.btc_block@));
                                        let a = choose|a: int|
                                            0 <= a < seen0.len() && (#[trigger] seen0[a])@
                                                == e2.proof.btc_block@;
                                        assert(seen@[a]@ == e2.proof.btc_block@);
                                    },
                                    BagState::Unconfirmed => {},
                                }
                            }
                        }
                        assert forall|a: int, b: int| 0 <= a < b < seen@.len() implies (
                        #[trigger] seen@[a])@ != (#[trigger] seen@[b])@ by {
                            reveal(seq_has_hash);
                            if b == seen@.len() - 1 && seen@.len() > seen0.len() {
                                assert(seen@[a] == seen0[a]);
                                assert(seen@[b] == h);
                            } else {
                                assert(seen@[a] == seen0[a] && seen@[b] == seen0[b]);
                            }
                        }
                    }
                },
                BagState::Unconfirmed => {
                    proof {
                        assert forall|a: int| 0 <= a < seen@.len() implies block_confirmed_in(
                            self.rows@,
                            i + 1,
                            (#[trigger] seen@[a])@,
                        ) by {
                            reveal(block_confirmed_in);
                            let j = choose|j: int|
                                0 <= j < i && ((#[trigger] self.rows@[j]).1 matches
                                BagState::Confirmed(e2) && e2.proof.btc_block@ == seen@[a]@);
                            assert(0 <= j < i + 1 && ((self.rows@[j]).1 matches
                            BagState::Confirmed(e2) && e2.proof.btc_block@ == seen@[a]@));
                        }
                    }
                },
            }
            i = i + 1;
        }
        proof {
            let views = seen@.map_values(|b: BlockHash| b@);
            assert(views.no_duplicates()) by {
                assert forall|a: int, b: int|
                    0 <= a < views.len() && 0 <= b < views.len() && a != b implies views[a]
                    != views[b] by {
                    assert(views[a] == seen@[a]@ && views[b] == seen@[b]@);
                }
            }
            views.unique_seq_to_set();
            assert(views.to_set() =~= confirmed_blocks(self.table())) by {
                assert forall|h: Seq<u8>| views.to_set().contains(h) implies confirmed_blocks(
                    self.table(),
                ).contains(h) by {
                    reveal(block_confirmed_in);
                    let a = choose|a: int| 0 <= a < views.len() && views[a] == h;
                    assert(seen@[a]@ == h);
                    assert(block_confirmed_in(self.rows@, n as int, seen@[a]@));
                    let j = choose|j: int|
                        0 <= j < self.rows@.len() && ((#[trigger] self.rows@[j]).1 matches
                        BagState::Confirmed(e) && e.proof.btc_block@ == seen@[a]@);
                    assert(self.table().dom().contains(self.rows@[j].0@));
                    assert(self.table()[self.rows@[j].0@] == self.rows@[j].1);
                }
                assert forall|h: Seq<u8>| confirmed_blocks(self.table()).contains(h) implies views
                    .to_set().contains(h) by {
                    reveal(seq_has_hash);
                    let k = choose|k: Seq<u8>|
                        #[trigger] self.table().dom().contains(k) && (
                        self.table()[k] matches BagState::Confirmed(e) && e.proof.btc_block@ == h);
                    let j = choose|j: int|
                        0 <= j < self.rows@.len() && (#[trigger] self.rows@[j]).0@ == k;
                    assert(self.rows@[j].1 == self.table()[k]);
                    assert(seq_has_hash(seen@, h));
                    let a = choose|a: int|
                        0 <= a < seen@.len() && (#[trigger] seen@[a])@ == h;
                    assert(views[a] == h);
                }
            }
        }
        Ok(seen.len() as u64)
    }

    fn get_records_by_block_hash(&self, hash: &BlockHash) -> (r: Result<
        Vec<BidEntry>,
        BidStorageError,
    >) {
        proof {
            lemma_bag_map_props(self.rows@);
        }
        let n = self.rows.len();
        let mut found: Vec<BidEntry> = Vec::new();
        let mut i: usize = 0;
        while i < n
            invariant
                i <= n,
                n == self.rows@.len(),
                self.inv(),
                forall|a: int|
                    #![trigger found@[a]]
                    0 <= a < found@.len() ==> exists|j: int|
                        0 <= j < i && (#[trigger] self.rows@[j]).1 == BagState::Confirmed(
                            found@[a],
                        ) && self.rows@[j].0@ == found@[a].proof.tx.bag_id@,
                forall|a: int|
                    0 <= a < found@.len() ==> (#[trigger] found@[a]).proof.btc_block@ == hash@,
                forall|j: int|
                    0 <= j < i ==> match (#[trigger] self.rows@[j]).1 {
                        BagState::Confirmed(e) => e.proof.btc_block@ == hash@ ==> exists|a: int|
                            0 <= a < found@.len() && found@[a] == e,
                        BagState::Unconfirmed => true,
                    },
                forall|a: int, b: int|
                    0 <= a < b < found@.len() ==> (#[trigger] found@[a]).proof.tx.bag_id@ != (
                    #[trigger] found@[b]).proof.tx.bag_id@,
            decreases n - i,
        {
            let ghost found0 = found@;
            let row = self.rows[i];
            match row.1 {
                BagState::Confirmed(e) => {
                    if e.proof.btc_block.eq_hash(hash) {
                        found.push(e);
                        proof {
                            assert(e.proof.tx.bag_id@ == self.rows@[i as int].0@);
                            assert forall|a: int, b: int| 0 <= a < b < found@.len() implies (
                            #[trigger] found@[a]).proof.tx.bag_id@ != (
                            #[trigger] found@[b]).proof.tx.bag_id@ by {
                                if b == found@.len() - 1 {
                                    assert(found@[a] == found0[a]);
                                    let ja = choose|j: int|
                                        0 <= j < i && (#[trigger] self.rows@[j]).1
                                            == BagState::Confirmed(found0[a]) && self.rows@[j].0@
                                            == found0[a].proof.tx.bag_id@;
                                    assert(self.rows@[ja].0@ != self.rows@[i as int].0@);
                                } else {
                                    assert(found@[a] == found0[a] && found@[b] == found0[b]);
                                }
                            }
                        }
                    }
                },
                BagState::Unconfirmed => {},
            }
            proof {
                assert forall|j: int| 0 <= j < i + 1 implies match (#[trigger] self.rows@[j]).1 {
                    BagState::Confirmed(e2) => e2.proof.btc_block@ == hash@ ==> exists|a: int|
                        0 <= a < found@.len() && found@[a] == e2,
                    BagState::Unconfirmed => true,
                } by {
                    if j < i {
                        match self.rows@[j].1 {
                            BagState::Confirmed(e2) => {
                                if e2.proof.btc_block@ == hash@ {
                                    let a = choose|a: int|
                                        0 <= a < found0.len() && found0[a] == e2;
                                    assert(found@[a] == e2);
                                }
                            },
                            BagState::Unconfirmed => {},
                        }
                    } else {
                        match self.rows@[j].1 {
                            BagState::Confirmed(e2) => {
                                if e2.proof.btc_block@ == hash@ {
                                    assert(found@[found@.len() - 1] == e2);
                                }
                            },
                            BagState::Unconfirmed => {},
                        }
                    }
                }
            }
            i = i + 1;
        }
        proof {
            assert forall|a: int| 0 <= a < found@.len() implies {
                &&& self.table().dom().contains((#[trigger] found@[a]).proof.tx.bag_id@)
                &&& self.table()[found@[a].proof.tx.bag_id@] == BagState::Confirmed(found@[a])
            } by {
                let j = choose|j: int|
                    0 <= j < self.rows@.len() && (#[trigger] self.rows@[j]).1
                        == BagState::Confirmed(found@[a]) && self.rows@[j].0@
                        == found@[a].proof.tx.bag_id@;
                assert(self.table()[self.rows@[j].0@] == self.rows@[j].1);
            }
            assert forall|k: Seq<u8>| #[trigger] self.table().dom().contains(k) implies match self
                .table()[k] {
                BagState::Confirmed(e) => e.proof.btc_block@ == hash@ ==> exists|a: int|
                    0 <= a < found@.len() && found@[a] == e,
                BagState::Unconfirmed => true,
            } by {
                let j = choose|j: int|
                    0 <= j < self.rows@.len() && (#[trigger] self.rows@[j]).0@ == k;
                assert(self.table()[k] == self.rows@[j].1);
            }
        }
        Ok(found)
    }

    fn is_bag_exists(&self, bag: &BagId) -> (r: Result<bool, BidStorageError>) {
        proof {
            lemma_bag_map_props(self.rows@);
        }
        match self.find_row(bag) {
            Some(_) => Ok(true),
            None => Ok(false),
        }
    }
}

} // verus!
