use vstd::prelude::*;

use crate::bag_id::BagId;
use crate::record::{BidProof, BidTx, BlockHash, Outpoint};
use crate::storage::{
    bag_map, bags_distinct, lemma_bag_map_props, lemma_bag_map_push, lemma_bag_map_remove,
    lemma_bag_map_update,
};

verus! {

/// The stored state of one bag in a [`BagMemoryStorage`]: an operator intent
/// not yet witnessed on chain, or a bid proof naming its witness block.
#[derive(Debug, Clone, Copy)]
pub enum BagEntry {
    Unconfirmed(BagId),
    Confirmed(BidProof),
}

/// Errors surfaced by [`BagMemoryStorage`].
#[derive(Debug, Clone, PartialEq)]
pub enum BagMemoryStorageError {
    BagNotExists,
}

/// In-memory storage of bags: one entry per bag id, unconfirmed or
/// confirmed. The model is [`BagMemoryStorage::table`], a map from bag id
/// bytes to the stored entry.
#[derive(Debug)]
pub struct BagMemoryStorage {
    rows: Vec<(BagId, BagEntry)>,
}

impl BagMemoryStorage {
    /// The bag ids of the rows are pairwise distinct.
    pub closed spec fn inv(&self) -> bool {
        bags_distinct(self.rows@)
    }

    /// The stored entries: bag id bytes -> entry.
    pub closed spec fn table(&self) -> Map<Seq<u8>, BagEntry> {
        bag_map(self.rows@)
    }

    pub fn new() -> (r: Self)
        ensures
            r.inv(),
            r.table() == Map::<Seq<u8>, BagEntry>::empty(),
    {
        BagMemoryStorage { rows: Vec::new() }
    }

    /// The index of the row holding `bag`, if any.
    fn find_row(&self, bag: &BagId) -> (r: Option<usize>)
        ensures
            match r {
                Some(i) => i < self.rows@.len() && self.rows@[i as int].0@ == bag@,
                None => forall|i: int|
                    0 <= i < self.rows@.len() ==> (#[trigger] self.rows@[i]).0@ != bag@,
            },
    {
        let n = self.rows.len();
        let mut i: usize = 0;
        while i < n
            invariant
                i <= n,
                n == self.rows@.len(),
                forall|j: int| 0 <= j < i ==> (#[trigger] self.rows@[j]).0@ != bag@,
            decreases n - i,
        {
            if self.rows[i].0.eq_id(bag) {
                return Some(i);
            }
            i = i + 1;
        }
        None
    }

    /// Store `entry` under `bag`, creating or overwriting the row.
    fn upsert(&mut self, bag: BagId, entry: BagEntry)
        requires
            old(self).inv(),
        ensures
            final(self).inv(),
            final(self).table() == old(self).table().insert(bag@, entry),
    {
        match self.find_row(&bag) {
            Some(i) => {
                let key = self.rows[i].0;
                proof {
                    lemma_bag_map_update(self.rows@, i as int, entry);
                }
                self.rows[i] = (key, entry);
            },
            None => {
                proof {
                    lemma_bag_map_push(self.rows@, bag, entry);
                }
                self.rows.push((bag, entry));
            },
        }
    }

    /// Record an operator's intent: the bag exists but is unwitnessed. An
    /// existing entry for the bag is overwritten.
    pub fn insert_unconfirmed_bag(&mut self, bag: BagId) -> (r: Result<(), BagMemoryStorageError>)
        requires
            old(self).inv(),
        ensures
            final(self).inv(),
            r is Ok,
            final(self).table() == old(self).table().insert(bag@, BagEntry::Unconfirmed(bag)),
    {
        self.upsert(bag, BagEntry::Unconfirmed(bag));
        Ok(())
    }

    /// Record a confirmed bag directly from its proof. An existing entry for
    /// the bag is overwritten.
    pub fn insert_confirmed_bag(&mut self, bag: BidProof) -> (r: Result<(), BagMemoryStorageError>)
        requires
            old(self).inv(),
        ensures
            final(self).inv(),
            r is Ok,
            final(self).table() == old(self).table().insert(
                bag.tx.bag_id@,
                BagEntry::Confirmed(bag),
            ),
    {
        self.upsert(bag.tx.bag_id, BagEntry::Confirmed(bag));
        Ok(())
    }

    /// Promote the existing entry for `bag` to confirmed, witnessed by
    /// `btc_block` at `outpoint`. Fails `BagNotExists` when the bag is
    /// unknown.
    pub fn update_confirm_bag(&mut self, bag: &BagId, btc_block: BlockHash, outpoint: Outpoint) -> (r:
        Result<(), BagMemoryStorageError>)
        requires
            old(self).inv(),
        ensures
            final(self).inv(),
            match r {
                Ok(()) => old(self).table().dom().contains(bag@) && final(self).table() == old(
                    self,
                ).table().insert(
                    bag@,
                    BagEntry::Confirmed(
                        BidProof {
                            btc_block,
                            tx: BidTx { outpoint, bag_id: *bag },
                        },
                    ),
                ),
                Err(BagMemoryStorageError::BagNotExists) => !old(self).table().dom().contains(bag@)
                    && final(self).table() == old(self).table(),
            },
    {
        proof {
            lemma_bag_map_props(self.rows@);
        }
        match self.find_row(bag) {
            Some(_) => {
                let proof_entry = BidProof { btc_block, tx: BidTx { outpoint, bag_id: *bag } };
                self.upsert(*bag, BagEntry::Confirmed(proof_entry));
                Ok(())
            },
            None => Err(BagMemoryStorageError::BagNotExists),
        }
    }

    /// Delete the entry for `bag`, whether confirmed or unconfirmed. Fails
    /// `BagNotExists` when the bag is unknown.
    pub fn delete_bag(&mut self, bag: &BagId) -> (r: Result<(), BagMemoryStorageError>)
        requires
            old(self).inv(),
        ensures
            final(self).inv(),
            match r {
                Ok(()) => old(self).table().dom().contains(bag@) && final(self).table() == old(
                    self,
                ).table().remove(bag@),
                Err(BagMemoryStorageError::BagNotExists) => !old(self).table().dom().contains(bag@)
                    && final(self).table() == old(self).table(),
            },
    {
        proof {
            lemma_bag_map_props(self.rows@);
        }
        match self.find_row(bag) {
            Some(i) => {
                proof {
                    lemma_bag_map_remove(self.rows@, i as int);
                    assert(bag_map(self.rows@).remove(self.rows@[i as int].0@) =~= bag_map(
                        self.rows@,
                    ).remove(bag@));
                }
                self.rows.remove(i);
                Ok(())
            },
            None => Err(BagMemoryStorageError::BagNotExists),
        }
    }

    /// Membership test: is there any entry for `bag`?
    pub fn is_bag_exists(&self, bag: &BagId) -> (r: Result<bool, BagMemoryStorageError>)
        requires
            self.inv(),
        ensures
            r matches Ok(b) && (b <==> self.table().dom().contains(bag@)),
    {
        proof {
            lemma_bag_map_props(self.rows@);
        }
        match self.find_row(bag) {
            Some(_) => Ok(true),
            None => Ok(false),
        }
    }

    /// Is the entry for `bag` confirmed? Fails `BagNotExists` when the bag
    /// is unknown.
    pub fn is_bag_confirmed(&self, bag: &BagId) -> (r: Result<bool, BagMemoryStorageError>)
        requires
            self.inv(),
        ensures
            match r {
                Ok(b) => self.table().dom().contains(bag@) && (b <==> self.table()[bag@]
                    is Confirmed),
                Err(BagMemoryStorageError::BagNotExists) => !self.table().dom().contains(bag@),
            },
    {
        proof {
            lemma_bag_map_props(self.rows@);
        }
        match self.find_row(bag) {
            Some(i) => {
                let row = self.rows[i];
                match row.1 {
                    BagEntry::Confirmed(_) => Ok(true),
                    BagEntry::Unconfirmed(_) => Ok(false),
                }
            },
            None => Err(BagMemoryStorageError::BagNotExists),
        }
    }

    /// The number of bags stored, in either state.
    pub fn count_bags(&self) -> (r: Result<u64, BagMemoryStorageError>)
        requires
            self.inv(),
        ensures
            r matches Ok(n) && n as nat == self.table().dom().len(),
    {
        proof {
            lemma_bag_map_props(self.rows@);
        }
        Ok(self.rows.len() as u64)
    }
}

} // verus!
