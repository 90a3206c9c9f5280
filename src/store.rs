//! An in-memory storage gateway holding one row per (instrument, holder,
//! date), written by insert-or-update.

use crate::record::{Row, ShortPositionRecord};
use vstd::prelude::*;

verus! {

/// What an upsert did.
#[derive(Clone, Copy, Debug, PartialEq, Eq, Structural)]
pub enum UpsertOutcome {
    Inserted,
    Updated,
    Unchanged,
}

/// Why a write was refused.
#[derive(Clone, Copy, Debug, PartialEq, Eq, Structural)]
pub enum StorageError {
    /// A new row would exceed the store's capacity.
    CapacityExceeded,
}

/// Two rows describe the same disclosure: instrument, holder and date agree.
pub open spec fn same_key(a: Row, b: Row) -> bool {
    a.ticker == b.ticker && a.holder == b.holder && a.date == b.date
}

pub open spec fn keys_unique(rows: Seq<Row>) -> bool {
    forall|i: int, j: int| 0 <= i < j < rows.len() ==> !same_key(#[trigger] rows[i], #[trigger] rows[j])
}

pub open spec fn has_key(rows: Seq<Row>, r: Row) -> bool {
    exists|i: int| 0 <= i < rows.len() && same_key(#[trigger] rows[i], r)
}

pub open spec fn key_index(rows: Seq<Row>, r: Row) -> int {
    choose|i: int| 0 <= i < rows.len() && same_key(#[trigger] rows[i], r)
}

/// The rows after writing `r` into `rows` with room for `cap` rows, and what
/// the write did: a row with the same key is replaced when its percentage
/// differs and kept otherwise; a new key is appended while there is room.
pub open spec fn upsert_of(rows: Seq<Row>, cap: nat, r: Row) -> (Seq<Row>, Result<UpsertOutcome, StorageError>) {
    if has_key(rows, r) {
        let i = key_index(rows, r);
        if rows[i].pct == r.pct {
            (rows, Ok(UpsertOutcome::Unchanged))
        } else {
            (rows.update(i, r), Ok(UpsertOutcome::Updated))
        }
    } else if rows.len() >= cap {
        (rows, Err(StorageError::CapacityExceeded))
    } else {
        (rows.push(r), Ok(UpsertOutcome::Inserted))
    }
}

/// Writing a row keeps the keys unique and the count within capacity.
pub proof fn lemma_upsert_wf(rows: Seq<Row>, cap: nat, r: Row)
    requires
        keys_unique(rows),
        rows.len() <= cap,
    ensures
        keys_unique(upsert_of(rows, cap, r).0),
        upsert_of(rows, cap, r).0.len() <= cap,
{
    let out = upsert_of(rows, cap, r).0;
    if has_key(rows, r) {
        let k = key_index(rows, r);
        assert forall|i: int, j: int| 0 <= i < j < out.len() implies !same_key(
            #[trigger] out[i],
            #[trigger] out[j],
        ) by {
            if i == k {
                assert(!same_key(rows[k], rows[j]));
            } else if j == k {
                assert(!same_key(rows[i], rows[k]));
            }
        }
    } else if rows.len() < cap {
        assert forall|i: int, j: int| 0 <= i < j < out.len() implies !same_key(
            #[trigger] out[i],
            #[trigger] out[j],
        ) by {
            if j == rows.len() {
                assert(!same_key(rows[i], r));
            }
        }
    }
}

/// A store that keeps its rows in memory.
pub struct MemoryStore {
    rows: Vec<ShortPositionRecord>,
    capacity: usize,
}

impl MemoryStore {
    /// The stored rows, in the order in which their keys first arrived.
    pub closed spec fn rows(&self) -> Seq<Row> {
        self.rows@.map_values(|x: ShortPositionRecord| x@)
    }

    /// The largest number of rows the store accepts.
    pub closed spec fn capacity(&self) -> nat {
        self.capacity as nat
    }

    /// One row per key, and no more rows than the capacity.
    pub open spec fn wf(&self) -> bool {
        keys_unique(self.rows()) && self.rows().len() <= self.capacity()
    }

    /// An empty store with room for `capacity` rows.
    pub fn with_capacity(capacity: usize) -> (r: MemoryStore)
        ensures
            r.wf(),
            r.rows() == Seq::<Row>::empty(),
            r.capacity() == capacity,
    {
        let r = MemoryStore { rows: Vec::new(), capacity };
        assert(r.rows() =~= Seq::<Row>::empty());
        r
    }

    /// Number of stored rows.
    pub fn len(&self) -> (r: usize)
        ensures
            r == self.rows().len(),
    {
        self.rows.len()
    }

    /// The stored record for a key, if any.
    pub fn get(&self, ticker: &String, holder: &String, date: crate::record::Date) -> (r: Option<&ShortPositionRecord>)
        requires
            self.wf(),
        ensures
            match r {
                Some(rec) => exists|i: int|
                    0 <= i < self.rows().len() && #[trigger] self.rows()[i] == rec@ && rec@.ticker
                        == ticker@ && rec@.holder == holder@ && rec@.date == date,
                None => forall|i: int|
                    0 <= i < self.rows().len() ==> !(#[trigger] self.rows()[i].ticker == ticker@
                        && self.rows()[i].holder == holder@ && self.rows()[i].date == date),
            },
    {
        let mut i: usize = 0;
        while i < self.rows.len()
            invariant
                i <= self.rows@.len(),
                forall|j: int|
                    0 <= j < i ==> !(#[trigger] self.rows()[j].ticker == ticker@
                        && self.rows()[j].holder == holder@ && self.rows()[j].date == date),
            decreases self.rows@.len() - i,
        {
            let row = &self.rows[i];
            if row.ticker == *ticker && row.holder == *holder && row.date == date {
                assert(self.rows()[i as int] == row@);
                return Some(row);
            }
            i = i + 1;
        }
        None
    }

    /// Inserts `rec`, or updates the row with its key when the percentage
    /// changed, or leaves the store as it is.
    pub fn upsert_short_position(&mut self, rec: ShortPositionRecord) -> (r: Result<
        UpsertOutcome,
        StorageError,
    >)
        requires
            old(self).wf(),
        ensures
            final(self).wf(),
            final(self).capacity() == old(self).capacity(),
            (final(self).rows(), r) == upsert_of(old(self).rows(), old(self).capacity(), rec@),
    {
        let ghost rows0 = self.rows();
        let ghost cap0 = self.capacity();
        proof {
            lemma_upsert_wf(rows0, self.capacity(), rec@);
        }
        let mut i: usize = 0;
        while i < self.rows.len()
            invariant
                self.rows() == rows0,
                self.capacity() == cap0,
                cap0 == old(self).capacity(),
                rows0 == old(self).rows(),
                keys_unique(rows0),
                rows0.len() <= cap0,
                i <= self.rows@.len(),
                rows0.len() == self.rows@.len(),
                forall|j: int| 0 <= j < i ==> !same_key(#[trigger] rows0[j], rec@),
            decreases self.rows@.len() - i,
        {
            let found = {
                let row = &self.rows[i];
                row.ticker == rec.ticker && row.holder == rec.holder && row.date == rec.date
            };
            if found {
                assert(same_key(rows0[i as int], rec@));
                assert(has_key(rows0, rec@));
                let ghost k = key_index(rows0, rec@);
                assert(k == i) by {
                    if k != i {
                        if k < i {
                            assert(!same_key(rows0[k], rows0[i as int]));
                        } else {
                            assert(!same_key(rows0[i as int], rows0[k]));
                        }
                    }
                }
                if self.rows[i].pct_hundredths == rec.pct_hundredths {
                    return Ok(UpsertOutcome::Unchanged);
                }
                self.rows.set(i, rec);
                assert(self.rows() =~= rows0.update(i as int, rec@));
                return Ok(UpsertOutcome::Updated);
            }
            i = i + 1;
        }
        assert(!has_key(rows0, rec@));
        if self.rows.len() >= self.capacity {
            return Err(StorageError::CapacityExceeded);
        }
        self.rows.push(rec);
        assert(self.rows() =~= rows0.push(rec@));
        Ok(UpsertOutcome::Inserted)
    }
}

} // verus!
