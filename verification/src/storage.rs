//! The bounded persistent request log.
//!
//! `Storage` owns the on-disk table and an in-memory id counter recovered at
//! open time from the largest persisted id.  Inserting appends the encoded
//! record in one transaction and then, in a second independent transaction,
//! prunes at most one oldest entry once the table is over capacity — so the
//! table may transiently exceed the capacity by the pruning backlog, and
//! converges back to it as inserts continue.  Reads scan a snapshot and
//! return the newest ids first.

use vstd::prelude::*;

use crate::codec::decode_spec;
use crate::codec::encodable;
use crate::codec::encode_record;
use crate::codec::encode_spec;
use crate::codec::decode_record;
use crate::models::RecordView;
use crate::models::StoredRequest;
use crate::table;
use crate::table::db_entries;
use crate::table::entries_view;
use crate::table::insert_entry;
use crate::table::lemma_drop_first_sorted;
use crate::table::lemma_insert_entry_sorted;
use crate::table::strictly_sorted;

verus! {

/// The error surfaced when the persistent table fails.
#[derive(Debug, Clone, Copy, PartialEq, Eq)]
pub enum StoreError {
    /// An I/O or transaction failure in the underlying storage.
    Storage,
}

impl StoreError {
    /// A short description, for error reporting at the caller.
    pub fn message(&self) -> (r: &'static str) {
        "storage failure"
    }
}

/// The prune step applied to an entry list: drops the oldest entry when the
/// list is over capacity, and leaves it unchanged otherwise.
pub open spec fn prune_once(s: Seq<(u64, Seq<u8>)>, cap: nat) -> Seq<(u64, Seq<u8>)> {
    if s.len() > cap {
        s.drop_first()
    } else {
        s
    }
}

/// The most recent records of an entry list: up to `limit` decodable
/// payloads taken from the highest id down.  A payload that does not decode
/// is skipped and does not count toward the limit.
pub open spec fn latest_of(s: Seq<(u64, Seq<u8>)>, limit: nat) -> Seq<RecordView>
    decreases s.len(),
{
    if limit == 0 || s.len() == 0 {
        Seq::empty()
    } else {
        match decode_spec(s.last().1) {
            Some(m) => seq![m] + latest_of(s.drop_last(), (limit - 1) as nat),
            None => latest_of(s.drop_last(), limit),
        }
    }
}

/// The record stored under `id`, if present and decodable.
pub open spec fn find_rec(s: Seq<(u64, Seq<u8>)>, id: u64) -> Option<RecordView>
    decreases s.len(),
{
    if s.len() == 0 {
        None
    } else if s.last().0 == id {
        decode_spec(s.last().1)
    } else {
        find_rec(s.drop_last(), id)
    }
}

/// The views of a vector of records.
pub open spec fn records_view(v: Seq<StoredRequest>) -> Seq<RecordView> {
    v.map_values(|r: StoredRequest| r@)
}

/// The bounded persistent request log: a durable ordered table of encoded
/// records, an id counter, and a fixed retention capacity.
pub struct Storage {
    db: redb::Database,
    next_id: u64,
    max_reqs: usize,
}

impl Storage {
    /// The entries of the backing table, in ascending id order.
    pub closed spec fn table(&self) -> Seq<(u64, Seq<u8>)> {
        db_entries(self.db)
    }

    /// The id counter: the last id handed out or recovered.
    pub closed spec fn id_counter(&self) -> u64 {
        self.next_id
    }

    /// The retention capacity fixed at open time.
    pub closed spec fn capacity(&self) -> nat {
        self.max_reqs as nat
    }

    /// Well-formed: the table's ids are strictly ascending.
    pub open spec fn wf(&self) -> bool {
        strictly_sorted(self.table())
    }

    /// Opens the store under `data_dir` with the given retention capacity,
    /// creating the data directory and the table if either is absent — the
    /// call is idempotent — and recovers the id counter from the largest
    /// persisted id, or zero for an empty table.
    pub fn new(data_dir: &str, max_reqs: usize) -> (r: Result<Storage, StoreError>)
        ensures
            r matches Ok(s) ==> {
                &&& s.wf()
                &&& s.capacity() == max_reqs
                &&& (s.table().len() == 0 ==> s.id_counter() == 0)
                &&& (s.table().len() > 0 ==> s.id_counter() == s.table().last().0)
                &&& (forall|i: int|
                    0 <= i < s.table().len() ==> (#[trigger] s.table()[i]).0 <= s.id_counter())
            },
    {
        let mut db = match table::open_database(data_dir) {
            Err(e) => {
                return Err(e);
            },
            Ok(d) => d,
        };
        match table::init_table(&mut db) {
            Err(e) => {
                return Err(e);
            },
            Ok(u) => u,
        };
        let entries = match table::read_all(&db) {
            Err(e) => {
                return Err(e);
            },
            Ok(v) => v,
        };
        let n = entries.len();
        let last_id = if n == 0 {
            0u64
        } else {
            entries[n - 1].0
        };
        let s = Storage { db, next_id: last_id, max_reqs };
        proof {
            assert(s.table() == entries_view(entries@));
            assert(s.table().len() == n);
            if n > 0 {
                assert(s.table()[n - 1].0 == entries@[n - 1 as int].0);
                assert forall|i: int| 0 <= i < s.table().len() implies (#[trigger] s.table()[i]).0
                    <= s.id_counter() by {
                    if i < n - 1 {
                        assert(s.table()[i].0 < s.table()[n - 1].0);
                    }
                }
            }
        }
        Ok(s)
    }

    /// The current value of the id counter.
    pub fn next_id(&self) -> (r: u64)
        ensures
            r == self.id_counter(),
    {
        self.next_id
    }

    /// Allocates the next id: advances the counter by one and returns it.
    /// Each successful allocation returns an id strictly greater than every
    /// id allocated or recovered before it.
    pub fn alloc_id(&mut self) -> (id: u64)
        requires
            old(self).id_counter() < u64::MAX,
        ensures
            id == old(self).id_counter() + 1,
            final(self).id_counter() == id,
            final(self).table() == old(self).table(),
            final(self).capacity() == old(self).capacity(),
    {
        self.next_id = self.next_id + 1;
        self.next_id
    }

    /// Inserts a fully populated record: encodes it, stores it under its id
    /// in one transaction, then — in a second, independent transaction —
    /// prunes at most one oldest entry if the table is over capacity.
    ///
    /// A prune failure is surfaced even though the record itself is already
    /// durable: on an error the table holds its old entries, the old
    /// entries with the record applied, or — when the failure struck the
    /// prune transaction's commit — that state with its oldest entry
    /// dropped.
    pub fn insert(&mut self, req: &StoredRequest) -> (r: Result<(), StoreError>)
        requires
            old(self).wf(),
        ensures
            final(self).wf(),
            final(self).id_counter() == old(self).id_counter(),
            final(self).capacity() == old(self).capacity(),
            encodable(req@),
            r is Ok ==> final(self).table() == prune_once(
                insert_entry(old(self).table(), req.id, encode_spec(req@)),
                old(self).capacity(),
            ),
            r is Err ==> final(self).table() == old(self).table() || final(self).table()
                == insert_entry(old(self).table(), req.id, encode_spec(req@)) || final(self).table()
                == insert_entry(old(self).table(), req.id, encode_spec(req@)).drop_first(),
    {
        let blob = encode_record(req);
        proof {
            lemma_insert_entry_sorted(self.table(), req.id, blob@);
        }
        match table::write_entry(&mut self.db, req.id, blob.as_slice()) {
            Err(e) => {
                return Err(e);
            },
            Ok(u) => u,
        };
        let cnt = match table::entry_count(&self.db) {
            Err(e) => {
                return Err(e);
            },
            Ok(c) => c,
        };
        if cnt > self.max_reqs as u64 {
            proof {
                lemma_drop_first_sorted(self.table());
            }
            match table::remove_first(&mut self.db) {
                Err(e) => {
                    return Err(e);
                },
                Ok(o) => o,
            };
        }
        Ok(())
    }

    /// Returns up to `limit` records, newest id first.  A stored payload
    /// that does not decode is skipped without failing the call.
    #[verifier::loop_isolation(false)]
    pub fn latest(&self, limit: usize) -> (r: Result<Vec<StoredRequest>, StoreError>)
        ensures
            r matches Ok(v) ==> records_view(v@) == latest_of(self.table(), limit as nat),
    {
        let entries = match table::read_all(&self.db) {
            Err(e) => {
                return Err(e);
            },
            Ok(v) => v,
        };
        let ghost full = entries_view(entries@);
        let mut out: Vec<StoredRequest> = Vec::new();
        let mut i: usize = entries.len();
        proof {
            assert(full.take(i as int) =~= full);
        }
        while i > 0 && out.len() < limit
            invariant
                i <= entries.len(),
                out@.len() <= limit,
                latest_of(full, limit as nat) == records_view(out@) + latest_of(
                    full.take(i as int),
                    (limit - out@.len()) as nat,
                ),
            decreases i,
        {
            i = i - 1;
            proof {
                assert(full.take(i + 1 as int).last() == (
                    entries@[i as int].0,
                    entries@[i as int].1@,
                ));
                assert(full.take(i + 1 as int).drop_last() =~= full.take(i as int));
            }
            let ghost out_pre = out@;
            match decode_record(&entries[i].1) {
                Some(rec) => {
                    let ghost rv = rec@;
                    out.push(rec);
                    proof {
                        assert(latest_of(full.take(i + 1 as int), (limit - out_pre.len()) as nat)
                            == seq![rv] + latest_of(
                            full.take(i as int),
                            (limit - out_pre.len() - 1) as nat,
                        ));
                        assert(records_view(out@) =~= records_view(out_pre).push(rv));
                        assert(records_view(out_pre) + (seq![rv] + latest_of(
                            full.take(i as int),
                            (limit - out@.len()) as nat,
                        )) =~= records_view(out@) + latest_of(
                            full.take(i as int),
                            (limit - out@.len()) as nat,
                        ));
                    }
                },
                None => {
                    proof {
                        assert(latest_of(full.take(i + 1 as int), (limit - out_pre.len()) as nat)
                            == latest_of(full.take(i as int), (limit - out_pre.len()) as nat));
                    }
                },
            }
        }
        proof {
            if i == 0 {
                assert(full.take(0) =~= Seq::<(u64, Seq<u8>)>::empty());
            }
            assert(records_view(out@) + Seq::<RecordView>::empty() =~= records_view(out@));
        }
        Ok(out)
    }

    /// Looks one record up by id.  Absence is a normal outcome, distinct
    /// from a storage failure.
    #[verifier::loop_isolation(false)]
    pub fn get_by_id(&self, id: u64) -> (r: Result<Option<StoredRequest>, StoreError>)
        ensures
            r matches Ok(o) ==> (match o {
                Some(rec) => find_rec(self.table(), id) == Some(rec@),
                None => find_rec(self.table(), id) is None,
            }),
    {
        let entries = match table::read_all(&self.db) {
            Err(e) => {
                return Err(e);
            },
            Ok(v) => v,
        };
        let ghost full = entries_view(entries@);
        let mut i: usize = entries.len();
        proof {
            assert(full.take(i as int) =~= full);
        }
        while i > 0
            invariant
                i <= entries.len(),
                find_rec(full, id) == find_rec(full.take(i as int), id),
            decreases i,
        {
            i = i - 1;
            proof {
                assert(full.take(i + 1 as int).last() == (
                    entries@[i as int].0,
                    entries@[i as int].1@,
                ));
                assert(full.take(i + 1 as int).drop_last() =~= full.take(i as int));
            }
            if entries[i].0 == id {
                return Ok(decode_record(&entries[i].1));
            }
        }
        Ok(None)
    }
}

} // verus!
