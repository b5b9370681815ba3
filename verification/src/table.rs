//! Trusted interface to the persistent ordered table.
//!
//! The on-disk store is a `redb::Database` holding one table named "reqs",
//! keyed by 64-bit id with byte-payload values.  Its contents are modeled by
//! `db_entries`: the table's key/value pairs in ascending key order.  Each
//! wrapper below performs one transaction against that table and states its
//! effect on the model; redb's transactional guarantees justify the
//! contracts: writers are serialized, readers see snapshots, and a write
//! transaction applies atomically — fully or not at all — though a failed
//! commit must not be assumed rolled back, so the mutating wrappers promise
//! only old-or-fully-applied on an error.

use vstd::prelude::*;

use redb::ReadableDatabase;
use redb::ReadableTable;
use redb::ReadableTableMetadata;

use crate::storage::StoreError;

verus! {

#[verifier::external_type_specification]
#[verifier::external_body]
pub struct ExDatabase(redb::Database);

/// The entries of the request table, in ascending key order.  A database in
/// which the table has not yet been created is modeled as empty.
pub uninterp spec fn db_entries(db: redb::Database) -> Seq<(u64, Seq<u8>)>;

/// The view of a scanned entry list.
pub open spec fn entries_view(v: Seq<(u64, Vec<u8>)>) -> Seq<(u64, Seq<u8>)> {
    v.map_values(|p: (u64, Vec<u8>)| (p.0, p.1@))
}

/// Whether the keys of an entry list are strictly ascending.
pub open spec fn strictly_sorted(s: Seq<(u64, Seq<u8>)>) -> bool {
    forall|i: int, j: int| 0 <= i < j < s.len() ==> s[i].0 < s[j].0
}

/// The entry list after setting `k` to `v`: replaces the entry with key `k`,
/// or inserts a new entry at its ordered position.
pub open spec fn insert_entry(s: Seq<(u64, Seq<u8>)>, k: u64, v: Seq<u8>) -> Seq<(u64, Seq<u8>)>
    decreases s.len(),
{
    if s.len() == 0 {
        seq![(k, v)]
    } else if k < s[0].0 {
        seq![(k, v)] + s
    } else if k == s[0].0 {
        seq![(k, v)] + s.drop_first()
    } else {
        seq![s[0]] + insert_entry(s.drop_first(), k, v)
    }
}

/// Setting a key keeps the entries strictly sorted, and introduces no key
/// other than the one set.
pub proof fn lemma_insert_entry_sorted(s: Seq<(u64, Seq<u8>)>, k: u64, v: Seq<u8>)
    requires
        strictly_sorted(s),
    ensures
        strictly_sorted(insert_entry(s, k, v)),
        forall|i: int|
            0 <= i < insert_entry(s, k, v).len() ==> (#[trigger] insert_entry(s, k, v)[i].0 == k
                || (exists|j: int| 0 <= j < s.len() && s[j].0 == insert_entry(s, k, v)[i].0)),
    decreases s.len(),
{
    let r = insert_entry(s, k, v);
    if s.len() == 0 {
    } else if k < s[0].0 {
        assert forall|i: int, j: int| 0 <= i < j < r.len() implies r[i].0 < r[j].0 by {
            if i > 0 {
                assert(r[i] == s[i - 1]);
            }
            assert(r[j] == s[j - 1]);
            if i > 0 {
                assert(s[i - 1].0 < s[j - 1].0 || i == j);
            }
        }
    } else if k == s[0].0 {
        assert forall|i: int, j: int| 0 <= i < j < r.len() implies r[i].0 < r[j].0 by {
            assert(r[j] == s.drop_first()[j - 1]);
            assert(s.drop_first()[j - 1] == s[j]);
            if i > 0 {
                assert(r[i] == s[i]);
            }
        }
        assert forall|i: int| 0 <= i < r.len() implies (r[i].0 == k || (exists|j: int|
            0 <= j < s.len() && s[j].0 == r[i].0)) by {
            if i > 0 {
                assert(r[i] == s[i]);
            }
        }
    } else {
        let t = s.drop_first();
        assert(strictly_sorted(t)) by {
            assert(forall|i: int, j: int|
                0 <= i < j < t.len() ==> t[i] == s[i + 1] && t[j] == s[j + 1]);
        }
        lemma_insert_entry_sorted(t, k, v);
        let rt = insert_entry(t, k, v);
        assert(r == seq![s[0]] + rt);
        assert forall|i: int, j: int| 0 <= i < j < r.len() implies r[i].0 < r[j].0 by {
            assert(r[j] == rt[j - 1]);
            if i == 0 {
                assert(rt[j - 1].0 == k || (exists|m: int| 0 <= m < t.len() && t[m].0 == rt[j
                    - 1].0));
                assert(forall|m: int| 0 <= m < t.len() ==> s[0].0 < (#[trigger] t[m]).0) by {
                    assert(forall|m: int| 0 <= m < t.len() ==> t[m] == s[m + 1]);
                }
            } else {
                assert(r[i] == rt[i - 1]);
            }
        }
        assert forall|i: int| 0 <= i < r.len() implies (r[i].0 == k || (exists|j: int|
            0 <= j < s.len() && s[j].0 == r[i].0)) by {
            if i > 0 {
                assert(r[i] == rt[i - 1]);
                if rt[i - 1].0 != k {
                    let m = choose|m: int| 0 <= m < t.len() && t[m].0 == rt[i - 1].0;
                    assert(s[m + 1] == t[m]);
                }
            }
        }
    }
}

/// Setting a key strictly larger than every present key appends the entry.
pub proof fn lemma_insert_entry_append(s: Seq<(u64, Seq<u8>)>, k: u64, v: Seq<u8>)
    requires
        forall|i: int| 0 <= i < s.len() ==> (#[trigger] s[i]).0 < k,
    ensures
        insert_entry(s, k, v) == s.push((k, v)),
    decreases s.len(),
{
    if s.len() == 0 {
        assert(seq![(k, v)] =~= s.push((k, v)));
    } else {
        let t = s.drop_first();
        assert(forall|i: int| 0 <= i < t.len() ==> (#[trigger] t[i]) == s[i + 1]);
        lemma_insert_entry_append(t, k, v);
        assert(seq![s[0]] + t.push((k, v)) =~= s.push((k, v)));
    }
}

/// Dropping the first entry keeps the rest strictly sorted.
pub proof fn lemma_drop_first_sorted(s: Seq<(u64, Seq<u8>)>)
    requires
        strictly_sorted(s),
        s.len() > 0,
    ensures
        strictly_sorted(s.drop_first()),
{
    assert(forall|i: int, j: int|
        0 <= i < j < s.drop_first().len() ==> s.drop_first()[i] == s[i + 1] && s.drop_first()[j]
            == s[j + 1]);
}

/// Relies on `fs_err::create_dir_all` and `redb::Database::create`: creates
/// the data directory if it is absent, then opens the store file under it,
/// initializing a fresh database if the file does not exist.  Both steps are
/// idempotent.  Nothing is assumed about the recovered contents.
#[verifier::external_body]
pub(crate) fn open_database(data_dir: &str) -> (r: Result<redb::Database, StoreError>) {
    fs_err::create_dir_all(data_dir).map_err(|_| StoreError::Storage)?;
    let path = std::path::Path::new(data_dir).join("requests.redb");
    redb::Database::create(path).map_err(|_| StoreError::Storage)
}

/// Relies on `redb::WriteTransaction::open_table` and `commit`: opening the
/// table inside a committed write transaction creates it empty if absent
/// and leaves its entries unchanged either way.  The only change a run of
/// this body can make — creating the empty table — is one the model equates
/// with absence, so the entries are unchanged whether or not it fails.
#[verifier::external_body]
pub(crate) fn init_table(db: &mut redb::Database) -> (r: Result<(), StoreError>)
    ensures
        db_entries(*final(db)) == db_entries(*old(db)),
{
    let def: redb::TableDefinition<u64, &[u8]> = redb::TableDefinition::new("reqs");
    let tx = db.begin_write().map_err(|_| StoreError::Storage)?;
    {
        tx.open_table(def).map_err(|_| StoreError::Storage)?;
    }
    tx.commit().map_err(|_| StoreError::Storage)
}

/// Relies on `ReadableDatabase::begin_read`, `ReadTransaction::open_table`
/// and `ReadableTable::range`: a full range scan of a snapshot yields every
/// entry of the table, in strictly ascending key order.
#[verifier::external_body]
pub(crate) fn read_all(db: &redb::Database) -> (r: Result<Vec<(u64, Vec<u8>)>, StoreError>)
    ensures
        r matches Ok(v) ==> entries_view(v@) == db_entries(*db) && strictly_sorted(
            db_entries(*db),
        ),
{
    let def: redb::TableDefinition<u64, &[u8]> = redb::TableDefinition::new("reqs");
    let tx = db.begin_read().map_err(|_| StoreError::Storage)?;
    let table = tx.open_table(def).map_err(|_| StoreError::Storage)?;
    let mut out: Vec<(u64, Vec<u8>)> = Vec::new();
    for row in table.range(0..).map_err(|_| StoreError::Storage)? {
        let (k, v) = row.map_err(|_| StoreError::Storage)?;
        out.push((k.value(), v.value().to_vec()));
    }
    Ok(out)
}

/// Relies on `redb::Table::insert` inside a committed write transaction: it
/// sets the value stored under the key, replacing any previous one.  The
/// transaction's changes apply atomically — fully or not at all — but a
/// failed commit must not be assumed rolled back, so on an error the table
/// holds either its old entries or the fully applied change.
#[verifier::external_body]
pub(crate) fn write_entry(db: &mut redb::Database, key: u64, value: &[u8]) -> (r: Result<
    (),
    StoreError,
>)
    ensures
        r is Ok ==> db_entries(*final(db)) == insert_entry(db_entries(*old(db)), key, value@),
        r is Err ==> db_entries(*final(db)) == db_entries(*old(db)) || db_entries(*final(db))
            == insert_entry(db_entries(*old(db)), key, value@),
{
    let def: redb::TableDefinition<u64, &[u8]> = redb::TableDefinition::new("reqs");
    let tx = db.begin_write().map_err(|_| StoreError::Storage)?;
    {
        let mut table = tx.open_table(def).map_err(|_| StoreError::Storage)?;
        table.insert(key, value).map_err(|_| StoreError::Storage)?;
    }
    tx.commit().map_err(|_| StoreError::Storage)
}

/// Relies on `ReadableTableMetadata::len` under a read snapshot: it returns
/// the number of entries in the table.
#[verifier::external_body]
pub(crate) fn entry_count(db: &redb::Database) -> (r: Result<u64, StoreError>)
    ensures
        r matches Ok(n) ==> n == db_entries(*db).len(),
{
    let def: redb::TableDefinition<u64, &[u8]> = redb::TableDefinition::new("reqs");
    let tx = db.begin_read().map_err(|_| StoreError::Storage)?;
    let table = tx.open_table(def).map_err(|_| StoreError::Storage)?;
    table.len().map_err(|_| StoreError::Storage)
}

/// Relies on `ReadableTable::first` and `redb::Table::remove` inside a
/// committed write transaction: `first` returns the entry with the smallest
/// key and removing that key drops exactly that entry.  As with any write
/// transaction, a failed commit must not be assumed rolled back: on an
/// error the table holds either its old entries or the old entries with
/// the smallest-key entry dropped.
#[verifier::external_body]
pub(crate) fn remove_first(db: &mut redb::Database) -> (r: Result<Option<u64>, StoreError>)
    ensures
        r matches Ok(k) ==> (match k {
            Some(key) => db_entries(*old(db)).len() > 0 && key == db_entries(*old(db))[0].0
                && db_entries(*final(db)) == db_entries(*old(db)).drop_first(),
            None => db_entries(*old(db)).len() == 0 && db_entries(*final(db)) == db_entries(
                *old(db),
            ),
        }),
        r is Err ==> db_entries(*final(db)) == db_entries(*old(db)) || (db_entries(
            *old(db),
        ).len() > 0 && db_entries(*final(db)) == db_entries(*old(db)).drop_first()),
{
    let def: redb::TableDefinition<u64, &[u8]> = redb::TableDefinition::new("reqs");
    let tx = db.begin_write().map_err(|_| StoreError::Storage)?;
    let removed = {
        let mut table = tx.open_table(def).map_err(|_| StoreError::Storage)?;
        let first = table.first().map_err(|_| StoreError::Storage)?.map(|(k, _)| k.value());
        if let Some(key) = first {
            table.remove(key).map_err(|_| StoreError::Storage)?;
        }
        first
    };
    tx.commit().map_err(|_| StoreError::Storage)?;
    Ok(removed)
}

} // verus!
