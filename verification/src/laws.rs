//! The store's general guarantees, stated over the same spec functions the
//! public contracts use and proved once for all inputs.

use vstd::prelude::*;

use crate::codec::decode_spec;
use crate::codec::encodable;
use crate::codec::encode_spec;
use crate::codec::lemma_round_trip;
use crate::models::RecordView;
use crate::storage::find_rec;
use crate::storage::latest_of;
use crate::storage::prune_once;
use crate::table::insert_entry;
use crate::table::lemma_insert_entry_append;
use crate::table::strictly_sorted;

verus! {

/// Ids handed out by a run of successful allocations are strictly
/// increasing, with no duplicates: the j-th allocation after the counter
/// stood at `c0` returns `c0 + j + 1`, as `alloc_id` guarantees call by
/// call.
pub proof fn lemma_alloc_ids_strictly_increase(c0: u64, ids: Seq<u64>)
    requires
        forall|j: int| 0 <= j < ids.len() ==> ids[j] == c0 + j + 1,
    ensures
        forall|j1: int, j2: int| 0 <= j1 < j2 < ids.len() ==> ids[j1] < ids[j2],
{
}

/// Over a table whose payloads all decode to records carrying their own id,
/// reading the latest records yields exactly the last `min(limit, len)`
/// entries, newest first and in strictly descending id order.
pub proof fn lemma_latest_complete(s: Seq<(u64, Seq<u8>)>, limit: nat)
    requires
        strictly_sorted(s),
        forall|i: int|
            0 <= i < s.len() ==> ((#[trigger] decode_spec(s[i].1)) matches Some(m) && m.id
                == s[i].0),
    ensures
        latest_of(s, limit).len() == if limit <= s.len() {
            limit
        } else {
            s.len()
        },
        forall|j: int|
            0 <= j < latest_of(s, limit).len() ==> (#[trigger] latest_of(s, limit)[j]).id == s[
                s.len() - 1 - j].0,
        forall|j1: int, j2: int|
            0 <= j1 < j2 < latest_of(s, limit).len() ==> latest_of(s, limit)[j1].id > latest_of(
                s,
                limit,
            )[j2].id,
    decreases s.len(),
{
    let r = latest_of(s, limit);
    if limit == 0 || s.len() == 0 {
    } else {
        assert((decode_spec(s[s.len() - 1].1) matches Some(m) && m.id == s[s.len() - 1].0));
        let t = s.drop_last();
        assert(forall|i: int| 0 <= i < t.len() ==> #[trigger] t[i] == s[i]);
        lemma_latest_complete(t, (limit - 1) as nat);
        let m = decode_spec(s.last().1).unwrap();
        assert(r == seq![m] + latest_of(t, (limit - 1) as nat));
        assert forall|j: int| 0 <= j < r.len() implies (#[trigger] r[j]).id == s[s.len() - 1
            - j].0 by {
            if j > 0 {
                assert(r[j] == latest_of(t, (limit - 1) as nat)[j - 1]);
                assert(latest_of(t, (limit - 1) as nat)[j - 1].id == t[t.len() - 1 - (j - 1)].0);
            }
        }
        assert forall|j1: int, j2: int| 0 <= j1 < j2 < r.len() implies r[j1].id > r[j2].id by {
            assert(r[j1].id == s[s.len() - 1 - j1].0);
            assert(r[j2].id == s[s.len() - 1 - j2].0);
            assert(s[s.len() - 1 - j2].0 < s[s.len() - 1 - j1].0);
        }
    }
}

/// One insert of a fresh, newest id followed by its prune step keeps a
/// table at or under capacity: below capacity the new entry is appended;
/// at capacity the oldest entry is dropped and the size stays exactly at
/// the capacity.  Starting from an empty table, the size therefore
/// converges to the capacity and never passes it, and entries always leave
/// oldest first.
pub proof fn lemma_insert_prune_capacity(s: Seq<(u64, Seq<u8>)>, k: u64, v: Seq<u8>, cap: nat)
    requires
        s.len() <= cap,
        forall|i: int| 0 <= i < s.len() ==> (#[trigger] s[i]).0 < k,
    ensures
        prune_once(insert_entry(s, k, v), cap).len() <= cap,
        s.len() < cap ==> prune_once(insert_entry(s, k, v), cap) == s.push((k, v)),
        s.len() == cap && cap > 0 ==> prune_once(insert_entry(s, k, v), cap) == s.drop_first().push(
            (k, v),
        ),
{
    lemma_insert_entry_append(s, k, v);
    if s.len() == cap && cap > 0 {
        assert(s.push((k, v)).drop_first() =~= s.drop_first().push((k, v)));
    }
}

/// The table reached by inserting records with ids `1..=k` sequentially
/// into an initially empty store of capacity `cap`: the most recent
/// `min(k, cap)` of them, in id order.  `recs[i]` is the record inserted
/// with id `i + 1`.
pub open spec fn sequential_table(recs: Seq<RecordView>, k: int, cap: nat) -> Seq<(u64, Seq<u8>)> {
    let lo = if k > cap {
        k - cap
    } else {
        0
    };
    Seq::new((k - lo) as nat, |j: int| ((lo + j + 1) as u64, encode_spec(recs[lo + j])))
}

/// Sequential inserts converge to the capacity: starting from the empty
/// table, the state after the k-th insert is exactly the insert-then-prune
/// step (the `Ok` clause of `insert`) applied to the state after the
/// (k-1)-th; its size is `min(k, cap)`; and only the `cap` highest ids
/// survive, the oldest leaving first.
pub proof fn lemma_sequential_inserts_converge(recs: Seq<RecordView>, k: int, cap: nat)
    requires
        cap > 0,
        0 < k <= recs.len(),
        k <= u64::MAX,
    ensures
        sequential_table(recs, 0, cap) == Seq::<(u64, Seq<u8>)>::empty(),
        sequential_table(recs, k, cap) == prune_once(
            insert_entry(sequential_table(recs, k - 1, cap), k as u64, encode_spec(recs[k - 1])),
            cap,
        ),
        sequential_table(recs, k, cap).len() == if k <= cap {
            k
        } else {
            cap as int
        },
{
    let s = sequential_table(recs, k - 1, cap);
    let v = encode_spec(recs[k - 1]);
    assert(sequential_table(recs, 0, cap) =~= Seq::<(u64, Seq<u8>)>::empty());
    assert(forall|i: int| 0 <= i < s.len() ==> (#[trigger] s[i]).0 < k as u64);
    lemma_insert_prune_capacity(s, k as u64, v, cap);
    if s.len() < cap {
        assert(sequential_table(recs, k, cap) =~= s.push((k as u64, v)));
    } else {
        assert(sequential_table(recs, k, cap) =~= s.drop_first().push((k as u64, v)));
    }
}

/// A record inserted under a fresh, newest id is immediately queryable:
/// after the insert and its prune step, looking its id up yields the record
/// itself, every field intact.
pub proof fn lemma_inserted_record_queryable(
    s: Seq<(u64, Seq<u8>)>,
    k: u64,
    cap: nat,
    m: RecordView,
)
    requires
        forall|i: int| 0 <= i < s.len() ==> (#[trigger] s[i]).0 < k,
        s.len() <= cap,
        cap > 0,
        encodable(m),
        m.id == k,
    ensures
        find_rec(prune_once(insert_entry(s, k, encode_spec(m)), cap), k) == Some(m),
{
    let v = encode_spec(m);
    lemma_insert_entry_append(s, k, v);
    lemma_round_trip(m);
    if s.len() == cap {
        assert(s.push((k, v)).drop_first() =~= s.drop_first().push((k, v)));
        assert(prune_once(insert_entry(s, k, v), cap).last() == (k, v));
    } else {
        assert(prune_once(insert_entry(s, k, v), cap).last() == (k, v));
    }
}

/// A zero limit yields no records, and an empty table yields no records for
/// any limit.
pub proof fn lemma_latest_trivial(s: Seq<(u64, Seq<u8>)>, limit: nat)
    ensures
        latest_of(s, 0) == Seq::<RecordView>::empty(),
        s.len() == 0 ==> latest_of(s, limit) == Seq::<RecordView>::empty(),
{
}

/// After recovery the first allocated id is strictly greater than every id
/// persisted in the table: recovery sets the counter to the largest
/// persisted id (or zero for an empty table), and allocation returns the
/// counter plus one.
pub proof fn lemma_recovered_ids_fresh(s: Seq<(u64, Seq<u8>)>, counter: u64, id: u64)
    requires
        forall|i: int| 0 <= i < s.len() ==> (#[trigger] s[i]).0 <= counter,
        id == counter + 1,
    ensures
        forall|i: int| 0 <= i < s.len() ==> (#[trigger] s[i]).0 < id,
{
}

} // verus!
