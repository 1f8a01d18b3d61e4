//! The "native multi-version key" storage model.
//!
//! The logical key is the physical key: the engine keeps many versions of
//! it, distinguished by a timestamp the engine itself appends, and point
//! reads ask for "as of timestamp T" directly. The physical value carries
//! the transaction's start and commit timestamps as a sixteen-byte
//! big-endian trailer, so a reader can tell which transaction produced a
//! version without a second lookup.

use crate::engine::{
    has_version, lemma_version_key_injective, newest_version_at, scan_entry_ok, version_key,
    Engine,
};
use crate::keyorder::{lex_le, lex_lt};
use crate::memstore::spec_range_conflict;
use crate::memstore::MemStore;
use crate::model::{
    committed_by, has_version_at_or_after, key_locked_at, lemma_read_at_none, lemma_read_at_some,
    read_at, scan_output_ok, spec_commit, spec_prewrite, spec_rollback, version_visible,
    MvccModel,
};
use crate::storage::MvccStorage;
use crate::ts_codec::{
    bytes_to_u64, lemma_bytes_round_trip, spec_bytes_to_u64, spec_u64_to_bytes, u64_to_bytes,
};
use crate::{Error, Key, Value};
use vstd::prelude::*;
use vstd::slice::{slice_subrange, slice_to_vec};

verus! {

/// The committed history an engine state represents under this layout:
/// version `c` of key `k` is the engine's entry for `k` at timestamp `c`,
/// its start timestamp the first half of the value's sixteen-byte trailer,
/// its value the rest.
pub open spec fn history_of(e: Map<Seq<u8>, Seq<u8>>) -> Map<(Seq<u8>, u64), (u64, Seq<u8>)> {
    Map::new(
        |p: (Seq<u8>, u64)| e.dom().contains(version_key(p.0, p.1)),
        |p: (Seq<u8>, u64)|
            {
                let pv = e[version_key(p.0, p.1)];
                (
                    spec_bytes_to_u64(pv.subrange(pv.len() - 16, pv.len() - 8)),
                    pv.subrange(0, pv.len() - 16),
                )
            },
    )
}

/// Appends a timestamp to a value in place, building up the physical
/// value's trailer.
pub fn encode_ts_to_value(ts: u64, value: &mut Value)
    ensures
        final(value)@ == old(value)@ + spec_u64_to_bytes(ts),
{
    let mut v = u64_to_bytes(ts);
    value.append(&mut v);
}

/// Reads the start timestamp from a physical value's trailer.
pub fn decode_start_ts_from_value(value: &Value) -> (r: u64)
    requires
        value@.len() >= 16,
    ensures
        r == spec_bytes_to_u64(value@.subrange(value@.len() - 16, value@.len() - 8)),
{
    let l = value.len();
    bytes_to_u64(slice_subrange(value.as_slice(), l - 16, l - 8))
}

/// Reads the commit timestamp from a physical value's trailer.
pub fn decode_commit_ts_from_value(value: &Value) -> (r: u64)
    requires
        value@.len() >= 8,
    ensures
        r == spec_bytes_to_u64(value@.subrange(value@.len() - 8, value@.len() as int)),
{
    let l = value.len();
    bytes_to_u64(slice_subrange(value.as_slice(), l - 8, l))
}

/// Strips the sixteen-byte trailer, recovering the logical value.
fn strip_trailer(value: &[u8]) -> (r: Vec<u8>)
    requires
        value@.len() >= 16,
    ensures
        r@ == value@.subrange(0, value@.len() - 16),
{
    let l = value.len();
    slice_to_vec(slice_subrange(value, 0, l - 16))
}

/// Law: decoding inverts encoding for this layout. For any value and
/// timestamps, the physical value built by appending the start and commit
/// timestamps decodes back to exactly the three inputs; the key is stored
/// unchanged.
pub proof fn lemma_codec_round_trip(value: Seq<u8>, start_ts: u64, commit_ts: u64)
    ensures
        ({
            let pv = value + spec_u64_to_bytes(start_ts) + spec_u64_to_bytes(commit_ts);
            &&& pv.subrange(0, pv.len() - 16) == value
            &&& spec_bytes_to_u64(pv.subrange(pv.len() - 16, pv.len() - 8)) == start_ts
            &&& spec_bytes_to_u64(pv.subrange(pv.len() - 8, pv.len() as int)) == commit_ts
        }),
{
    let pv = value + spec_u64_to_bytes(start_ts) + spec_u64_to_bytes(commit_ts);
    assert(pv.subrange(0, pv.len() - 16) =~= value);
    assert(pv.subrange(pv.len() - 16, pv.len() - 8) =~= spec_u64_to_bytes(start_ts));
    assert(pv.subrange(pv.len() - 8, pv.len() as int) =~= spec_u64_to_bytes(commit_ts));
    lemma_bytes_round_trip(start_ts);
    lemma_bytes_round_trip(commit_ts);
}

/// Writing one version into the engine adds exactly that record to the
/// history this layout represents.
proof fn lemma_history_insert(
    e: Map<Seq<u8>, Seq<u8>>,
    key: Seq<u8>,
    value: Seq<u8>,
    start_ts: u64,
    commit_ts: u64,
)
    ensures
        history_of(
            e.insert(
                version_key(key, commit_ts),
                value + spec_u64_to_bytes(start_ts) + spec_u64_to_bytes(commit_ts),
            ),
        ) == history_of(e).insert((key, commit_ts), (start_ts, value)),
{
    let pk = version_key(key, commit_ts);
    let pv = value + spec_u64_to_bytes(start_ts) + spec_u64_to_bytes(commit_ts);
    let e2 = e.insert(pk, pv);
    let h1 = history_of(e);
    let h2 = history_of(e2);
    let target = h1.insert((key, commit_ts), (start_ts, value));
    assert forall|p: (Seq<u8>, u64)| #![auto] h2.dom().contains(p) == target.dom().contains(
        p,
    ) by {
        if p != (key, commit_ts) && version_key(p.0, p.1) == pk {
            lemma_version_key_injective(p.0, p.1, key, commit_ts);
        }
    }
    assert forall|p: (Seq<u8>, u64)| #![auto] h2.dom().contains(p) implies h2[p] == target[p] by {
        if p == (key, commit_ts) {
            lemma_codec_round_trip(value, start_ts, commit_ts);
        } else {
            if version_key(p.0, p.1) == pk {
                lemma_version_key_injective(p.0, p.1, key, commit_ts);
            }
            assert(e2[version_key(p.0, p.1)] == e[version_key(p.0, p.1)]);
        }
    }
    assert(h2 =~= target);
}

/// The native multi-version-key storage: an in-memory lock table for
/// outstanding intents, and the timestamp-aware engine for committed data.
pub struct Storage {
    mem_store: MemStore,
    db: Engine,
}

impl Storage {
    /// A fresh, empty storage.
    pub fn new() -> (r: Self)
        ensures
            r.inv(),
            r.model() == MvccModel::empty(),
            r.scan_supported(),
    {
        let r = Storage { mem_store: MemStore::new(), db: Engine::new() };
        proof {
            assert(history_of(r.db@) =~= Map::<(Seq<u8>, u64), (u64, Seq<u8>)>::empty());
            assert(r.model() =~= MvccModel::empty());
        }
        r
    }

    /// The pending value of this transaction's intent on `key`, if the
    /// intent is still outstanding; an intent of another transaction is an
    /// error, no intent at all is `None`.
    fn get_uncommitted_data(&self, key: &Key, start_ts: u64) -> (r: Result<Option<Value>, Error>)
        requires
            self.inv(),
        ensures
            match r {
                Ok(Some(v)) => self.model().locks.dom().contains(key@) && self.model().locks[key@]
                    == (start_ts, v@),
                Ok(None) => !self.model().locks.dom().contains(key@),
                Err(e) => e == Error::TxnResolvedElsewhere && self.model().locks.dom().contains(
                    key@,
                ) && self.model().locks[key@].0 != start_ts,
            },
    {
        match self.mem_store.get(key) {
            Some((timestamp, value)) => {
                if timestamp == start_ts {
                    Ok(Some(value))
                } else {
                    Err(Error::TxnResolvedElsewhere)
                }
            },
            None => Ok(None),
        }
    }

    /// Removes this transaction's intent on `key` and hands back its
    /// pending value; an intent of another transaction stays untouched and
    /// is an error, no intent at all is `None`.
    fn unlock_uncommitted_data(&mut self, key: &Key, start_ts: u64) -> (r: Result<
        Option<Value>,
        Error,
    >)
        requires
            old(self).inv(),
        ensures
            final(self).inv(),
            final(self).db == old(self).db,
            match r {
                Ok(Some(v)) => old(self).model().locks.dom().contains(key@) && old(
                    self,
                ).model().locks[key@] == (start_ts, v@) && final(self).model().locks == old(
                    self,
                ).model().locks.remove(key@),
                Ok(None) => !old(self).model().locks.dom().contains(key@) && final(self).model()
                    == old(self).model(),
                Err(e) => e == Error::TxnResolvedElsewhere && old(
                    self,
                ).model().locks.dom().contains(key@) && old(self).model().locks[key@].0 != start_ts
                    && final(self).model() == old(self).model(),
            },
    {
        match self.mem_store.remove(key) {
            Some((timestamp, value)) => {
                if timestamp == start_ts {
                    Ok(Some(value))
                } else {
                    let ghost locks1 = old(self).model().locks;
                    self.mem_store.insert(key.clone(), value, timestamp);
                    proof {
                        assert(self.mem_store@ =~= locks1);
                        assert(self.model() =~= old(self).model());
                    }
                    Err(Error::TxnResolvedElsewhere)
                }
            },
            None => {
                proof {
                    assert(self.mem_store@ =~= old(self).mem_store@);
                    assert(self.model() =~= old(self).model());
                }
                Ok(None)
            },
        }
    }

    /// The value of the committed version of `key` written by the
    /// transaction that started at `start_ts`, if the persisted history
    /// holds one.
    fn get_committed_version(&self, key: &Key, start_ts: u64) -> (r: Option<Value>)
        requires
            self.inv(),
        ensures
            r is Some <==> committed_by(self.model(), key@, start_ts),
            match r {
                Some(v) => exists|c: u64|
                    #[trigger] self.model().history.dom().contains((key@, c))
                        && self.model().history[(key@, c)] == (start_ts, v@),
                None => true,
            },
    {
        let versions = self.db.versions_of(key);
        let ghost m = self.model();
        let mut i: usize = 0;
        while i < versions.len()
            invariant
                self.inv(),
                m == self.model(),
                i <= versions@.len(),
                forall|idx: int|
                    0 <= idx < versions@.len() ==> has_version(self.db@, key@, #[trigger] versions@[
                        idx
                    ].0) && versions@[idx].1@ == self.db@[version_key(key@, versions@[idx].0)],
                forall|c: u64|
                    has_version(self.db@, key@, c) ==> exists|idx: int|
                        0 <= idx < versions@.len() && versions@[idx].0 == c,
                forall|j: int|
                    0 <= j < i ==> m.history[(key@, #[trigger] versions@[j].0)].0 != start_ts,
            decreases versions@.len() - i,
        {
            let pv = &versions[i].1;
            proof {
                assert(self.db@.dom().contains(version_key(key@, versions@[i as int].0)));
            }
            if decode_start_ts_from_value(pv) == start_ts {
                let data = strip_trailer(pv.as_slice());
                proof {
                    let c = versions@[i as int].0;
                    assert(m.history.dom().contains((key@, c)));
                    assert(m.history[(key@, c)] == (start_ts, data@));
                }
                return Some(data);
            }
            i = i + 1;
        }
        proof {
            if committed_by(m, key@, start_ts) {
                let c = choose|c: u64|
                    #[trigger] m.history.dom().contains((key@, c)) && m.history[(key@, c)].0
                        == start_ts;
                assert(has_version(self.db@, key@, c));
                let idx = choose|idx: int| 0 <= idx < versions@.len() && versions@[idx].0 == c;
                assert(m.history[(key@, versions@[idx].0)].0 != start_ts);
            }
        }
        None
    }
}

impl MvccStorage for Storage {
    /// Lock table and engine are well formed, and every physical value is
    /// long enough to carry its sixteen-byte timestamp trailer.
    closed spec fn inv(&self) -> bool {
        &&& self.mem_store.inv()
        &&& self.db.inv()
        &&& forall|pk: Seq<u8>| #[trigger] self.db@.dom().contains(pk) ==> self.db@[pk].len() >= 16
    }

    /// The lock table is the model's intents; the engine's timestamped
    /// entries, read through this layout, are its committed history.
    closed spec fn model(&self) -> MvccModel {
        MvccModel { locks: self.mem_store@, history: history_of(self.db@) }
    }

    /// The engine's native timestamp ordering makes bounded versioned range
    /// reads direct; this backend supports them.
    closed spec fn scan_supported(&self) -> bool {
        true
    }

    fn prewrite(&mut self, key: &Key, value: &Value, start_ts: u64) -> (r: Result<(), Error>) {
        if self.mem_store.contains_key(key) {
            return Err(Error::KeyLocked);
        }
        let newest = self.db.get_at_or_before(key, u64::MAX);
        match newest {
            Some(p) => {
                let commit_ts = p.0;
                if commit_ts >= start_ts {
                    proof {
                        assert(has_version(self.db@, key@, commit_ts));
                        assert(self.model().history.dom().contains((key@, commit_ts)));
                        assert(has_version_at_or_after(self.model(), key@, start_ts));
                    }
                    return Err(Error::KeyVersionConflict);
                }
                proof {
                    assert forall|c: u64|
                        !(c >= start_ts && #[trigger] self.model().history.dom().contains(
                            (key@, c),
                        )) by {
                        if c >= start_ts && has_version(self.db@, key@, c) {
                            assert(commit_ts < c <= u64::MAX);
                        }
                    }
                }
            },
            None => {
                proof {
                    assert forall|c: u64|
                        !(c >= start_ts && #[trigger] self.model().history.dom().contains(
                            (key@, c),
                        )) by {
                        if has_version(self.db@, key@, c) {
                            assert(c <= u64::MAX);
                        }
                    }
                }
            },
        }
        let ghost m = self.model();
        self.mem_store.insert(key.clone(), value.clone(), start_ts);
        proof {
            assert(self.model() =~= spec_prewrite(m, key@, value@, start_ts).0);
        }
        Ok(())
    }

    fn commit(&mut self, key: &Key, start_ts: u64, commit_ts: u64) -> (r: Result<(), Error>) {
        let ghost m = old(self).model();
        match self.get_uncommitted_data(key, start_ts) {
            Ok(Some(value)) => {
                let mut v = value.clone();
                encode_ts_to_value(start_ts, &mut v);
                encode_ts_to_value(commit_ts, &mut v);
                self.db.put_with_ts(key, v, commit_ts);
                proof {
                    lemma_history_insert(old(self).db@, key@, value@, start_ts, commit_ts);
                }
                self.mem_store.remove(key);
                proof {
                    assert(self.model() =~= spec_commit(m, key@, start_ts, commit_ts).0);
                }
                Ok(())
            },
            Ok(None) => {
                match self.get_committed_version(key, start_ts) {
                    Some(_) => Ok(()),
                    None => Err(Error::TxnResolvedElsewhere),
                }
            },
            Err(e) => Err(e),
        }
    }

    fn rollback(&mut self, key: &Key, start_ts: u64) -> (r: Result<(), Error>) {
        let ghost m = old(self).model();
        match self.unlock_uncommitted_data(key, start_ts) {
            Ok(Some(_value)) => {
                proof {
                    assert(self.model() =~= spec_rollback(m, key@, start_ts).0);
                }
                Ok(())
            },
            Ok(None) => {
                match self.get_committed_version(key, start_ts) {
                    Some(_) => Err(Error::TxnResolvedElsewhere),
                    None => Ok(()),
                }
            },
            Err(e) => Err(e),
        }
    }

    fn get(&self, key: &Key, ts: u64) -> (r: Result<Option<Value>, Error>) {
        match self.mem_store.get(key) {
            Some(intent) => {
                if intent.0 <= ts {
                    return Err(Error::KeyLocked);
                }
            },
            None => {},
        }
        proof {
            assert(!key_locked_at(self.model(), key@, ts));
        }
        match self.db.get_at_or_before(key, ts) {
            Some(p) => {
                let ghost c = p.0;
                proof {
                    assert(self.db@.dom().contains(version_key(key@, c)));
                    assert(version_visible(self.model(), key@, ts, c));
                    assert forall|c2: u64|
                        #[trigger] version_visible(self.model(), key@, ts, c2) implies c2 <= c by {
                        if c2 > c {
                            assert(has_version(self.db@, key@, c2));
                        }
                    }
                    lemma_read_at_some(self.model(), key@, ts, c);
                }
                let data = strip_trailer(p.1.as_slice());
                proof {
                    assert(self.model().history[(key@, c)].1 == data@);
                }
                Ok(Some(data))
            },
            None => {
                proof {
                    assert forall|c: u64|
                        !#[trigger] version_visible(self.model(), key@, ts, c) by {
                        if self.model().history.dom().contains((key@, c)) && c <= ts {
                            assert(has_version(self.db@, key@, c));
                        }
                    }
                    lemma_read_at_none(self.model(), key@, ts);
                }
                Ok(None)
            },
        }
    }

    #[verifier::loop_isolation(false)]
    fn scan(&self, start: &Key, end: &Key, ts: u64) -> (r: Result<Vec<Value>, Error>) {
        if self.mem_store.range_conflict(start, end, ts) {
            return Err(Error::KeyLocked);
        }
        let pairs = self.db.seek_range(start, end, ts);
        let mut result: Vec<Value> = Vec::new();
        let mut i: usize = 0;
        while i < pairs.len()
            invariant
                i <= pairs@.len(),
                result@.len() == i,
                forall|j: int|
                    0 <= j < i ==> #[trigger] result@[j]@ == pairs@[j].1@.subrange(
                        0,
                        pairs@[j].1@.len() - 16,
                    ),
            decreases pairs@.len() - i,
        {
            proof {
                let c = choose|c: u64|
                    #[trigger] newest_version_at(self.db@, pairs@[i as int].0@, ts, c) && pairs@[
                        i as int
                    ].1@ == self.db@[version_key(pairs@[i as int].0@, c)];
                assert(self.db@.dom().contains(version_key(pairs@[i as int].0@, c)));
            }
            let data = strip_trailer(pairs[i].1.as_slice());
            result.push(data);
            i = i + 1;
        }
        proof {
            let m = self.model();
            let keys = Seq::new(pairs@.len(), |j: int| pairs@[j].0@);
            let vals = result@.map_values(|v: Value| v@);
            assert(keys.len() == vals.len());
            assert forall|x: int, y: int|
                0 <= x < y < keys.len() implies lex_lt(#[trigger] keys[x], #[trigger] keys[y]) by {
                assert(keys[x] == pairs@[x].0@ && keys[y] == pairs@[y].0@);
            }
            assert forall|x: int|
                0 <= x < keys.len() implies lex_le(start@, #[trigger] keys[x]) && lex_lt(
                keys[x],
                end@,
            ) by {
                assert(keys[x] == pairs@[x].0@);
            }
            assert forall|x: int|
                0 <= x < keys.len() implies read_at(m, #[trigger] keys[x], ts) == Some(
                vals[x],
            ) by {
                assert(scan_entry_ok(self.db@, ts, pairs@[x].0@, pairs@[x].1@));
                let c = choose|c: u64|
                    #[trigger] newest_version_at(self.db@, pairs@[x].0@, ts, c) && pairs@[x].1@
                        == self.db@[version_key(pairs@[x].0@, c)];
                assert(version_visible(m, keys[x], ts, c));
                assert forall|c2: u64|
                    #[trigger] version_visible(m, keys[x], ts, c2) implies c2 <= c by {
                    if c2 > c {
                        assert(has_version(self.db@, keys[x], c2));
                    }
                }
                lemma_read_at_some(m, keys[x], ts, c);
                assert(vals[x] == result@[x]@);
                assert(m.history[(keys[x], c)].1 == vals[x]);
            }
            assert forall|k: Seq<u8>|
                #![trigger lex_le(start@, k), lex_lt(k, end@)]
                lex_le(start@, k) && lex_lt(k, end@) && (exists|c: u64|
                    version_visible(m, k, ts, c)) implies exists|x: int|
                0 <= x < keys.len() && keys[x] == k by {
                let c = choose|c: u64| version_visible(m, k, ts, c);
                assert(has_version(self.db@, k, c));
                let x = choose|x: int| 0 <= x < pairs@.len() && pairs@[x].0@ == k;
                assert(keys[x] == k);
            }
            assert(scan_output_ok(m, start@, end@, ts, keys, vals));
            assert(!spec_range_conflict(m.locks, start@, end@, ts));
            let rv = crate::model::scan_result_view(Ok::<Vec<Value>, Error>(result));
            assert(rv->Ok_0 =~= vals);
            assert(scan_output_ok(m, start@, end@, ts, keys, rv->Ok_0));
        }
        Ok(result)
    }
}

} // verus!
