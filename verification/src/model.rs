//! Abstract model of the MVCC store and the protocol's laws.
//!
//! A store is modelled as a lock table (key to outstanding intent) plus a
//! committed history ((key, commit timestamp) to the committing
//! transaction's start timestamp and value). Every operation of the
//! `MvccStorage` contract is specified as a pure transition on this model;
//! both storage backends prove their executable code equal to these
//! transitions, so the laws below hold of either backend.

use crate::Error;
use crate::keyorder::{lex_le, lex_lt};
use crate::memstore::spec_range_conflict;
use crate::{Key, Value};
use vstd::prelude::*;

verus! {

/// The abstract state of one MVCC store.
#[verifier::ext_equal]
pub struct MvccModel {
    /// Outstanding intents: key to (start timestamp, pending value).
    pub locks: Map<Seq<u8>, (u64, Seq<u8>)>,
    /// Committed versions: (key, commit timestamp) to (start timestamp, value).
    pub history: Map<(Seq<u8>, u64), (u64, Seq<u8>)>,
}

impl MvccModel {
    /// A store with no intents and no committed history.
    pub open spec fn empty() -> MvccModel {
        MvccModel { locks: Map::empty(), history: Map::empty() }
    }
}

/// A committed version of `key` with commit timestamp at or after `ts` exists.
pub open spec fn has_version_at_or_after(m: MvccModel, key: Seq<u8>, ts: u64) -> bool {
    exists|c: u64| c >= ts && #[trigger] m.history.dom().contains((key, c))
}

/// Some committed version of `key` was written by the transaction that
/// started at `start_ts`.
pub open spec fn committed_by(m: MvccModel, key: Seq<u8>, start_ts: u64) -> bool {
    exists|c: u64|
        #[trigger] m.history.dom().contains((key, c)) && m.history[(key, c)].0 == start_ts
}

/// Version `c` of `key` is committed and visible at snapshot `ts`.
pub open spec fn version_visible(m: MvccModel, key: Seq<u8>, ts: u64, c: u64) -> bool {
    m.history.dom().contains((key, c)) && c <= ts
}

/// Version `c` is the newest version of `key` visible at snapshot `ts`.
pub open spec fn newest_visible(m: MvccModel, key: Seq<u8>, ts: u64, c: u64) -> bool {
    version_visible(m, key, ts, c) && forall|c2: u64|
        #[trigger] version_visible(m, key, ts, c2) ==> c2 <= c
}

/// The committed value a snapshot read of `key` at `ts` sees, ignoring
/// intents: the value of the newest visible version, if any version is
/// visible.
pub open spec fn read_at(m: MvccModel, key: Seq<u8>, ts: u64) -> Option<Seq<u8>> {
    if exists|c: u64| #[trigger] newest_visible(m, key, ts, c) {
        Some(m.history[(key, choose|c: u64| #[trigger] newest_visible(m, key, ts, c))].1)
    } else {
        None
    }
}

/// An intent on `key` blocks a read at snapshot `ts`: the in-flight writer
/// could still commit at or before `ts`.
pub open spec fn key_locked_at(m: MvccModel, key: Seq<u8>, ts: u64) -> bool {
    m.locks.dom().contains(key) && m.locks[key].0 <= ts
}

/// The `prewrite` transition: install an intent if the key is free and no
/// committed version is as new as the transaction's start timestamp.
pub open spec fn spec_prewrite(m: MvccModel, key: Seq<u8>, value: Seq<u8>, start_ts: u64) -> (
    MvccModel,
    Result<(), Error>,
) {
    if m.locks.dom().contains(key) {
        (m, Err(Error::KeyLocked))
    } else if has_version_at_or_after(m, key, start_ts) {
        (m, Err(Error::KeyVersionConflict))
    } else {
        (MvccModel { locks: m.locks.insert(key, (start_ts, value)), ..m }, Ok(()))
    }
}

/// The `commit` transition: turn the matching intent into a committed
/// version and release it. Without a matching intent, committing is
/// idempotent success when the history already holds a record of this
/// transaction, and fails otherwise: the intent was resolved elsewhere.
pub open spec fn spec_commit(m: MvccModel, key: Seq<u8>, start_ts: u64, commit_ts: u64) -> (
    MvccModel,
    Result<(), Error>,
) {
    if m.locks.dom().contains(key) && m.locks[key].0 == start_ts {
        (
            MvccModel {
                locks: m.locks.remove(key),
                history: m.history.insert((key, commit_ts), (start_ts, m.locks[key].1)),
            },
            Ok(()),
        )
    } else if m.locks.dom().contains(key) {
        (m, Err(Error::TxnResolvedElsewhere))
    } else if committed_by(m, key, start_ts) {
        (m, Ok(()))
    } else {
        (m, Err(Error::TxnResolvedElsewhere))
    }
}

/// The `rollback` transition: discard the matching intent without writing
/// anything. Without a matching intent, rolling back is idempotent success
/// unless the transaction already committed, which is an error.
pub open spec fn spec_rollback(m: MvccModel, key: Seq<u8>, start_ts: u64) -> (
    MvccModel,
    Result<(), Error>,
) {
    if m.locks.dom().contains(key) && m.locks[key].0 == start_ts {
        (MvccModel { locks: m.locks.remove(key), ..m }, Ok(()))
    } else if m.locks.dom().contains(key) {
        (m, Err(Error::TxnResolvedElsewhere))
    } else if committed_by(m, key, start_ts) {
        (m, Err(Error::TxnResolvedElsewhere))
    } else {
        (m, Ok(()))
    }
}

/// The `get` operation: a snapshot read at `ts` fails on an intent that
/// could commit at or before `ts`, and otherwise sees exactly the committed
/// history.
pub open spec fn spec_get(m: MvccModel, key: Seq<u8>, ts: u64) -> Result<
    Option<Seq<u8>>,
    Error,
> {
    if key_locked_at(m, key, ts) {
        Err(Error::KeyLocked)
    } else {
        Ok(read_at(m, key, ts))
    }
}

///`keys`/`vals` are a correct scan result over `[start, end)` at snapshot
/// `ts`: the keys are exactly those with a visible version, in ascending
/// order, each paired with its newest visible value.
pub open spec fn scan_output_ok(
    m: MvccModel,
    start: Seq<u8>,
    end: Seq<u8>,
    ts: u64,
    keys: Seq<Seq<u8>>,
    vals: Seq<Seq<u8>>,
) -> bool {
    &&& keys.len() == vals.len()
    &&& (forall|i: int, j: int| 0 <= i < j < keys.len() ==> lex_lt(#[trigger] keys[i], #[trigger] keys[j]))
    &&& (forall|i: int|
        0 <= i < keys.len() ==> lex_le(start, #[trigger] keys[i]) && lex_lt(keys[i], end))
    &&& (forall|i: int|
        0 <= i < keys.len() ==> read_at(m, #[trigger] keys[i], ts) == Some(vals[i]))
    &&& (forall|k: Seq<u8>|
        #![trigger lex_le(start, k), lex_lt(k, end)]
        lex_le(start, k) && lex_lt(k, end) && (exists|c: u64| version_visible(m, k, ts, c))
            ==> exists|i: int| 0 <= i < keys.len() && keys[i] == k)
}

/// What a `scan` over `[start, end)` at snapshot `ts` must return: an
/// unsupporting backend declares so; otherwise an intent in range blocks the
/// scan, and a clean range yields the newest visible value per key in key
/// order.
pub open spec fn spec_scan_ok(
    m: MvccModel,
    start: Seq<u8>,
    end: Seq<u8>,
    ts: u64,
    r: Result<Seq<Seq<u8>>, Error>,
    supported: bool,
) -> bool {
    if !supported {
        r == Err::<Seq<Seq<u8>>, Error>(Error::Unsupported)
    } else if spec_range_conflict(m.locks, start, end, ts) {
        r == Err::<Seq<Seq<u8>>, Error>(Error::KeyLocked)
    } else {
        r is Ok && exists|keys: Seq<Seq<u8>>|
            #[trigger] scan_output_ok(m, start, end, ts, keys, r->Ok_0)
    }
}

/// The mathematical content of a `get` result.
pub open spec fn get_result_view(r: Result<Option<Value>, Error>) -> Result<
    Option<Seq<u8>>,
    Error,
> {
    match r {
        Ok(Some(v)) => Ok(Some(v@)),
        Ok(None) => Ok(None),
        Err(e) => Err(e),
    }
}

/// The mathematical content of a `scan` result.
pub open spec fn scan_result_view(r: Result<Vec<Value>, Error>) -> Result<
    Seq<Seq<u8>>,
    Error,
> {
    match r {
        Ok(vs) => Ok(vs@.map_values(|v: Value| v@)),
        Err(e) => Err(e),
    }
}

/// At most one version is the newest visible one.
pub proof fn lemma_newest_visible_unique(m: MvccModel, key: Seq<u8>, ts: u64, c1: u64, c2: u64)
    requires
        newest_visible(m, key, ts, c1),
        newest_visible(m, key, ts, c2),
    ensures
        c1 == c2,
{
    assert(version_visible(m, key, ts, c1));
    assert(version_visible(m, key, ts, c2));
}

/// A snapshot read that found the newest visible version returns its value.
pub proof fn lemma_read_at_some(m: MvccModel, key: Seq<u8>, ts: u64, c: u64)
    requires
        newest_visible(m, key, ts, c),
    ensures
        read_at(m, key, ts) == Some(m.history[(key, c)].1),
{
    let cc = choose|c2: u64| #[trigger] newest_visible(m, key, ts, c2);
    assert(newest_visible(m, key, ts, cc));
    lemma_newest_visible_unique(m, key, ts, c, cc);
}

/// A snapshot read with no visible version returns nothing.
pub proof fn lemma_read_at_none(m: MvccModel, key: Seq<u8>, ts: u64)
    requires
        forall|c: u64| !#[trigger] version_visible(m, key, ts, c),
    ensures
        read_at(m, key, ts) == Option::<Seq<u8>>::None,
{
    if exists|c: u64| #[trigger] newest_visible(m, key, ts, c) {
        let c = choose|c: u64| #[trigger] newest_visible(m, key, ts, c);
        assert(version_visible(m, key, ts, c));
    }
}

/// Law: for any store, key, value and timestamp, a successful `prewrite` at
/// `ts` followed by `commit(start_ts = ts, commit_ts = ts + 1)` makes
/// `get(key, ts + 1)` return exactly the written value.
pub proof fn lemma_prewrite_commit_get(m: MvccModel, key: Seq<u8>, value: Seq<u8>, ts: u64)
    requires
        spec_prewrite(m, key, value, ts).1 == Ok::<(), Error>(()),
        ts < u64::MAX,
    ensures
        ({
            let m1 = spec_prewrite(m, key, value, ts).0;
            let m2 = spec_commit(m1, key, ts, (ts + 1) as u64).0;
            &&& spec_commit(m1, key, ts, (ts + 1) as u64).1 == Ok::<(), Error>(())
            &&& spec_get(m2, key, (ts + 1) as u64) == Ok::<Option<Seq<u8>>, Error>(Some(value))
        }),
{
    let m1 = spec_prewrite(m, key, value, ts).0;
    let c1 = (ts + 1) as u64;
    let m2 = spec_commit(m1, key, ts, c1).0;
    assert(m2.history.dom().contains((key, c1)));
    assert(newest_visible(m2, key, c1, c1));
    lemma_read_at_some(m2, key, c1, c1);
    assert(m2.history[(key, c1)].1 == value);
    assert(!key_locked_at(m2, key, c1));
}

/// Law: a snapshot read strictly before the start timestamp of every
/// committed version of the key sees nothing, provided no version committed
/// before it started and no intent blocks the read. There is no time travel
/// to before the first write.
pub proof fn lemma_get_before_first_write(m: MvccModel, key: Seq<u8>, t: u64)
    requires
        forall|c: u64|
            #[trigger] m.history.dom().contains((key, c)) ==> t < m.history[(key, c)].0
                && m.history[(key, c)].0 <= c,
        !key_locked_at(m, key, t),
    ensures
        spec_get(m, key, t) == Ok::<Option<Seq<u8>>, Error>(None),
{
    assert forall|c: u64| !#[trigger] version_visible(m, key, t, c) by {
        if m.history.dom().contains((key, c)) {
            assert(t < m.history[(key, c)].0 && m.history[(key, c)].0 <= c);
        }
    }
    lemma_read_at_none(m, key, t);
}

/// Law: two `prewrite` calls on the same key with no intervening `commit`
/// or `rollback` — the second fails `KeyLocked`, whatever its value and
/// timestamp.
pub proof fn lemma_second_prewrite_locked(
    m: MvccModel,
    key: Seq<u8>,
    v1: Seq<u8>,
    ts1: u64,
    v2: Seq<u8>,
    ts2: u64,
)
    requires
        spec_prewrite(m, key, v1, ts1).1 == Ok::<(), Error>(()),
    ensures
        spec_prewrite(spec_prewrite(m, key, v1, ts1).0, key, v2, ts2).1 == Err::<(), Error>(
            Error::KeyLocked,
        ),
        spec_prewrite(spec_prewrite(m, key, v1, ts1).0, key, v2, ts2).0 == spec_prewrite(
            m,
            key,
            v1,
            ts1,
        ).0,
{
}

/// Law: a `prewrite` on a free key fails `KeyVersionConflict` whenever some
/// committed version is as new as the write's start timestamp.
pub proof fn lemma_prewrite_version_conflict(
    m: MvccModel,
    key: Seq<u8>,
    value: Seq<u8>,
    start_ts: u64,
    c: u64,
)
    requires
        !m.locks.dom().contains(key),
        m.history.dom().contains((key, c)),
        c >= start_ts,
    ensures
        spec_prewrite(m, key, value, start_ts).1 == Err::<(), Error>(Error::KeyVersionConflict),
        spec_prewrite(m, key, value, start_ts).0 == m,
{
    assert(has_version_at_or_after(m, key, start_ts));
}

/// Law: a `get` at `ts` under an outstanding intent fails `KeyLocked` when
/// the intent's start timestamp is at or below `ts`, and otherwise succeeds
/// with the plain committed-history read, ignoring the intent.
pub proof fn lemma_get_vs_intent(m: MvccModel, key: Seq<u8>, ts: u64)
    requires
        m.locks.dom().contains(key),
    ensures
        m.locks[key].0 <= ts ==> spec_get(m, key, ts) == Err::<Option<Seq<u8>>, Error>(
            Error::KeyLocked,
        ),
        m.locks[key].0 > ts ==> spec_get(m, key, ts) == Ok::<Option<Seq<u8>>, Error>(
            read_at(m, key, ts),
        ),
{
}

/// Law: rollback releases the intent without creating a version: on a key
/// with no committed history, `prewrite` then `rollback` succeed and a
/// `get` at the maximal timestamp still sees nothing.
pub proof fn lemma_rollback_leaves_no_version(
    m: MvccModel,
    key: Seq<u8>,
    value: Seq<u8>,
    ts: u64,
)
    requires
        !m.locks.dom().contains(key),
        forall|c: u64| !#[trigger] m.history.dom().contains((key, c)),
    ensures
        ({
            let m1 = spec_prewrite(m, key, value, ts).0;
            let m2 = spec_rollback(m1, key, ts).0;
            &&& spec_prewrite(m, key, value, ts).1 == Ok::<(), Error>(())
            &&& spec_rollback(m1, key, ts).1 == Ok::<(), Error>(())
            &&& spec_get(m2, key, u64::MAX) == Ok::<Option<Seq<u8>>, Error>(None)
        }),
{
    assert(!has_version_at_or_after(m, key, ts));
    let m1 = spec_prewrite(m, key, value, ts).0;
    let m2 = spec_rollback(m1, key, ts).0;
    assert forall|c: u64| !#[trigger] version_visible(m2, key, u64::MAX, c) by {
        assert(!m.history.dom().contains((key, c)));
    }
    lemma_read_at_none(m2, key, u64::MAX);
}

} // verus!
