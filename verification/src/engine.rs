//! In-memory ordered key-value engine adapter.
//!
//! The storage models talk to an embedded ordered byte-key engine through
//! the narrow surface below: point put, "newest version at or before a
//! timestamp" point lookup, and a listing of all versions of one logical
//! key, used by the commit/rollback resolution path. Every physical key has
//! the shape `logical_key ++ big_endian(version)`; the `user_timestamp`
//! model leaves appending the version to the engine, the `tikv` model
//! appends it itself before calling `put`.

use crate::ts_codec::{
    bytes_to_u64, lemma_bytes_round_trip_rev, spec_bytes_to_u64, spec_u64_to_bytes, u64_to_bytes,
};
use crate::keyorder::{
    key_eq, key_le, lemma_lex_le_total, lemma_lex_lt_le_trans, lex_le, lex_lt,
};
use crate::{Key, Value};
use vstd::prelude::*;
use vstd::slice::{slice_subrange, slice_to_vec};

verus! {

/// The physical key holding version `ts` of logical key `prefix`.
pub open spec fn version_key(prefix: Seq<u8>, ts: u64) -> Seq<u8> {
    prefix + spec_u64_to_bytes(ts)
}

/// The engine holds a version `ts` of logical key `prefix`.
pub open spec fn has_version(e: Map<Seq<u8>, Seq<u8>>, prefix: Seq<u8>, ts: u64) -> bool {
    e.dom().contains(version_key(prefix, ts))
}

/// Physical keys determine their logical key and version.
pub proof fn lemma_version_key_injective(p1: Seq<u8>, t1: u64, p2: Seq<u8>, t2: u64)
    requires
        version_key(p1, t1) == version_key(p2, t2),
    ensures
        p1 == p2,
        t1 == t2,
{
    assert(spec_u64_to_bytes(t1).len() == 8);
    assert(spec_u64_to_bytes(t2).len() == 8);
    assert(version_key(p1, t1).len() == p1.len() + 8);
    assert(version_key(p2, t2).len() == p2.len() + 8);
    assert(p1.len() == p2.len());
    assert(p1 =~= version_key(p1, t1).subrange(0, p1.len() as int));
    assert(p2 =~= version_key(p2, t2).subrange(0, p2.len() as int));
    assert(spec_u64_to_bytes(t1) =~= version_key(p1, t1).subrange(
        p1.len() as int,
        version_key(p1, t1).len() as int,
    ));
    assert(spec_u64_to_bytes(t2) =~= version_key(p2, t2).subrange(
        p2.len() as int,
        version_key(p2, t2).len() as int,
    ));
    crate::ts_codec::lemma_bytes_injective(t1, t2);
}

/// The engine's store: physical key to physical value, with unique keys.
pub struct Engine {
    entries: Vec<(Key, Value)>,
}

/// Some entry of `s` holds the physical key `k`.
spec fn has_key(s: Seq<(Key, Value)>, k: Seq<u8>) -> bool {
    exists|i: int| 0 <= i < s.len() && s[i].0@ == k
}

/// The index of the entry holding `k`.
spec fn index_of(s: Seq<(Key, Value)>, k: Seq<u8>) -> int {
    choose|i: int| 0 <= i < s.len() && s[i].0@ == k
}

/// No two entries of `s` hold the same physical key.
spec fn distinct_keys(s: Seq<(Key, Value)>) -> bool {
    forall|i: int, j: int| 0 <= i < j < s.len() ==> s[i].0@ != s[j].0@
}

proof fn lemma_index_of(s: Seq<(Key, Value)>, k: Seq<u8>, i: int)
    requires
        distinct_keys(s),
        0 <= i < s.len(),
        s[i].0@ == k,
    ensures
        has_key(s, k),
        index_of(s, k) == i,
{
    assert(has_key(s, k));
    let j = index_of(s, k);
    if j != i {
        assert(s[i].0@ != s[j].0@);
    }
}

impl View for Engine {
    type V = Map<Seq<u8>, Seq<u8>>;

    closed spec fn view(&self) -> Map<Seq<u8>, Seq<u8>> {
        Map::new(
            |k: Seq<u8>| has_key(self.entries@, k),
            |k: Seq<u8>| self.entries@[index_of(self.entries@, k)].1@,
        )
    }
}

impl Engine {
    /// The engine's physical keys are pairwise distinct.
    pub closed spec fn inv(&self) -> bool {
        distinct_keys(self.entries@)
    }

    /// An empty engine.
    pub fn new() -> (r: Self)
        ensures
            r.inv(),
            r@ == Map::<Seq<u8>, Seq<u8>>::empty(),
    {
        let r = Engine { entries: Vec::new() };
        proof {
            assert(r@ =~= Map::<Seq<u8>, Seq<u8>>::empty());
        }
        r
    }

    /// Finds the position of the entry holding physical key `key`.
    fn find(&self, key: &Key) -> (r: Option<usize>)
        ensures
            match r {
                Some(i) => i < self.entries@.len() && self.entries@[i as int].0@ == key@,
                None => !has_key(self.entries@, key@),
            },
    {
        let mut i: usize = 0;
        while i < self.entries.len()
            invariant
                i <= self.entries@.len(),
                forall|j: int| 0 <= j < i ==> self.entries@[j].0@ != key@,
            decreases self.entries@.len() - i,
        {
            if crate::keyorder::key_eq(&self.entries[i].0, key) {
                return Some(i);
            }
            i = i + 1;
        }
        None
    }

    /// Stores `value` under the physical key `key`, replacing any previous
    /// value for that key.
    pub fn put(&mut self, key: Key, value: Value)
        requires
            old(self).inv(),
        ensures
            final(self).inv(),
            final(self)@ == old(self)@.insert(key@, value@),
    {
        let ghost s1 = self.entries@;
        let ghost kk = key@;
        let ghost vv = value@;
        match self.find(&key) {
            Some(i) => {
                proof {
                    lemma_index_of(s1, kk, i as int);
                }
                self.entries[i] = (key, value);
                proof {
                    let s2 = self.entries@;
                    assert forall|ii: int, jj: int|
                        0 <= ii < jj < s2.len() implies s2[ii].0@ != s2[jj].0@ by {
                        assert(s2[ii].0@ == s1[ii].0@);
                        assert(s2[jj].0@ == s1[jj].0@);
                    }
                    lemma_map_after_update(s1, s2, i as int, kk, vv);
                    assert(self@ =~= old(self)@.insert(kk, vv));
                }
            },
            None => {
                self.entries.push((key, value));
                proof {
                    let s2 = self.entries@;
                    let n = s1.len() as int;
                    assert forall|ii: int, jj: int|
                        0 <= ii < jj < s2.len() implies s2[ii].0@ != s2[jj].0@ by {
                        if jj < n {
                            assert(s2[ii].0@ == s1[ii].0@);
                            assert(s2[jj].0@ == s1[jj].0@);
                        } else {
                            assert(s2[jj].0@ == kk);
                            assert(s2[ii].0@ == s1[ii].0@);
                            assert(!has_key(s1, kk));
                        }
                    }
                    lemma_map_after_update(s1, s2, n, kk, vv);
                    assert(self@ =~= old(self)@.insert(kk, vv));
                }
            },
        }
    }

    /// Stores `value` as version `ts` of the logical key `key`: the engine
    /// itself appends the version to the physical key, as an engine with a
    /// timestamp-aware comparator does.
    pub fn put_with_ts(&mut self, key: &Key, value: Value, ts: u64)
        requires
            old(self).inv(),
        ensures
            final(self).inv(),
            final(self)@ == old(self)@.insert(version_key(key@, ts), value@),
    {
        let mut pk = key.clone();
        let mut sfx = u64_to_bytes(ts);
        pk.append(&mut sfx);
        self.put(pk, value);
    }

    /// Reads the version number of physical key `pk` if it is a version of
    /// the logical key `prefix`.
    fn match_version(pk: &Key, prefix: &Key) -> (r: Option<u64>)
        ensures
            match r {
                Some(c) => pk@ == version_key(prefix@, c),
                None => forall|c: u64| pk@ != version_key(prefix@, c),
            },
    {
        if pk.len() < 8 || pk.len() - 8 != prefix.len() {
            assert(forall|c: u64| version_key(prefix@, c).len() == prefix@.len() + 8);
            return None;
        }
        let n = prefix.len();
        let mut i: usize = 0;
        while i < n
            invariant
                i <= n,
                n == prefix@.len(),
                pk@.len() == n + 8,
                forall|j: int| 0 <= j < i ==> pk@[j] == prefix@[j],
            decreases n - i,
        {
            if pk[i] != prefix[i] {
                proof {
                    assert forall|c: u64| pk@ != version_key(prefix@, c) by {
                        assert(version_key(prefix@, c)[i as int] == prefix@[i as int]);
                    }
                }
                return None;
            }
            i = i + 1;
        }
        let suffix = slice_subrange(pk.as_slice(), n, n + 8);
        let c = bytes_to_u64(suffix);
        proof {
            lemma_bytes_round_trip_rev(suffix@);
            assert(pk@ =~= prefix@ + spec_u64_to_bytes(c));
        }
        Some(c)
    }

    /// Snapshot point lookup: the newest version of `prefix` whose version
    /// number is at or before `ts`, with its physical value.
    pub fn get_at_or_before(&self, prefix: &Key, ts: u64) -> (r: Option<(u64, Value)>)
        requires
            self.inv(),
        ensures
            match r {
                Some(p) => has_version(self@, prefix@, p.0) && p.0 <= ts && p.1@ == self@[
                    version_key(prefix@, p.0)
                ] && forall|c: u64| p.0 < c <= ts ==> !has_version(self@, prefix@, c),
                None => forall|c: u64| c <= ts ==> !has_version(self@, prefix@, c),
            },
    {
        let mut best: Option<(u64, usize)> = None;
        let mut i: usize = 0;
        while i < self.entries.len()
            invariant
                self.inv(),
                i <= self.entries@.len(),
                match best {
                    Some(b) => b.1 < self.entries@.len() && self.entries@[b.1 as int].0@
                        == version_key(prefix@, b.0) && b.0 <= ts,
                    None => true,
                },
                forall|j: int, c: u64|
                    #![trigger self.entries@[j], version_key(prefix@, c)]
                    0 <= j < i && self.entries@[j].0@ == version_key(prefix@, c) && c <= ts
                        ==> best is Some && c <= best->Some_0.0,
            decreases self.entries@.len() - i,
        {
            match Self::match_version(&self.entries[i].0, prefix) {
                Some(c) => {
                    if c <= ts {
                        let better = match best {
                            Some(b) => c > b.0,
                            None => true,
                        };
                        if better {
                            best = Some((c, i));
                        }
                        proof {
                            assert forall|j: int, cc: u64|
                                #![trigger self.entries@[j], version_key(prefix@, cc)]
                                0 <= j < i + 1 && self.entries@[j].0@ == version_key(prefix@, cc)
                                    && cc <= ts implies best is Some && cc
                                <= best->Some_0.0 by {
                                if j == i as int {
                                    lemma_version_key_injective(prefix@, cc, prefix@, c);
                                }
                            }
                        }
                    } else {
                        proof {
                            assert forall|j: int, cc: u64|
                                #![trigger self.entries@[j], version_key(prefix@, cc)]
                                0 <= j < i + 1 && self.entries@[j].0@ == version_key(prefix@, cc)
                                    && cc <= ts implies best is Some && cc
                                <= best->Some_0.0 by {
                                if j == i as int {
                                    lemma_version_key_injective(prefix@, cc, prefix@, c);
                                }
                            }
                        }
                    }
                },
                None => {},
            }
            i = i + 1;
        }
        match best {
            Some(b) => {
                proof {
                    lemma_index_of(self.entries@, version_key(prefix@, b.0), b.1 as int);
                    assert forall|c: u64| b.0 < c <= ts implies !has_version(
                        self@,
                        prefix@,
                        c,
                    ) by {
                        if has_version(self@, prefix@, c) {
                            let j = index_of(self.entries@, version_key(prefix@, c));
                            assert(self.entries@[j].0@ == version_key(prefix@, c));
                        }
                    }
                }
                Some((b.0, self.entries[b.1].1.clone()))
            },
            None => {
                proof {
                    assert forall|c: u64| c <= ts implies !has_version(self@, prefix@, c) by {
                        if has_version(self@, prefix@, c) {
                            let j = index_of(self.entries@, version_key(prefix@, c));
                            assert(self.entries@[j].0@ == version_key(prefix@, c));
                        }
                    }
                }
                None
            },
        }
    }

    /// Lists every stored version of `prefix` with its physical value, used
    /// by the commit/rollback resolution path to query history.
    pub fn versions_of(&self, prefix: &Key) -> (r: Vec<(u64, Value)>)
        requires
            self.inv(),
        ensures
            forall|idx: int|
                0 <= idx < r@.len() ==> has_version(self@, prefix@, #[trigger] r@[idx].0) && r@[
                    idx
                ].1@ == self@[version_key(prefix@, r@[idx].0)],
            forall|c: u64|
                has_version(self@, prefix@, c) ==> exists|idx: int|
                    0 <= idx < r@.len() && r@[idx].0 == c,
    {
        let mut r: Vec<(u64, Value)> = Vec::new();
        let mut i: usize = 0;
        while i < self.entries.len()
            invariant
                self.inv(),
                i <= self.entries@.len(),
                forall|idx: int|
                    0 <= idx < r@.len() ==> has_version(self@, prefix@, #[trigger] r@[idx].0)
                        && r@[idx].1@ == self@[version_key(prefix@, r@[idx].0)],
                forall|j: int, c: u64|
                    #![trigger self.entries@[j], version_key(prefix@, c)]
                    0 <= j < i && self.entries@[j].0@ == version_key(prefix@, c) ==> exists|
                        idx: int,
                    | 0 <= idx < r@.len() && r@[idx].0 == c,
            decreases self.entries@.len() - i,
        {
            let ghost r1 = r@;
            match Self::match_version(&self.entries[i].0, prefix) {
                Some(c) => {
                    proof {
                        lemma_index_of(self.entries@, version_key(prefix@, c), i as int);
                    }
                    r.push((c, self.entries[i].1.clone()));
                    proof {
                        assert forall|j: int, cc: u64|
                            #![trigger self.entries@[j], version_key(prefix@, cc)]
                            0 <= j < i + 1 && self.entries@[j].0@ == version_key(prefix@, cc)
                                implies exists|idx: int|
                            0 <= idx < r@.len() && r@[idx].0 == cc by {
                            if j == i as int {
                                lemma_version_key_injective(prefix@, cc, prefix@, c);
                                assert(r@[r@.len() - 1].0 == cc);
                            } else {
                                let idx = choose|idx: int|
                                    0 <= idx < r1.len() && r1[idx].0 == cc;
                                assert(r@[idx].0 == cc);
                            }
                        }
                    }
                },
                None => {},
            }
            i = i + 1;
        }
        proof {
            assert forall|c: u64| has_version(self@, prefix@, c) implies exists|idx: int|
                0 <= idx < r@.len() && r@[idx].0 == c by {
                let j = index_of(self.entries@, version_key(prefix@, c));
                assert(self.entries@[j].0@ == version_key(prefix@, c));
            }
        }
        r
    }
}

/// Law: the byte order of physical version keys is total and matches the
/// numeric order of the version timestamps: the engine keeps the versions
/// of one logical key in timestamp order.
pub proof fn lemma_version_order(prefix: Seq<u8>, c1: u64, c2: u64)
    ensures
        lex_le(version_key(prefix, c1), version_key(prefix, c2)) == (c1 <= c2),
{
    crate::keyorder::lemma_lex_le_common_prefix(
        prefix,
        spec_u64_to_bytes(c1),
        spec_u64_to_bytes(c2),
    );
    crate::ts_codec::lemma_bytes_order(c1, c2);
}

/// Version `c` is the newest version of `prefix` at or before `ts`.
pub open spec fn newest_version_at(
    e: Map<Seq<u8>, Seq<u8>>,
    prefix: Seq<u8>,
    ts: u64,
    c: u64,
) -> bool {
    has_version(e, prefix, c) && c <= ts && forall|c2: u64|
        c < c2 <= ts ==> !#[trigger] has_version(e, prefix, c2)
}

/// The pair `(k, v)` is a sound scan entry: `v` is the physical value of
/// the newest version of `k` at or before `ts`.
pub open spec fn scan_entry_ok(e: Map<Seq<u8>, Seq<u8>>, ts: u64, k: Seq<u8>, v: Seq<u8>) -> bool {
    exists|c: u64| #[trigger] newest_version_at(e, k, ts, c) && v == e[version_key(k, c)]
}

/// The position before the first entry of `r` whose key is at or past `k`.
fn insertion_point(r: &Vec<(Key, Value)>, k: &Key) -> (pos: usize)
    ensures
        pos <= r@.len(),
        forall|idx: int| 0 <= idx < pos ==> lex_lt(#[trigger] r@[idx].0@, k@),
        pos < r@.len() ==> lex_le(k@, r@[pos as int].0@),
{
    let mut pos: usize = 0;
    while pos < r.len()
        invariant
            pos <= r@.len(),
            forall|idx: int| 0 <= idx < pos ==> lex_lt(#[trigger] r@[idx].0@, k@),
        decreases r@.len() - pos,
    {
        if key_le(k, &r[pos].0) {
            return pos;
        }
        proof {
            lemma_lex_le_total(k@, r@[pos as int].0@);
        }
        pos = pos + 1;
    }
    pos
}

impl Engine {
    /// Range read for scans: for every logical key in `[start, end)` that
    /// has a version at or before `ts`, the key paired with the physical
    /// value of its newest such version, in ascending key order.
    pub fn seek_range(&self, start: &Key, end: &Key, ts: u64) -> (r: Vec<(Key, Value)>)
        requires
            self.inv(),
        ensures
            forall|i: int, j: int|
                0 <= i < j < r@.len() ==> lex_lt(#[trigger] r@[i].0@, #[trigger] r@[j].0@),
            forall|i: int|
                0 <= i < r@.len() ==> lex_le(start@, #[trigger] r@[i].0@) && lex_lt(
                    r@[i].0@,
                    end@,
                ),
            forall|i: int|
                #![trigger r@[i]]
                0 <= i < r@.len() ==> scan_entry_ok(self@, ts, r@[i].0@, r@[i].1@),
            forall|k: Seq<u8>, c: u64|
                #![trigger has_version(self@, k, c)]
                lex_le(start@, k) && lex_lt(k, end@) && has_version(self@, k, c) && c <= ts
                    ==> exists|i: int| 0 <= i < r@.len() && r@[i].0@ == k,
    {
        let mut r: Vec<(Key, Value)> = Vec::new();
        let mut i: usize = 0;
        while i < self.entries.len()
            invariant
                self.inv(),
                i <= self.entries@.len(),
                forall|x: int, y: int|
                    0 <= x < y < r@.len() ==> lex_lt(#[trigger] r@[x].0@, #[trigger] r@[y].0@),
                forall|x: int|
                    0 <= x < r@.len() ==> lex_le(start@, #[trigger] r@[x].0@) && lex_lt(
                        r@[x].0@,
                        end@,
                    ),
                forall|x: int|
                    #![trigger r@[x]]
                    0 <= x < r@.len() ==> scan_entry_ok(self@, ts, r@[x].0@, r@[x].1@),
                forall|j: int, k: Seq<u8>, c: u64|
                    #![trigger self.entries@[j], version_key(k, c)]
                    0 <= j < i && self.entries@[j].0@ == version_key(k, c) && lex_le(start@, k)
                        && lex_lt(k, end@) && c <= ts ==> exists|x: int|
                        0 <= x < r@.len() && r@[x].0@ == k,
            decreases self.entries@.len() - i,
        {
            let ghost s1 = r@;
            let pk_len = self.entries[i].0.len();
            if pk_len >= 8 {
                let n = pk_len - 8;
                let logical = slice_to_vec(slice_subrange(self.entries[i].0.as_slice(), 0, n));
                let c = bytes_to_u64(slice_subrange(self.entries[i].0.as_slice(), n, n + 8));
                let ghost lk = logical@;
                proof {
                    lemma_bytes_round_trip_rev(
                        self.entries@[i as int].0@.subrange(n as int, n + 8),
                    );
                    assert(self.entries@[i as int].0@ =~= version_key(lk, c));
                }
                let in_range = key_le(start, &logical) && key_le(&logical, end) && !key_eq(
                    &logical,
                    end,
                );
                if in_range && c <= ts {
                    let pos = insertion_point(&r, &logical);
                    if pos < r.len() && key_eq(&r[pos].0, &logical) {
                        proof {
                            assert forall|j: int, k: Seq<u8>, cc: u64|
                                #![trigger self.entries@[j], version_key(k, cc)]
                                0 <= j < i + 1 && self.entries@[j].0@ == version_key(k, cc)
                                    && lex_le(start@, k) && lex_lt(k, end@) && cc
                                    <= ts implies exists|x: int|
                                0 <= x < r@.len() && r@[x].0@ == k by {
                                if j == i as int {
                                    lemma_version_key_injective(k, cc, lk, c);
                                    assert(r@[pos as int].0@ == k);
                                }
                            }
                        }
                    } else {
                        proof {
                            lemma_index_of(self.entries@, version_key(lk, c), i as int);
                            assert(has_version(self@, lk, c));
                        }
                        match self.get_at_or_before(&logical, ts) {
                            Some(p) => {
                                let ghost pv = p.1@;
                                let ghost cbest = p.0;
                                r.insert(pos, (logical, p.1));
                                proof {
                                    let s2 = r@;
                                    assert forall|x: int| 0 <= x < s2.len() implies s2[x] == (
                                    if x < pos as int {
                                        s1[x]
                                    } else if x == pos as int {
                                        s2[pos as int]
                                    } else {
                                        s1[x - 1]
                                    }) by {}
                                    assert(s2[pos as int].0@ == lk && s2[pos as int].1@ == pv);
                                    if (pos as int) < s1.len() {
                                        assert(lex_le(lk, s1[pos as int].0@));
                                        assert(lk != s1[pos as int].0@);
                                        assert(lex_lt(lk, s1[pos as int].0@));
                                    }
                                    assert forall|x: int, y: int|
                                        0 <= x < y < s2.len() implies lex_lt(
                                        #[trigger] s2[x].0@,
                                        #[trigger] s2[y].0@,
                                    ) by {
                                        if y < pos as int {
                                        } else if x == pos as int {
                                            if y > pos as int + 1 || y - 1 > pos as int {
                                            }
                                            if y - 1 == pos as int {
                                            } else {
                                                lemma_lex_lt_le_trans(
                                                    lk,
                                                    s1[pos as int].0@,
                                                    s1[y - 1].0@,
                                                );
                                            }
                                        } else if x < pos as int && y == pos as int {
                                        } else if x < pos as int && y > pos as int {
                                            if x == y - 1 {
                                                assert(lex_lt(s1[x].0@, lk));
                                                lemma_lex_lt_le_trans(
                                                    s1[x].0@,
                                                    lk,
                                                    s2[y].0@,
                                                );
                                            }
                                        }
                                    }
                                    assert forall|x: int|
                                        #![trigger s2[x]]
                                        0 <= x < s2.len() implies scan_entry_ok(
                                        self@,
                                        ts,
                                        s2[x].0@,
                                        s2[x].1@,
                                    ) by {
                                        if x == pos as int {
                                            assert(s2[x].0@ == lk && s2[x].1@ == pv);
                                            assert(newest_version_at(self@, lk, ts, cbest)
                                                && pv == self@[version_key(lk, cbest)]);
                                        } else {
                                            let xx = if x < pos as int {
                                                x
                                            } else {
                                                x - 1
                                            };
                                            assert(0 <= xx < s1.len() && s1[xx] == s2[x]);
                                            assert(scan_entry_ok(self@, ts, s1[xx].0@, s1[xx].1@));
                                        }
                                    }
                                    assert forall|j: int, k: Seq<u8>, cc: u64|
                                        #![trigger self.entries@[j], version_key(k, cc)]
                                        0 <= j < i + 1 && self.entries@[j].0@ == version_key(
                                            k,
                                            cc,
                                        ) && lex_le(start@, k) && lex_lt(k, end@) && cc
                                        <= ts implies exists|x: int|
                                        0 <= x < s2.len() && s2[x].0@ == k by {
                                        if j == i as int {
                                            lemma_version_key_injective(k, cc, lk, c);
                                            assert(s2[pos as int].0@ == k);
                                        } else {
                                            let x = choose|x: int|
                                                0 <= x < s1.len() && s1[x].0@ == k;
                                            if x < pos as int {
                                                assert(s2[x].0@ == k);
                                            } else {
                                                assert(s2[x + 1].0@ == k);
                                            }
                                        }
                                    }
                                }
                            },
                            None => {
                                proof {
                                    assert(false);
                                }
                            },
                        }
                    }
                } else {
                    proof {
                        assert forall|j: int, k: Seq<u8>, cc: u64|
                            #![trigger self.entries@[j], version_key(k, cc)]
                            0 <= j < i + 1 && self.entries@[j].0@ == version_key(k, cc) && lex_le(
                                start@,
                                k,
                            ) && lex_lt(k, end@) && cc <= ts implies exists|x: int|
                            0 <= x < r@.len() && r@[x].0@ == k by {
                            if j == i as int {
                                lemma_version_key_injective(k, cc, lk, c);
                            }
                        }
                    }
                }
            } else {
                proof {
                    assert forall|j: int, k: Seq<u8>, cc: u64|
                        #![trigger self.entries@[j], version_key(k, cc)]
                        0 <= j < i + 1 && self.entries@[j].0@ == version_key(k, cc) && lex_le(
                            start@,
                            k,
                        ) && lex_lt(k, end@) && cc <= ts implies exists|x: int|
                        0 <= x < r@.len() && r@[x].0@ == k by {
                        if j == i as int {
                            assert(version_key(k, cc).len() == k.len() + 8);
                        }
                    }
                }
            }
            i = i + 1;
        }
        proof {
            assert forall|k: Seq<u8>, c: u64|
                lex_le(start@, k) && lex_lt(k, end@) && #[trigger] has_version(self@, k, c) && c
                    <= ts implies exists|x: int| 0 <= x < r@.len() && r@[x].0@ == k by {
                let j = index_of(self.entries@, version_key(k, c));
                assert(self.entries@[j].0@ == version_key(k, c));
            }
        }
        r
    }
}

/// After updating position `i` of `s1` to hold `(k, v)`, where either `i` is
/// an in-range position already holding key `k` or `i` is the appended last
/// position of a store without `k`, the map view is the old view with `k`
/// bound to `v`.
proof fn lemma_map_after_update(
    s1: Seq<(Key, Value)>,
    s2: Seq<(Key, Value)>,
    i: int,
    k: Seq<u8>,
    v: Seq<u8>,
)
    requires
        distinct_keys(s2),
        0 <= i < s2.len(),
        s2[i].0@ == k,
        s2[i].1@ == v,
        s1.len() == s2.len() || s1.len() + 1 == s2.len(),
        i < s1.len() ==> s1.len() == s2.len() && s1[i].0@ == k,
        i == s1.len() ==> !has_key(s1, k),
        forall|j: int| 0 <= j < s1.len() && j != i ==> s1[j] == s2[j],
        distinct_keys(s1),
    ensures
        Map::new(|kk: Seq<u8>| has_key(s2, kk), |kk: Seq<u8>| s2[index_of(s2, kk)].1@) == Map::new(
            |kk: Seq<u8>| has_key(s1, kk),
            |kk: Seq<u8>| s1[index_of(s1, kk)].1@,
        ).insert(k, v),
{
    let m2 = Map::new(|kk: Seq<u8>| has_key(s2, kk), |kk: Seq<u8>| s2[index_of(s2, kk)].1@);
    let m1 = Map::new(|kk: Seq<u8>| has_key(s1, kk), |kk: Seq<u8>| s1[index_of(s1, kk)].1@);
    assert forall|kk: Seq<u8>| #![auto] has_key(s2, kk) == (has_key(s1, kk) || kk == k) by {
        if has_key(s2, kk) && kk != k {
            let j = choose|j: int| 0 <= j < s2.len() && s2[j].0@ == kk;
            assert(j != i);
            if j < s1.len() {
                assert(s1[j].0@ == kk);
            }
        }
        if has_key(s1, kk) && kk != k {
            let j = choose|j: int| 0 <= j < s1.len() && s1[j].0@ == kk;
            assert(j != i);
            assert(s2[j].0@ == kk);
        }
        if kk == k {
            assert(s2[i].0@ == kk);
        }
    }
    assert forall|kk: Seq<u8>| #![auto] m2.dom().contains(kk) implies m2[kk] == m1.insert(
        k,
        v,
    )[kk] by {
        if kk == k {
            lemma_index_of(s2, k, i);
        } else {
            let j = index_of(s2, kk);
            lemma_index_of(s2, kk, j);
            assert(j != i);
            assert(s1[j] == s2[j]);
            lemma_index_of(s1, kk, j);
        }
    }
    assert(m2 =~= m1.insert(k, v));
}

} // verus!
