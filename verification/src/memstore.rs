//! In-memory lock table.
//!
//! `MemStore` maps a logical key to its outstanding write intent, a pair of
//! the intent's start timestamp and the pending value. It serializes the
//! prewrite/commit/rollback handshake: at most one intent per key exists at
//! any time, which the `Map` view makes structural. Entries live in memory
//! only; a process crash loses all outstanding intents.

use crate::keyorder::{key_eq, key_le, lex_le, lex_lt};
use crate::{Key, Value};
use vstd::prelude::*;

verus! {

/// Some key in `[start, end)` holds an intent whose start timestamp is at or
/// below `ts`, so a range read at `ts` would race an in-flight writer.
pub open spec fn spec_range_conflict(
    locks: Map<Seq<u8>, (u64, Seq<u8>)>,
    start: Seq<u8>,
    end: Seq<u8>,
    ts: u64,
) -> bool {
    exists|k: Seq<u8>|
        #[trigger] locks.dom().contains(k) && lex_le(start, k) && lex_lt(k, end) && locks[k].0
            <= ts
}

/// Hash-table-style lock table: key to (start timestamp, pending value).
pub struct MemStore {
    entries: Vec<(Key, (u64, Value))>,
}

/// Some entry of `s` holds the key `k`.
spec fn has_key(s: Seq<(Key, (u64, Value))>, k: Seq<u8>) -> bool {
    exists|i: int| 0 <= i < s.len() && s[i].0@ == k
}

/// The index of the entry holding `k`.
spec fn index_of(s: Seq<(Key, (u64, Value))>, k: Seq<u8>) -> int {
    choose|i: int| 0 <= i < s.len() && s[i].0@ == k
}

/// The intent stored under `k`, as a mathematical pair.
spec fn entry_value(s: Seq<(Key, (u64, Value))>, k: Seq<u8>) -> (u64, Seq<u8>) {
    let i = index_of(s, k);
    (s[i].1.0, s[i].1.1@)
}

/// No two entries of `s` hold the same key.
spec fn distinct_keys(s: Seq<(Key, (u64, Value))>) -> bool {
    forall|i: int, j: int| 0 <= i < j < s.len() ==> s[i].0@ != s[j].0@
}

proof fn lemma_index_of(s: Seq<(Key, (u64, Value))>, k: Seq<u8>, i: int)
    requires
        distinct_keys(s),
        0 <= i < s.len(),
        s[i].0@ == k,
    ensures
        has_key(s, k),
        index_of(s, k) == i,
{
    assert(has_key(s, k));
    let j = index_of(s, k);
    if j != i {
        assert(s[i].0@ != s[j].0@);
    }
}

impl View for MemStore {
    type V = Map<Seq<u8>, (u64, Seq<u8>)>;

    closed spec fn view(&self) -> Map<Seq<u8>, (u64, Seq<u8>)> {
        Map::new(|k: Seq<u8>| has_key(self.entries@, k), |k: Seq<u8>| entry_value(self.entries@, k))
    }
}

impl MemStore {
    /// The table's keys are pairwise distinct, so the `Map` view determines
    /// every entry.
    pub closed spec fn inv(&self) -> bool {
        distinct_keys(self.entries@)
    }

    /// An empty lock table.
    pub fn new() -> (r: Self)
        ensures
            r.inv(),
            r@ == Map::<Seq<u8>, (u64, Seq<u8>)>::empty(),
    {
        let r = MemStore { entries: Vec::new() };
        proof {
            assert(r@ =~= Map::<Seq<u8>, (u64, Seq<u8>)>::empty());
        }
        r
    }

    /// Finds the position of the entry holding `key`, if one exists.
    fn find(&self, key: &Key) -> (r: Option<usize>)
        ensures
            match r {
                Some(i) => i < self.entries@.len() && self.entries@[i as int].0@ == key@,
                None => !has_key(self.entries@, key@),
            },
    {
        let mut i: usize = 0;
        while i < self.entries.len()
            invariant
                i <= self.entries@.len(),
                forall|j: int| 0 <= j < i ==> self.entries@[j].0@ != key@,
            decreases self.entries@.len() - i,
        {
            if key_eq(&self.entries[i].0, key) {
                return Some(i);
            }
            i = i + 1;
        }
        None
    }

    /// Installs the intent `(ts, value)` under `key`, returning the intent it
    /// replaced, if any.
    pub fn insert(&mut self, key: Key, value: Value, ts: u64) -> (r: Option<(u64, Value)>)
        requires
            old(self).inv(),
        ensures
            final(self).inv(),
            final(self)@ == old(self)@.insert(key@, (ts, value@)),
            match r {
                Some(prev) => old(self)@.dom().contains(key@) && old(self)@[key@] == (
                prev.0,
                prev.1@,
                ),
                None => !old(self)@.dom().contains(key@),
            },
    {
        let ghost s1 = self.entries@;
        let ghost kk = key@;
        let ghost vv = value@;
        match self.find(&key) {
            Some(i) => {
                let prev = (self.entries[i].1.0, self.entries[i].1.1.clone());
                proof {
                    lemma_index_of(s1, kk, i as int);
                }
                self.entries[i] = (key, (ts, value));
                proof {
                    let s2 = self.entries@;
                    assert forall|ii: int, jj: int|
                        0 <= ii < jj < s2.len() implies s2[ii].0@ != s2[jj].0@ by {
                        assert(s2[ii].0@ == s1[ii].0@);
                        assert(s2[jj].0@ == s1[jj].0@);
                    }
                    lemma_map_after_update(s1, s2, i as int, kk, (ts, vv));
                    assert(self@ =~= old(self)@.insert(kk, (ts, vv)));
                }
                Some(prev)
            },
            None => {
                self.entries.push((key, (ts, value)));
                proof {
                    let s2 = self.entries@;
                    let n = s1.len() as int;
                    assert forall|ii: int, jj: int|
                        0 <= ii < jj < s2.len() implies s2[ii].0@ != s2[jj].0@ by {
                        if jj < n {
                            assert(s2[ii].0@ == s1[ii].0@);
                            assert(s2[jj].0@ == s1[jj].0@);
                        } else {
                            assert(s2[jj].0@ == kk);
                            assert(s2[ii].0@ == s1[ii].0@);
                            assert(!has_key(s1, kk));
                        }
                    }
                    lemma_map_after_update(s1, s2, n, kk, (ts, vv));
                    assert(self@ =~= old(self)@.insert(kk, (ts, vv)));
                }
                None
            },
        }
    }

    /// Whether `key` holds an outstanding intent.
    pub fn contains_key(&self, key: &Key) -> (r: bool)
        ensures
            r == self@.dom().contains(key@),
    {
        match self.find(key) {
            Some(i) => {
                proof {
                    assert(has_key(self.entries@, key@));
                }
                true
            },
            None => false,
        }
    }

    /// Removes and returns the intent under `key`, if one exists.
    pub fn remove(&mut self, key: &Key) -> (r: Option<(u64, Value)>)
        requires
            old(self).inv(),
        ensures
            final(self).inv(),
            final(self)@ == old(self)@.remove(key@),
            match r {
                Some(prev) => old(self)@.dom().contains(key@) && old(self)@[key@] == (
                prev.0,
                prev.1@,
                ),
                None => !old(self)@.dom().contains(key@),
            },
    {
        let ghost s1 = self.entries@;
        let ghost kk = key@;
        match self.find(key) {
            Some(i) => {
                proof {
                    lemma_index_of(s1, kk, i as int);
                }
                let prev = self.entries.remove(i);
                proof {
                    let s2 = self.entries@;
                    assert forall|ii: int, jj: int|
                        0 <= ii < jj < s2.len() implies s2[ii].0@ != s2[jj].0@ by {
                        lemma_remove_index(s1, i as int, ii);
                        lemma_remove_index(s1, i as int, jj);
                    }
                    assert forall|k: Seq<u8>| #![auto] has_key(s2, k) == (has_key(s1, k) && k
                        != kk) by {
                        if has_key(s2, k) {
                            let j = choose|j: int| 0 <= j < s2.len() && s2[j].0@ == k;
                            lemma_remove_index(s1, i as int, j);
                        }
                        if has_key(s1, k) && k != kk {
                            let j = choose|j: int| 0 <= j < s1.len() && s1[j].0@ == k;
                            if j < i as int {
                                lemma_remove_index(s1, i as int, j);
                                assert(s2[j].0@ == k);
                            } else {
                                assert(j > i as int);
                                lemma_remove_index(s1, i as int, j - 1);
                                assert(s2[j - 1].0@ == k);
                            }
                        }
                    }
                    assert forall|k: Seq<u8>| #![auto] self@.dom().contains(k) implies self@[k]
                        == old(self)@[k] by {
                        let j = index_of(s2, k);
                        lemma_index_of(s2, k, j);
                        lemma_remove_index(s1, i as int, j);
                        if j < i as int {
                            lemma_index_of(s1, k, j);
                        } else {
                            lemma_index_of(s1, k, j + 1);
                        }
                    }
                    assert(self@ =~= old(self)@.remove(kk));
                }
                Some(prev.1)
            },
            None => {
                proof {
                    assert(self@ =~= old(self)@.remove(kk));
                }
                None
            },
        }
    }

    /// Looks up the intent under `key` without changing the table.
    pub fn get(&self, key: &Key) -> (r: Option<(u64, Value)>)
        requires
            self.inv(),
        ensures
            match r {
                Some(p) => self@.dom().contains(key@) && self@[key@] == (p.0, p.1@),
                None => !self@.dom().contains(key@),
            },
    {
        match self.find(key) {
            Some(i) => {
                proof {
                    lemma_index_of(self.entries@, key@, i as int);
                }
                Some((self.entries[i].1.0, self.entries[i].1.1.clone()))
            },
            None => None,
        }
    }

    /// Whether some key in `[start, end)` holds an intent with start
    /// timestamp at or below `ts`.
    pub fn range_conflict(&self, start: &Key, end: &Key, ts: u64) -> (r: bool)
        requires
            self.inv(),
        ensures
            r == spec_range_conflict(self@, start@, end@, ts),
    {
        let mut i: usize = 0;
        while i < self.entries.len()
            invariant
                self.inv(),
                i <= self.entries@.len(),
                forall|j: int|
                    0 <= j < i ==> !(lex_le(start@, #[trigger] self.entries@[j].0@) && lex_lt(
                        self.entries@[j].0@,
                        end@,
                    ) && self.entries@[j].1.0 <= ts),
            decreases self.entries@.len() - i,
        {
            let k = &self.entries[i].0;
            if key_le(start, k) && key_le(k, end) && !key_eq(k, end) && self.entries[i].1.0 <= ts {
                proof {
                    lemma_index_of(self.entries@, k@, i as int);
                    assert(self@.dom().contains(k@) && lex_le(start@, k@) && lex_lt(k@, end@)
                        && self@[k@].0 <= ts);
                }
                return true;
            }
            i = i + 1;
        }
        proof {
            if spec_range_conflict(self@, start@, end@, ts) {
                let k = choose|k: Seq<u8>|
                    #[trigger] self@.dom().contains(k) && lex_le(start@, k) && lex_lt(k, end@)
                        && self@[k].0 <= ts;
                let j = index_of(self.entries@, k);
                lemma_index_of(self.entries@, k, j);
            }
        }
        false
    }
}

/// After updating position `i` of `s1` to hold `(k, v)`, where either `i` is
/// an in-range position already holding key `k` or `i` is the appended last
/// position of a table without `k`, the map view is the old view with `k`
/// bound to `v`.
proof fn lemma_map_after_update(
    s1: Seq<(Key, (u64, Value))>,
    s2: Seq<(Key, (u64, Value))>,
    i: int,
    k: Seq<u8>,
    v: (u64, Seq<u8>),
)
    requires
        distinct_keys(s2),
        0 <= i < s2.len(),
        s2[i].0@ == k,
        (s2[i].1.0, s2[i].1.1@) == v,
        s1.len() == s2.len() || s1.len() + 1 == s2.len(),
        i < s1.len() ==> s1.len() == s2.len() && s1[i].0@ == k,
        i == s1.len() ==> !has_key(s1, k),
        forall|j: int| 0 <= j < s1.len() && j != i ==> s1[j] == s2[j],
        distinct_keys(s1),
    ensures
        Map::new(|kk: Seq<u8>| has_key(s2, kk), |kk: Seq<u8>| entry_value(s2, kk)) == Map::new(
            |kk: Seq<u8>| has_key(s1, kk),
            |kk: Seq<u8>| entry_value(s1, kk),
        ).insert(k, v),
{
    let m2 = Map::new(|kk: Seq<u8>| has_key(s2, kk), |kk: Seq<u8>| entry_value(s2, kk));
    let m1 = Map::new(|kk: Seq<u8>| has_key(s1, kk), |kk: Seq<u8>| entry_value(s1, kk));
    assert forall|kk: Seq<u8>| #![auto] has_key(s2, kk) == (has_key(s1, kk) || kk == k) by {
        if has_key(s2, kk) && kk != k {
            let j = choose|j: int| 0 <= j < s2.len() && s2[j].0@ == kk;
            assert(j != i);
            if j < s1.len() {
                assert(s1[j].0@ == kk);
            }
        }
        if has_key(s1, kk) && kk != k {
            let j = choose|j: int| 0 <= j < s1.len() && s1[j].0@ == kk;
            assert(j != i);
            assert(s2[j].0@ == kk);
        }
        if kk == k {
            assert(s2[i].0@ == kk);
        }
    }
    assert forall|kk: Seq<u8>| #![auto] m2.dom().contains(kk) implies m2[kk] == m1.insert(
        k,
        v,
    )[kk] by {
        if kk == k {
            lemma_index_of(s2, k, i);
        } else {
            let j = index_of(s2, kk);
            lemma_index_of(s2, kk, j);
            assert(j != i);
            assert(s1[j] == s2[j]);
            lemma_index_of(s1, kk, j);
        }
    }
    assert(m2 =~= m1.insert(k, v));
}

/// Relates positions of `s.remove(i)` to positions of `s`.
proof fn lemma_remove_index(s: Seq<(Key, (u64, Value))>, i: int, j: int)
    requires
        0 <= i < s.len(),
        0 <= j < s.len() - 1,
    ensures
        s.remove(i)[j] == if j < i {
            s[j]
        } else {
            s[j + 1]
        },
{
}

/// A skip-list backing for the lock table; `MemStore` is the backing the
/// storages use.
pub struct SkipList {}

} // verus!
