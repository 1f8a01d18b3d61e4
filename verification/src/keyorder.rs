//! Lexicographic order on byte-string keys.
//!
//! Logical keys are opaque byte strings whose total order is the
//! lexicographic order over raw bytes; scans and range conflict checks are
//! stated against it.

use vstd::prelude::*;

verus! {

/// `a` comes at or before `b` in lexicographic byte order.
pub open spec fn lex_le(a: Seq<u8>, b: Seq<u8>) -> bool
    decreases a.len(),
{
    if a.len() == 0 {
        true
    } else if b.len() == 0 {
        false
    } else if a[0] < b[0] {
        true
    } else if a[0] > b[0] {
        false
    } else {
        lex_le(a.skip(1), b.skip(1))
    }
}

/// `a` comes strictly before `b` in lexicographic byte order.
pub open spec fn lex_lt(a: Seq<u8>, b: Seq<u8>) -> bool {
    lex_le(a, b) && a != b
}

/// The order is total: one of the two directions always holds.
pub proof fn lemma_lex_le_total(a: Seq<u8>, b: Seq<u8>)
    ensures
        lex_le(a, b) || lex_le(b, a),
    decreases a.len(),
{
    if a.len() != 0 && b.len() != 0 && a[0] == b[0] {
        lemma_lex_le_total(a.skip(1), b.skip(1));
    }
}

/// The order is antisymmetric: keys below each other are equal.
pub proof fn lemma_lex_le_antisym(a: Seq<u8>, b: Seq<u8>)
    requires
        lex_le(a, b),
        lex_le(b, a),
    ensures
        a == b,
    decreases a.len(),
{
    if a.len() == 0 {
        assert(b.len() == 0);
        assert(a =~= b);
    } else {
        assert(b.len() != 0);
        assert(a[0] == b[0]);
        lemma_lex_le_antisym(a.skip(1), b.skip(1));
        assert(a =~= b) by {
            assert(a.skip(1) =~= b.skip(1));
            assert(forall|i: int| 1 <= i < a.len() ==> a[i] == a.skip(1)[i - 1] && b[i] == b.skip(
                1,
            )[i - 1]);
        };
    }
}

/// The order is transitive.
pub proof fn lemma_lex_le_trans(a: Seq<u8>, b: Seq<u8>, c: Seq<u8>)
    requires
        lex_le(a, b),
        lex_le(b, c),
    ensures
        lex_le(a, c),
    decreases a.len(),
{
    if a.len() != 0 {
        assert(b.len() != 0);
        assert(c.len() != 0);
        if a[0] == b[0] && b[0] == c[0] {
            lemma_lex_le_trans(a.skip(1), b.skip(1), c.skip(1));
        }
    }
}

/// A strict step followed by a non-strict one stays strict.
pub proof fn lemma_lex_lt_le_trans(a: Seq<u8>, b: Seq<u8>, c: Seq<u8>)
    requires
        lex_lt(a, b),
        lex_le(b, c),
    ensures
        lex_lt(a, c),
{
    lemma_lex_le_trans(a, b, c);
    if a == c {
        lemma_lex_le_antisym(a, b);
    }
}

/// Keys that differ first at position `d` compare by the bytes there.
pub proof fn lemma_lex_first_diff(a: Seq<u8>, b: Seq<u8>, d: int)
    requires
        a.len() == b.len(),
        0 <= d < a.len(),
        forall|i: int| 0 <= i < d ==> a[i] == b[i],
        a[d] != b[d],
    ensures
        lex_le(a, b) == (a[d] < b[d]),
    decreases d,
{
    if d > 0 {
        assert(a[0] == b[0]);
        let a1 = a.skip(1);
        let b1 = b.skip(1);
        assert(forall|i: int| 0 <= i < d - 1 ==> a1[i] == a[i + 1] && b1[i] == b[i + 1]);
        lemma_lex_first_diff(a1, b1, d - 1);
        assert(a1[d - 1] == a[d] && b1[d - 1] == b[d]);
    }
}

/// A shared prefix does not affect the comparison of what follows it.
pub proof fn lemma_lex_le_common_prefix(p: Seq<u8>, a: Seq<u8>, b: Seq<u8>)
    ensures
        lex_le(p + a, p + b) == lex_le(a, b),
    decreases p.len(),
{
    if p.len() == 0 {
        assert(p + a =~= a);
        assert(p + b =~= b);
    } else {
        assert((p + a).len() > 0 && (p + b).len() > 0);
        assert((p + a)[0] == p[0] && (p + b)[0] == p[0]);
        assert((p + a).skip(1) =~= p.skip(1) + a);
        assert((p + b).skip(1) =~= p.skip(1) + b);
        lemma_lex_le_common_prefix(p.skip(1), a, b);
    }
}

/// Dropping an equal leading byte on both sides keeps the order unchanged.
pub proof fn lemma_lex_le_skip_step(a: Seq<u8>, b: Seq<u8>, i: int)
    requires
        0 <= i < a.len(),
        i < b.len(),
        a[i] == b[i],
    ensures
        lex_le(a.skip(i), b.skip(i)) == lex_le(a.skip(i + 1), b.skip(i + 1)),
{
    assert(a.skip(i)[0] == a[i]);
    assert(b.skip(i)[0] == b[i]);
    assert(a.skip(i).skip(1) =~= a.skip(i + 1));
    assert(b.skip(i).skip(1) =~= b.skip(i + 1));
}

/// Compares two keys in lexicographic byte order.
pub fn key_le(a: &Vec<u8>, b: &Vec<u8>) -> (r: bool)
    ensures
        r == lex_le(a@, b@),
{
    assert(a@.skip(0) =~= a@);
    assert(b@.skip(0) =~= b@);
    let mut i: usize = 0;
    loop
        invariant
            i <= a.len(),
            i <= b.len(),
            lex_le(a@, b@) == lex_le(a@.skip(i as int), b@.skip(i as int)),
        decreases a.len() - i,
    {
        if i >= a.len() {
            assert(a@.skip(i as int).len() == 0);
            return true;
        }
        if i >= b.len() {
            assert(b@.skip(i as int).len() == 0 && a@.skip(i as int).len() > 0);
            return false;
        }
        let x = a[i];
        let y = b[i];
        assert(a@.skip(i as int)[0] == a@[i as int]);
        assert(b@.skip(i as int)[0] == b@[i as int]);
        if x < y {
            return true;
        } else if x > y {
            return false;
        }
        proof {
            lemma_lex_le_skip_step(a@, b@, i as int);
        }
        i = i + 1;
    }
}

/// Tests two keys for byte-for-byte equality.
pub fn key_eq(a: &Vec<u8>, b: &Vec<u8>) -> (r: bool)
    ensures
        r == (a@ == b@),
{
    if a.len() != b.len() {
        return false;
    }
    let mut i: usize = 0;
    while i < a.len()
        invariant
            i <= a.len(),
            a.len() == b.len(),
            forall|j: int| 0 <= j < i ==> a@[j] == b@[j],
        decreases a.len() - i,
    {
        if a[i] != b[i] {
            return false;
        }
        i = i + 1;
    }
    assert(a@ =~= b@);
    true
}

} // verus!
