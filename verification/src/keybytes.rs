//! Byte-sequence keys and their lexicographic order.
//!
//! Keys are arbitrary byte sequences compared lexicographically as unsigned
//! bytes. This module gives the order a specification, proves the standard
//! order laws about it, and provides the executable comparisons that the key
//! directory and the write buffer are verified against.

use vstd::prelude::*;

verus! {

/// The outcome of comparing two keys.
#[derive(Debug, Clone, Copy, PartialEq, Eq, Structural)]
pub enum KeyOrder {
    Less,
    Equal,
    Greater,
}

/// Strict lexicographic order on byte sequences: `a` comes before `b`.
pub open spec fn lex_lt(a: Seq<u8>, b: Seq<u8>) -> bool
    decreases a.len(),
{
    if b.len() == 0 {
        false
    } else if a.len() == 0 {
        true
    } else if a[0] < b[0] {
        true
    } else if a[0] > b[0] {
        false
    } else {
        lex_lt(a.skip(1), b.skip(1))
    }
}

/// Non-strict lexicographic order.
pub open spec fn lex_le(a: Seq<u8>, b: Seq<u8>) -> bool {
    lex_lt(a, b) || a == b
}

/// `p` is a prefix of `s`.
pub open spec fn is_prefix(p: Seq<u8>, s: Seq<u8>) -> bool {
    p.len() <= s.len() && s.take(p.len() as int) == p
}

/// A common prefix of length `i`, followed by a smaller byte in `a`,
/// decides the order.
proof fn lemma_lex_from_diff(a: Seq<u8>, b: Seq<u8>, i: int)
    requires
        0 <= i < a.len(),
        i < b.len(),
        a.take(i) == b.take(i),
        a[i] < b[i],
    ensures
        lex_lt(a, b),
    decreases i,
{
    if i == 0 {
    } else {
        assert(a.take(i)[0] == a[0]);
        assert(b.take(i)[0] == b[0]);
        assert(a.skip(1).take(i - 1) =~= a.take(i).skip(1));
        assert(b.skip(1).take(i - 1) =~= b.take(i).skip(1));
        assert(a.skip(1)[i - 1] == a[i]);
        assert(b.skip(1)[i - 1] == b[i]);
        lemma_lex_from_diff(a.skip(1), b.skip(1), i - 1);
    }
}

/// A proper prefix comes first in the order.
proof fn lemma_lex_from_prefix(a: Seq<u8>, b: Seq<u8>)
    requires
        a.len() < b.len(),
        b.take(a.len() as int) == a,
    ensures
        lex_lt(a, b),
    decreases a.len(),
{
    if a.len() == 0 {
    } else {
        assert(b.take(a.len() as int)[0] == b[0]);
        assert(b.skip(1).take(a.len() - 1) =~= b.take(a.len() as int).skip(1));
        lemma_lex_from_prefix(a.skip(1), b.skip(1));
    }
}

/// The order never holds both ways.
pub proof fn lemma_lex_asymmetric(a: Seq<u8>, b: Seq<u8>)
    requires
        lex_lt(a, b),
    ensures
        !lex_lt(b, a),
        a != b,
    decreases a.len(),
{
    if b.len() == 0 {
    } else if a.len() == 0 {
    } else if a[0] < b[0] {
    } else if a[0] > b[0] {
    } else {
        lemma_lex_asymmetric(a.skip(1), b.skip(1));
        if a == b {
            assert(a.skip(1) =~= b.skip(1));
        }
    }
}

/// Two keys that neither order relates are the same key.
pub proof fn lemma_lex_connected(a: Seq<u8>, b: Seq<u8>)
    requires
        !lex_lt(a, b),
        !lex_lt(b, a),
    ensures
        a == b,
    decreases a.len(),
{
    if b.len() == 0 {
        assert(a =~= b);
    } else if a.len() == 0 {
    } else if a[0] < b[0] {
    } else if a[0] > b[0] {
    } else {
        lemma_lex_connected(a.skip(1), b.skip(1));
        assert(a =~= seq![a[0]] + a.skip(1));
        assert(b =~= seq![b[0]] + b.skip(1));
    }
}

/// The order is transitive.
pub proof fn lemma_lex_transitive(a: Seq<u8>, b: Seq<u8>, c: Seq<u8>)
    requires
        lex_lt(a, b),
        lex_lt(b, c),
    ensures
        lex_lt(a, c),
    decreases b.len(),
{
    if a.len() == 0 {
    } else if b.len() == 0 {
    } else if c.len() == 0 {
    } else {
        if a[0] < b[0] {
            if b[0] < c[0] {
            } else if b[0] > c[0] {
            } else {
                lemma_lex_from_diff_head(a, c);
            }
        } else if a[0] == b[0] {
            if b[0] < c[0] {
                lemma_lex_from_diff_head(a, c);
            } else {
                lemma_lex_transitive(a.skip(1), b.skip(1), c.skip(1));
            }
        }
    }
}

/// A smaller first byte decides the order outright.
proof fn lemma_lex_from_diff_head(a: Seq<u8>, c: Seq<u8>)
    requires
        a.len() > 0,
        c.len() > 0,
        a[0] < c[0],
    ensures
        lex_lt(a, c),
{
}

/// Compare two keys in lexicographic byte order.
pub fn key_cmp(a: &Vec<u8>, b: &Vec<u8>) -> (r: KeyOrder)
    ensures
        r == KeyOrder::Less <==> lex_lt(a@, b@),
        r == KeyOrder::Equal <==> a@ == b@,
        r == KeyOrder::Greater <==> lex_lt(b@, a@),
{
    let n = if a.len() < b.len() {
        a.len()
    } else {
        b.len()
    };
    let mut i: usize = 0;
    while i < n
        invariant
            0 <= i <= n,
            n <= a@.len(),
            n <= b@.len(),
            n == a@.len() || n == b@.len(),
            a@.take(i as int) == b@.take(i as int),
        decreases n - i,
    {
        if a[i] < b[i] {
            proof {
                lemma_lex_from_diff(a@, b@, i as int);
                lemma_lex_asymmetric(a@, b@);
            }
            return KeyOrder::Less;
        }
        if a[i] > b[i] {
            proof {
                lemma_lex_from_diff(b@, a@, i as int);
                lemma_lex_asymmetric(b@, a@);
            }
            return KeyOrder::Greater;
        }
        proof {
            assert(a@.take(i + 1) =~= a@.take(i as int) + seq![a@[i as int]]);
            assert(b@.take(i + 1) =~= b@.take(i as int) + seq![b@[i as int]]);
        }
        i = i + 1;
    }
    if a.len() < b.len() {
        proof {
            assert(a@.take(n as int) =~= a@);
            lemma_lex_from_prefix(a@, b@);
            lemma_lex_asymmetric(a@, b@);
        }
        KeyOrder::Less
    } else if a.len() > b.len() {
        proof {
            assert(b@.take(n as int) =~= b@);
            lemma_lex_from_prefix(b@, a@);
            lemma_lex_asymmetric(b@, a@);
        }
        KeyOrder::Greater
    } else {
        proof {
            assert(a@ =~= a@.take(n as int));
            assert(b@ =~= b@.take(n as int));
            if lex_lt(a@, b@) {
                lemma_lex_asymmetric(a@, b@);
            }
            if lex_lt(b@, a@) {
                lemma_lex_asymmetric(b@, a@);
            }
        }
        KeyOrder::Equal
    }
}

/// Does `s` start with the prefix `p`?
pub fn starts_with(s: &Vec<u8>, p: &Vec<u8>) -> (r: bool)
    ensures
        r == is_prefix(p@, s@),
{
    if p.len() > s.len() {
        return false;
    }
    let mut i: usize = 0;
    while i < p.len()
        invariant
            0 <= i <= p@.len(),
            p@.len() <= s@.len(),
            s@.take(i as int) == p@.take(i as int),
        decreases p@.len() - i,
    {
        if s[i] != p[i] {
            proof {
                assert(s@.take(p@.len() as int)[i as int] == s@[i as int]);
                assert(p@[i as int] != s@[i as int]);
            }
            return false;
        }
        proof {
            assert(s@.take(i + 1) =~= s@.take(i as int) + seq![s@[i as int]]);
            assert(p@.take(i + 1) =~= p@.take(i as int) + seq![p@[i as int]]);
        }
        i = i + 1;
    }
    proof {
        assert(s@.take(p@.len() as int) =~= p@.take(p@.len() as int));
        assert(p@.take(p@.len() as int) =~= p@);
    }
    true
}

/// One end of a key range: open, or bounded by a key, inclusively or not.
#[derive(Debug, Clone)]
pub enum KeyBound {
    Unbounded,
    Included(Vec<u8>),
    Excluded(Vec<u8>),
}

/// Does `k` lie above the lower bound `b`?
pub open spec fn lo_admits(b: KeyBound, k: Seq<u8>) -> bool {
    match b {
        KeyBound::Unbounded => true,
        KeyBound::Included(v) => lex_le(v@, k),
        KeyBound::Excluded(v) => lex_lt(v@, k),
    }
}

/// Does `k` lie below the upper bound `b`?
pub open spec fn hi_admits(b: KeyBound, k: Seq<u8>) -> bool {
    match b {
        KeyBound::Unbounded => true,
        KeyBound::Included(v) => lex_le(k, v@),
        KeyBound::Excluded(v) => lex_lt(k, v@),
    }
}

/// Test `k` against the lower bound `b`.
pub fn lo_ok(b: &KeyBound, k: &Vec<u8>) -> (r: bool)
    ensures
        r == lo_admits(*b, k@),
{
    match b {
        KeyBound::Unbounded => true,
        KeyBound::Included(v) => match key_cmp(v, k) {
            KeyOrder::Greater => false,
            _ => true,
        },
        KeyBound::Excluded(v) => match key_cmp(v, k) {
            KeyOrder::Less => true,
            _ => false,
        },
    }
}

/// Test `k` against the upper bound `b`.
pub fn hi_ok(b: &KeyBound, k: &Vec<u8>) -> (r: bool)
    ensures
        r == hi_admits(*b, k@),
{
    match b {
        KeyBound::Unbounded => true,
        KeyBound::Included(v) => match key_cmp(k, v) {
            KeyOrder::Greater => false,
            _ => true,
        },
        KeyBound::Excluded(v) => match key_cmp(k, v) {
            KeyOrder::Less => true,
            _ => false,
        },
    }
}

/// `k` occurs in `s`.
pub open spec fn key_in(s: Seq<Seq<u8>>, k: Seq<u8>) -> bool {
    exists|i: int| 0 <= i < s.len() && #[trigger] s[i] == k
}

/// Two strictly sorted key sequences with the same members are the same
/// sequence: a snapshot of keys is determined by the set it lists.
pub proof fn lemma_sorted_keys_equal(a: Seq<Seq<u8>>, b: Seq<Seq<u8>>)
    requires
        forall|i: int, j: int| 0 <= i < j < a.len() ==> lex_lt(#[trigger] a[i], #[trigger] a[j]),
        forall|i: int, j: int| 0 <= i < j < b.len() ==> lex_lt(#[trigger] b[i], #[trigger] b[j]),
        forall|k: Seq<u8>| #[trigger] key_in(a, k) <==> #[trigger] key_in(b, k),
    ensures
        a == b,
    decreases a.len(),
{
    if a.len() == 0 {
        if b.len() > 0 {
            assert(b[0] == b[0]);
            assert(key_in(b, b[0]));
            assert(key_in(a, b[0]));
        }
        assert(a =~= b);
    } else {
        assert(a[0] == a[0]);
        assert(key_in(a, a[0]));
        assert(key_in(b, a[0]));
        let j = choose|j: int| 0 <= j < b.len() && #[trigger] b[j] == a[0];
        assert(b[0] == b[0]);
        assert(key_in(b, b[0]));
        assert(key_in(a, b[0]));
        let i = choose|i: int| 0 <= i < a.len() && #[trigger] a[i] == b[0];
        if i > 0 && j > 0 {
            assert(lex_lt(a[0], a[i]));
            assert(lex_lt(b[0], b[j]));
            lemma_lex_transitive(a[0], b[0], a[0]);
            lemma_lex_asymmetric(a[0], b[0]);
        }
        assert(a[0] == b[0]);
        let at = a.skip(1);
        let bt = b.skip(1);
        assert forall|k: Seq<u8>| #[trigger] key_in(at, k) <==> #[trigger] key_in(bt, k) by {
            if key_in(at, k) {
                let i2 = choose|i2: int| 0 <= i2 < at.len() && #[trigger] at[i2] == k;
                assert(a[i2 + 1] == k);
                assert(lex_lt(a[0], k));
                lemma_lex_asymmetric(a[0], k);
                assert(key_in(a, k));
                assert(key_in(b, k));
                let j2 = choose|j2: int| 0 <= j2 < b.len() && #[trigger] b[j2] == k;
                assert(j2 > 0);
                assert(bt[j2 - 1] == k);
                assert(key_in(bt, k));
            }
            if key_in(bt, k) {
                let i2 = choose|i2: int| 0 <= i2 < bt.len() && #[trigger] bt[i2] == k;
                assert(b[i2 + 1] == k);
                assert(lex_lt(b[0], k));
                lemma_lex_asymmetric(b[0], k);
                assert(key_in(b, k));
                assert(key_in(a, k));
                let j2 = choose|j2: int| 0 <= j2 < a.len() && #[trigger] a[j2] == k;
                assert(j2 > 0);
                assert(at[j2 - 1] == k);
                assert(key_in(at, k));
            }
        }
        assert forall|i2: int, j2: int| 0 <= i2 < j2 < at.len() implies lex_lt(
            #[trigger] at[i2],
            #[trigger] at[j2],
        ) by {
            assert(at[i2] == a[i2 + 1]);
            assert(at[j2] == a[j2 + 1]);
        }
        assert forall|i2: int, j2: int| 0 <= i2 < j2 < bt.len() implies lex_lt(
            #[trigger] bt[i2],
            #[trigger] bt[j2],
        ) by {
            assert(bt[i2] == b[i2 + 1]);
            assert(bt[j2] == b[j2 + 1]);
        }
        lemma_sorted_keys_equal(at, bt);
        assert(a =~= seq![a[0]] + at);
        assert(b =~= seq![b[0]] + bt);
    }
}

} // verus!
