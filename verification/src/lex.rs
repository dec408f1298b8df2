//! Lexicographic order on byte sequences.
//!
//! Encoded sort keys are compared bytewise; every ordering claim of the
//! Top-K heap, the merge and the row encoder is stated over this order.

use vstd::prelude::*;

verus! {

/// Strict lexicographic "less than" on byte sequences.
pub open spec fn lex_lt(a: Seq<u8>, b: Seq<u8>) -> bool
    decreases a.len(),
{
    if b.len() == 0 {
        false
    } else if a.len() == 0 {
        true
    } else if a[0] != b[0] {
        a[0] < b[0]
    } else {
        lex_lt(a.skip(1), b.skip(1))
    }
}

/// Lexicographic "less than or equal": not strictly greater.
pub open spec fn lex_le(a: Seq<u8>, b: Seq<u8>) -> bool {
    !lex_lt(b, a)
}

/// `a` is a (possibly improper) prefix of `b`.
pub open spec fn is_prefix(a: Seq<u8>, b: Seq<u8>) -> bool {
    a.len() <= b.len() && a == b.take(a.len() as int)
}

/// Exactly one of `lex_lt(a, b)`, `a == b`, `lex_lt(b, a)` holds.
pub proof fn lemma_lex_trichotomy(a: Seq<u8>, b: Seq<u8>)
    ensures
        lex_lt(a, b) || lex_lt(b, a) || a =~= b,
        lex_lt(a, b) ==> !lex_lt(b, a),
        lex_lt(a, b) ==> !(a =~= b),
    decreases a.len(),
{
    if a.len() == 0 || b.len() == 0 {
        if a.len() == b.len() {
            assert(a =~= b);
        }
    } else if a[0] == b[0] {
        lemma_lex_trichotomy(a.skip(1), b.skip(1));
        if a.skip(1) =~= b.skip(1) && a.len() == b.len() {
            assert forall|i: int| 0 <= i < a.len() implies a[i] == b[i] by {
                if i > 0 {
                    assert(a[i] == a.skip(1)[i - 1]);
                    assert(b[i] == b.skip(1)[i - 1]);
                }
            }
            assert(a =~= b);
        }
    }
}

/// Strict lexicographic order is transitive.
pub proof fn lemma_lex_lt_trans(a: Seq<u8>, b: Seq<u8>, c: Seq<u8>)
    requires
        lex_lt(a, b),
        lex_lt(b, c),
    ensures
        lex_lt(a, c),
    decreases a.len(),
{
    if a.len() == 0 || b.len() == 0 || c.len() == 0 {
    } else if a[0] == b[0] && b[0] == c[0] {
        lemma_lex_lt_trans(a.skip(1), b.skip(1), c.skip(1));
    }
}

/// The strict order is irreflexive, so `lex_le` is reflexive.
pub proof fn lemma_lex_le_refl(a: Seq<u8>)
    ensures
        lex_le(a, a),
    decreases a.len(),
{
    if a.len() > 0 {
        lemma_lex_le_refl(a.skip(1));
    }
}

/// Transitivity of `lex_le`.
pub proof fn lemma_lex_le_trans(a: Seq<u8>, b: Seq<u8>, c: Seq<u8>)
    requires
        lex_le(a, b),
        lex_le(b, c),
    ensures
        lex_le(a, c),
{
    lemma_lex_trichotomy(a, b);
    lemma_lex_trichotomy(b, c);
    lemma_lex_trichotomy(a, c);
    if lex_lt(c, a) {
        if lex_lt(a, b) && lex_lt(b, c) {
            lemma_lex_lt_trans(a, b, c);
        }
    }
}

/// Dropping an equal prefix of length `k` from both sides does not change
/// the comparison.
pub proof fn lemma_lex_lt_skip(a: Seq<u8>, b: Seq<u8>, k: int)
    requires
        0 <= k <= a.len(),
        k <= b.len(),
        forall|j: int| 0 <= j < k ==> a[j] == b[j],
    ensures
        lex_lt(a, b) == lex_lt(a.skip(k), b.skip(k)),
    decreases k,
{
    if k > 0 {
        assert(a.len() > 0 && b.len() > 0 && a[0] == b[0]);
        assert forall|j: int| 0 <= j < k - 1 implies a.skip(1)[j] == b.skip(1)[j] by {
            assert(a.skip(1)[j] == a[j + 1]);
            assert(b.skip(1)[j] == b[j + 1]);
        }
        lemma_lex_lt_skip(a.skip(1), b.skip(1), k - 1);
        assert(a.skip(1).skip(k - 1) =~= a.skip(k));
        assert(b.skip(1).skip(k - 1) =~= b.skip(k));
        assert(lex_lt(a, b) == lex_lt(a.skip(1), b.skip(1)));
    } else {
        assert(a.skip(0) =~= a);
        assert(b.skip(0) =~= b);
    }
}

/// Comparison of concatenations reduces to the tails once the heads are equal.
pub proof fn lemma_lex_lt_concat_eq_head(p: Seq<u8>, x: Seq<u8>, y: Seq<u8>)
    ensures
        lex_lt(p + x, p + y) == lex_lt(x, y),
{
    assert forall|j: int| 0 <= j < p.len() implies (p + x)[j] == (p + y)[j] by {}
    lemma_lex_lt_skip(p + x, p + y, p.len() as int);
    assert((p + x).skip(p.len() as int) =~= x);
    assert((p + y).skip(p.len() as int) =~= y);
}

/// When neither head is a prefix of the other, the heads alone decide the
/// comparison of the concatenations.
pub proof fn lemma_lex_lt_concat_decided(p: Seq<u8>, q: Seq<u8>, x: Seq<u8>, y: Seq<u8>)
    requires
        !is_prefix(p, q),
        !is_prefix(q, p),
    ensures
        lex_lt(p + x, q + y) == lex_lt(p, q),
    decreases p.len(),
{
    if p.len() == 0 {
        assert(p =~= q.take(0));
        assert(false);
    } else if q.len() == 0 {
        assert(q =~= p.take(0));
        assert(false);
    } else if p[0] != q[0] {
        assert((p + x)[0] == p[0] && (q + y)[0] == q[0]);
        assert((p + x).len() > 0 && (q + y).len() > 0);
    } else {
        if is_prefix(p.skip(1), q.skip(1)) {
            assert(p.len() <= q.len());
            assert forall|i: int| 0 <= i < p.len() implies p[i] == q.take(p.len() as int)[i] by {
                if i > 0 {
                    assert(p.skip(1)[i - 1] == q.skip(1).take(p.len() - 1)[i - 1]);
                    assert(q.skip(1)[i - 1] == q[i]);
                }
            }
            assert(p =~= q.take(p.len() as int));
            assert(false);
        }
        if is_prefix(q.skip(1), p.skip(1)) {
            assert(q.len() <= p.len());
            assert forall|i: int| 0 <= i < q.len() implies q[i] == p.take(q.len() as int)[i] by {
                if i > 0 {
                    assert(q.skip(1)[i - 1] == p.skip(1).take(q.len() - 1)[i - 1]);
                    assert(p.skip(1)[i - 1] == p[i]);
                }
            }
            assert(q =~= p.take(q.len() as int));
            assert(false);
        }
        lemma_lex_lt_concat_decided(p.skip(1), q.skip(1), x, y);
        assert((p + x).skip(1) =~= p.skip(1) + x);
        assert((q + y).skip(1) =~= q.skip(1) + y);
    }
}

/// When two sequences agree below index `k` and differ at `k`, the byte
/// at `k` decides the comparison, the sequences are unequal, and neither
/// is a prefix of the other.
pub proof fn lemma_lex_decided_at(a: Seq<u8>, b: Seq<u8>, k: int)
    requires
        0 <= k < a.len(),
        k < b.len(),
        forall|j: int| 0 <= j < k ==> a[j] == b[j],
        a[k] != b[k],
    ensures
        lex_lt(a, b) == (a[k] < b[k]),
        a != b,
        !is_prefix(a, b),
        !is_prefix(b, a),
{
    lemma_lex_lt_skip(a, b, k);
    assert(a.skip(k)[0] == a[k]);
    assert(b.skip(k)[0] == b[k]);
    assert(a.skip(k).len() > 0 && b.skip(k).len() > 0);
    assert(lex_lt(a.skip(k), b.skip(k)) == (a[k] < b[k]));
    if is_prefix(a, b) {
        assert(b.take(a.len() as int)[k] == b[k]);
        assert(false);
    }
    if is_prefix(b, a) {
        assert(a.take(b.len() as int)[k] == a[k]);
        assert(false);
    }
}

/// Bytewise comparison of two byte vectors, strict "less than".
pub fn bytes_lt(a: &[u8], b: &[u8]) -> (r: bool)
    ensures
        r == lex_lt(a@, b@),
{
    let an = a.len();
    let bn = b.len();
    let n = if an < bn {
        an
    } else {
        bn
    };
    let mut i: usize = 0;
    while i < n
        invariant
            0 <= i <= n,
            n == if a@.len() < b@.len() {
                a@.len()
            } else {
                b@.len()
            },
            forall|j: int| 0 <= j < i ==> a@[j] == b@[j],
        decreases n - i,
    {
        let av = a[i];
        let bv = b[i];
        if av != bv {
            proof {
                lemma_lex_lt_skip(a@, b@, i as int);
                assert(a@.skip(i as int)[0] == a@[i as int]);
                assert(b@.skip(i as int)[0] == b@[i as int]);
            }
            return av < bv;
        }
        i += 1;
    }
    proof {
        lemma_lex_lt_skip(a@, b@, n as int);
        if a@.len() < b@.len() {
            assert(b@.skip(n as int).len() > 0);
            assert(lex_lt(a@.skip(n as int), b@.skip(n as int)));
        }
    }
    an < bn
}

/// Bytewise comparison, "less than or equal".
pub fn bytes_le(a: &[u8], b: &[u8]) -> (r: bool)
    ensures
        r == lex_le(a@, b@),
{
    !bytes_lt(b, a)
}

} // verus!
