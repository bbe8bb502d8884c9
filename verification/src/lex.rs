//! Lexicographic order on digit sequences.
//!
//! Rows are compared by their eight stored digits, leftmost first.  The
//! successor search and the enumeration of all rows both rest on this order,
//! so the usual order facts (introduction and elimination by the first
//! differing position, asymmetry, transitivity, trichotomy) are proved here.

use vstd::prelude::*;

verus! {

/// `a` comes strictly before `b` in lexicographic order: at the first
/// position where they differ, `a` holds the smaller digit.
pub open spec fn lex_lt(a: Seq<u8>, b: Seq<u8>) -> bool
    decreases a.len(),
{
    if a.len() == 0 || b.len() == 0 {
        false
    } else if a.first() < b.first() {
        true
    } else if a.first() > b.first() {
        false
    } else {
        lex_lt(a.drop_first(), b.drop_first())
    }
}

/// If `a` and `b` agree strictly before position `k` and `a[k] < b[k]`,
/// then `a` comes before `b`.
pub proof fn lemma_lex_from_diff(a: Seq<u8>, b: Seq<u8>, k: int)
    requires
        0 <= k < a.len(),
        k < b.len(),
        forall|j: int| 0 <= j < k ==> a[j] == b[j],
        a[k] < b[k],
    ensures
        lex_lt(a, b),
    decreases k,
{
    if k == 0 {
    } else {
        assert(a.first() == b.first());
        assert(forall|j: int| 0 <= j < k - 1 ==> a.drop_first()[j] == b.drop_first()[j]);
        assert(a.drop_first()[k - 1] == a[k]);
        assert(b.drop_first()[k - 1] == b[k]);
        lemma_lex_from_diff(a.drop_first(), b.drop_first(), k - 1);
    }
}

/// If `a` comes before `b`, some position `k` witnesses it: the two agree
/// strictly before `k` and `a[k] < b[k]`.
pub proof fn lemma_lex_to_diff(a: Seq<u8>, b: Seq<u8>)
    requires
        lex_lt(a, b),
    ensures
        exists|k: int|
            0 <= k < a.len() && k < b.len() && (forall|j: int| 0 <= j < k ==> a[j] == b[j])
                && a[k] < b[k],
    decreases a.len(),
{
    if a.first() < b.first() {
        assert(0 <= 0 < a.len() && 0 < b.len() && (forall|j: int| 0 <= j < 0 ==> a[j] == b[j])
            && a[0] < b[0]);
    } else {
        lemma_lex_to_diff(a.drop_first(), b.drop_first());
        let k0 = choose|k: int|
            0 <= k < a.drop_first().len() && k < b.drop_first().len() && (forall|j: int|
                0 <= j < k ==> a.drop_first()[j] == b.drop_first()[j]) && a.drop_first()[k]
                < b.drop_first()[k];
        let k = k0 + 1;
        assert(forall|j: int| 1 <= j < k ==> a[j] == a.drop_first()[j - 1]);
        assert(forall|j: int| 1 <= j < k ==> b[j] == b.drop_first()[j - 1]);
        assert(0 <= k < a.len() && k < b.len() && (forall|j: int| 0 <= j < k ==> a[j] == b[j])
            && a[k] < b[k]);
    }
}

/// The order is irreflexive.
pub proof fn lemma_lex_irrefl(a: Seq<u8>)
    ensures
        !lex_lt(a, a),
    decreases a.len(),
{
    if a.len() > 0 {
        lemma_lex_irrefl(a.drop_first());
    }
}

/// The order is transitive.
pub proof fn lemma_lex_trans(a: Seq<u8>, b: Seq<u8>, c: Seq<u8>)
    requires
        lex_lt(a, b),
        lex_lt(b, c),
    ensures
        lex_lt(a, c),
    decreases a.len(),
{
    if a.first() < b.first() || b.first() < c.first() {
    } else {
        lemma_lex_trans(a.drop_first(), b.drop_first(), c.drop_first());
    }
}

/// The order is asymmetric.
pub proof fn lemma_lex_asym(a: Seq<u8>, b: Seq<u8>)
    requires
        lex_lt(a, b),
    ensures
        !lex_lt(b, a),
{
    if lex_lt(b, a) {
        lemma_lex_trans(a, b, a);
        lemma_lex_irrefl(a);
    }
}

/// Two sequences of equal length are ordered one way or the other, or equal.
pub proof fn lemma_lex_trichotomy(a: Seq<u8>, b: Seq<u8>)
    requires
        a.len() == b.len(),
    ensures
        lex_lt(a, b) || lex_lt(b, a) || a == b,
    decreases a.len(),
{
    if a.len() == 0 {
        assert(a =~= b);
    } else if a.first() == b.first() {
        lemma_lex_trichotomy(a.drop_first(), b.drop_first());
        if a.drop_first() == b.drop_first() {
            assert forall|j: int| 0 <= j < a.len() implies a[j] == b[j] by {
                if j > 0 {
                    assert(a[j] == a.drop_first()[j - 1]);
                    assert(b[j] == b.drop_first()[j - 1]);
                }
            }
            assert(a =~= b);
        }
    }
}

} // verus!
