//! Facts about sequences of distinct digits.
//!
//! The digits 1 through 9 sum to 45, so a sequence of 8 distinct digits
//! drawn from that range determines the one digit it omits: it is 45 minus
//! the sum of the 8.  Both the ninth value of a row and the ninth row of a
//! grid column are recovered this way.

use vstd::prelude::*;
use vstd::relations::injective;
use vstd::seq_lib::*;
use vstd::set_lib::{lemma_int_range, lemma_len_subset, set_int_range};

verus! {

/// The sum of the elements of a digit sequence.
pub open spec fn sum_of(s: Seq<u8>) -> int
    decreases s.len(),
{
    if s.len() == 0 {
        0
    } else {
        sum_of(s.drop_last()) + s.last()
    }
}

/// Every element lies in the inclusive range [lo, hi].
pub open spec fn all_in_range(s: Seq<u8>, lo: int, hi: int) -> bool {
    forall|i: int| 0 <= i < s.len() ==> lo <= #[trigger] s[i] <= hi
}

/// Removing one element subtracts exactly that element from the sum.
pub proof fn lemma_sum_remove(s: Seq<u8>, i: int)
    requires
        0 <= i < s.len(),
    ensures
        sum_of(s.remove(i)) == sum_of(s) - s[i],
    decreases s.len(),
{
    if i == s.len() - 1 {
        assert(s.remove(i) =~= s.drop_last());
    } else {
        assert(s.remove(i).drop_last() =~= s.drop_last().remove(i));
        assert(s.remove(i).last() == s.last());
        lemma_sum_remove(s.drop_last(), i);
    }
}

/// The sum of a sequence of digits from [lo, hi] is between lo and hi times
/// its length.
pub proof fn lemma_sum_bounds(s: Seq<u8>, lo: int, hi: int)
    requires
        all_in_range(s, lo, hi),
    ensures
        lo * s.len() <= sum_of(s) <= hi * s.len(),
    decreases s.len(),
{
    if s.len() > 0 {
        assert(all_in_range(s.drop_last(), lo, hi));
        lemma_sum_bounds(s.drop_last(), lo, hi);
        assert(lo * s.len() == lo * (s.len() - 1) + lo) by (nonlinear_arith);
        assert(hi * s.len() == hi * (s.len() - 1) + hi) by (nonlinear_arith);
    }
}

/// Appending one element adds exactly that element to the sum.
pub proof fn lemma_sum_push(s: Seq<u8>, v: u8)
    ensures
        sum_of(s.push(v)) == sum_of(s) + v,
{
    assert(s.push(v).drop_last() =~= s);
    assert(s.push(v).last() == v);
}

/// A sequence of n distinct digits drawn from 1..=n sums to n(n+1)/2.
pub proof fn lemma_distinct_range_sum(s: Seq<u8>, n: int)
    requires
        s.no_duplicates(),
        s.len() == n,
        all_in_range(s, 1, n),
    ensures
        2 * sum_of(s) == n * (n + 1),
    decreases n,
{
    if n > 0 {
        let f = |x: u8| x as int;
        assert(injective(f));
        let t = s.map_values(f);
        s.lemma_no_duplicates_injective(f);
        t.unique_seq_to_set();
        lemma_int_range(1, n + 1);
        if !t.to_set().contains(n) {
            assert forall|v: int| t.to_set().contains(v) implies set_int_range(1, n).contains(
                v,
            ) by {
                assert(t.contains(v));
                let j = choose|j: int| 0 <= j < t.len() && t[j] == v;
                assert(t[j] == f(s[j]));
                assert(1 <= v <= n);
                assert(v != n);
            }
            assert(t.to_set().subset_of(set_int_range(1, n)));
            lemma_int_range(1, n);
            lemma_len_subset(t.to_set(), set_int_range(1, n));
            assert(false);
        }
        let i = choose|i: int| 0 <= i < t.len() && t[i] == n;
        assert(s[i] == n);
        let s2 = s.remove(i);
        assert(s2.no_duplicates());
        assert forall|j: int| 0 <= j < s2.len() implies 1 <= #[trigger] s2[j] <= n - 1 by {
            if j < i {
                assert(s2[j] == s[j]);
                assert(s[j] != s[i]);
            } else {
                assert(s2[j] == s[j + 1]);
                assert(s[j + 1] != s[i]);
            }
        }
        lemma_sum_remove(s, i);
        lemma_distinct_range_sum(s2, n - 1);
        assert(2 * sum_of(s) == (n - 1) * n + 2 * n) by {
            assert(2 * sum_of(s2) == (n - 1) * n);
        }
        assert((n - 1) * n + 2 * n == n * (n + 1)) by (nonlinear_arith);
        assert(2 * sum_of(s) == n * (n + 1));
    } else {
        assert(s.len() == 0);
        assert(sum_of(s) == 0);
        assert(n * (n + 1) == 0);
    }
}

/// Among 8 distinct digits from 1..=9 exactly one digit of 1..=9 is absent,
/// and it equals 45 minus the sum of the 8.
pub proof fn lemma_missing_digit(s: Seq<u8>)
    requires
        s.no_duplicates(),
        s.len() == 8,
        all_in_range(s, 1, 9),
    ensures
        1 <= 45 - sum_of(s) <= 9,
        !s.contains((45 - sum_of(s)) as u8),
        forall|v: u8| 1 <= v <= 9 && !s.contains(v) ==> v == 45 - sum_of(s),
{
    let f = |x: u8| x as int;
    assert(injective(f));
    let t = s.map_values(f);
    s.lemma_no_duplicates_injective(f);
    t.unique_seq_to_set();
    lemma_int_range(1, 10);
    // some digit of 1..=9 is absent from s
    if forall|v: int| 1 <= v <= 9 ==> #[trigger] t.to_set().contains(v) {
        assert(set_int_range(1, 10).subset_of(t.to_set()));
        lemma_len_subset(set_int_range(1, 10), t.to_set());
        t.lemma_cardinality_of_set();
        assert(false);
    }
    let m = choose|v: int| 1 <= v <= 9 && !t.to_set().contains(v);
    assert(!s.contains(m as u8)) by {
        if s.contains(m as u8) {
            let j = choose|j: int| 0 <= j < s.len() && s[j] == m as u8;
            assert(t[j] == m);
            assert(t.to_set().contains(m));
        }
    }
    assert forall|v: u8| 1 <= v <= 9 && !s.contains(v) implies v == 45 - sum_of(s) by {
        let s9 = s.push(v);
        assert(s9.no_duplicates()) by {
            assert(forall|j: int| 0 <= j < s.len() ==> s9[j] == s[j]);
            assert(s9[8] == v);
        }
        assert(all_in_range(s9, 1, 9)) by {
            assert(forall|j: int| 0 <= j < s.len() ==> s9[j] == s[j]);
            assert(s9[8] == v);
        }
        lemma_distinct_range_sum(s9, 9);
        lemma_sum_push(s, v);
    }
    assert(m as u8 == 45 - sum_of(s));
}

} // verus!
