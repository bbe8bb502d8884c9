//! A row of a Sudoku grid: a permutation of the digits 1 through 9.
//!
//! Only the first eight positions are stored; the digits 1..=9 sum to 45, so
//! the ninth digit is always 45 minus the sum of the stored eight.  Rows are
//! ordered lexicographically by their stored digits, and `next` walks that
//! order, skipping sequences with repeated digits.

use crate::digits::{all_in_range, lemma_missing_digit, lemma_sum_bounds, sum_of};
use crate::lex::{
    lemma_lex_asym, lemma_lex_from_diff, lemma_lex_irrefl, lemma_lex_to_diff, lemma_lex_trans,
    lemma_lex_trichotomy, lex_lt,
};
use vstd::prelude::*;

verus! {

/// The eight stored digits of the least row, `[1,2,...,8]` (the 9 is derived).
pub open spec fn identity_digits() -> Seq<u8> {
    seq![1u8, 2u8, 3u8, 4u8, 5u8, 6u8, 7u8, 8u8]
}

/// The eight stored digits of the greatest row, `[9,8,...,2]` (the 1 is derived).
pub open spec fn max_digits() -> Seq<u8> {
    seq![9u8, 8u8, 7u8, 6u8, 5u8, 4u8, 3u8, 2u8]
}

/// Eight pairwise distinct digits, each between 1 and 9: the stored part of
/// a valid row.
pub open spec fn valid_digits(s: Seq<u8>) -> bool {
    s.len() == 8 && all_in_range(s, 1, 9) && s.no_duplicates()
}

/// One row of a Sudoku grid: a permutation of 1..=9, of which the first
/// eight digits are stored and the ninth is derived from the fixed sum 45.
#[derive(Clone, Copy, Debug, PartialEq, Eq, PartialOrd, Ord)]
pub struct Row {
    vals: [u8; 8],
}

impl View for Row {
    type V = Seq<u8>;

    closed spec fn view(&self) -> Seq<u8> {
        self.vals@
    }
}

impl Row {
    /// The stored digits form a valid row.
    pub open spec fn wf(self) -> bool {
        valid_digits(self@)
    }

    /// The digit at 0-based logical position `i` of the nine: positions
    /// 0..=7 are stored, position 8 is 45 minus the sum of the others.
    pub open spec fn value_at(self, i: int) -> int {
        if 0 <= i < 8 {
            self@[i] as int
        } else {
            45 - sum_of(self@)
        }
    }

    /// All nine logical digits of the row, in position order.
    pub open spec fn values(self) -> Seq<int> {
        Seq::new(9, |i: int| self.value_at(i))
    }

    /// The nine values of a well-formed row are a permutation of 1..=9:
    /// each digit of 1..=9 appears at exactly one of the nine positions.
    pub proof fn lemma_values_permutation(self)
        requires
            self.wf(),
        ensures
            forall|i: int| 0 <= i < 9 ==> 1 <= #[trigger] self.values()[i] <= 9,
            forall|i: int, j: int|
                0 <= i < j < 9 ==> self.values()[i] != self.values()[j],
            forall|v: int| 1 <= v <= 9 ==> #[trigger] self.values().contains(v),
    {
        lemma_missing_digit(self@);
        assert forall|i: int, j: int|
            0 <= i < j < 9 implies self.values()[i] != self.values()[j] by {
            if j == 8 {
                assert(!self@.contains((45 - sum_of(self@)) as u8));
                assert(self@[i] != (45 - sum_of(self@)) as u8);
            }
        }
        assert forall|v: int| 1 <= v <= 9 implies #[trigger] self.values().contains(v) by {
            if self@.contains(v as u8) {
                let i = choose|i: int| 0 <= i < 8 && self@[i] == v as u8;
                assert(self.values()[i] == v);
            } else {
                assert(v as u8 == 45 - sum_of(self@));
                assert(self.values()[8] == v);
            }
        }
    }

    /// Create a `Row` from a slice of nine digits that form a permutation
    /// of 1..=9.
    pub fn from_slice(v: &[u8]) -> (r: Row)
        requires
            v@.len() == 9,
            all_in_range(v@, 1, 9),
            v@.no_duplicates(),
        ensures
            r.wf(),
            r@ == v@.subrange(0, 8),
            forall|i: int| 0 <= i < 9 ==> r.values()[i] == v@[i],
    {
        let vals: [u8; 8] = [v[0], v[1], v[2], v[3], v[4], v[5], v[6], v[7]];
        let r = Row { vals };
        proof {
            assert(r@ =~= v@.subrange(0, 8));
            assert(r.wf());
            lemma_missing_digit(r@);
            assert(!r@.contains(v@[8])) by {
                if r@.contains(v@[8]) {
                    let i = choose|i: int| 0 <= i < 8 && r@[i] == v@[8];
                    assert(v@[i] == v@[8]);
                }
            }
            assert(v@[8] == 45 - sum_of(r@));
        }
        r
    }

    /// The first row in lexicographic order: `[1, 2, 3, 4, 5, 6, 7, 8, 9]`.
    pub fn first() -> (r: Row)
        ensures
            r.wf(),
            r@ == identity_digits(),
            forall|i: int| 0 <= i < 9 ==> r.values()[i] == i + 1,
    {
        let r = Row { vals: [1, 2, 3, 4, 5, 6, 7, 8] };
        proof {
            assert(r@ =~= identity_digits());
            lemma_sum_explicit(r@);
        }
        r
    }

    /// The digit 45 minus the sum of the stored eight: the derived ninth.
    fn ninth(&self) -> (r: u8)
        requires
            self.wf(),
        ensures
            r as int == self.value_at(8),
            1 <= r <= 9,
    {
        let mut acc: u8 = 0;
        let mut i: usize = 0;
        while i < 8
            invariant
                self.wf(),
                i <= 8,
                acc as int == sum_of(self@.take(i as int)),
                acc <= 72,
            decreases 8 - i,
        {
            proof {
                assert(self@.take(i + 1).drop_last() =~= self@.take(i as int));
                assert(self@.take(i + 1).last() == self@[i as int]);
                assert(all_in_range(self@.take(i + 1), 1, 9));
                lemma_sum_bounds(self@.take(i + 1), 1, 9);
            }
            acc = acc + self.vals[i];
            i = i + 1;
        }
        proof {
            assert(self@.take(8) =~= self@);
            lemma_missing_digit(self@);
        }
        45 - acc
    }

    /// The digit at the given 1-based position, if the position is between
    /// 1 and 9.
    pub fn get(&self, index: u8) -> (r: Option<u8>)
        requires
            self.wf(),
        ensures
            1 <= index <= 9 ==> (r matches Some(v) && v as int == self.values()[index - 1]),
            index == 0 || index > 9 ==> r is None,
    {
        if index == 0 || index > 9 {
            None
        } else if index <= 8 {
            Some(self.vals[(index - 1) as usize])
        } else {
            Some(self.ninth())
        }
    }

    /// Wrap eight stored digits as a `Row`; the caller answers for their
    /// validity.
    pub(crate) fn from_digits(vals: [u8; 8]) -> (r: Row)
        ensures
            r@ == vals@,
    {
        Row { vals }
    }

    /// The digit at the given 1-based stored position between 1 and 8,
    /// without the bounds handling of `get`.
    pub fn get_unchecked(&self, index: u8) -> (r: u8)
        requires
            1 <= index <= 8,
        ensures
            r == self@[index - 1],
    {
        self.vals[(index - 1) as usize]
    }
}

/// The sum of an eight-digit sequence, written out position by position.
pub proof fn lemma_sum_explicit(s: Seq<u8>)
    requires
        s.len() == 8,
    ensures
        sum_of(s) == s[0] + s[1] + s[2] + s[3] + s[4] + s[5] + s[6] + s[7],
{
    reveal_with_fuel(sum_of, 9);
    assert(s.drop_last() =~= s.take(7));
    assert(s.take(7).drop_last() =~= s.take(6));
    assert(s.take(6).drop_last() =~= s.take(5));
    assert(s.take(5).drop_last() =~= s.take(4));
    assert(s.take(4).drop_last() =~= s.take(3));
    assert(s.take(3).drop_last() =~= s.take(2));
    assert(s.take(2).drop_last() =~= s.take(1));
    assert(s.take(1).drop_last() =~= s.take(0));
}

/// The candidate a successor-search state stands for: the current digits
/// with the digit at the advancement position bumped by one.
pub open spec fn cand(c: Seq<u8>, p: int) -> Seq<u8> {
    c.update(p, (c[p] + 1) as u8)
}

/// A sequence that agrees with `c` strictly below position `p` and whose
/// digits from `p` on are the least duplicate-free filler 1, 2, 3, ... is a
/// lower bound on every valid row with the same prefix: any row below it
/// repeats a digit inside the filler region.
proof fn lemma_filler_minimal(s: Seq<u8>, c: Seq<u8>, p: int)
    requires
        valid_digits(s),
        c.len() == 8,
        0 <= p <= 8,
        forall|j: int| 0 <= j < p ==> s[j] == c[j],
        forall|j: int| p <= j < 8 ==> c[j] == j - p + 1,
    ensures
        !lex_lt(s, c),
{
    if lex_lt(s, c) {
        lemma_lex_to_diff(s, c);
        let k = choose|k: int|
            0 <= k < s.len() && k < c.len() && (forall|j: int| 0 <= j < k ==> s[j] == c[j])
                && s[k] < c[k];
        assert(p <= k < 8);
        let w = s[k] as int;
        assert(1 <= w <= k - p);
        assert(s[p + w - 1] == c[p + w - 1]);
        assert(c[p + w - 1] == w);
        assert(s[p + w - 1] == s[k]);
        assert(false);
    }
}

/// Advancing the search at position `q` (bumping the digit there and
/// resetting the rest to filler) skips no valid row: a valid row that was
/// at or above the old candidate `c`, with its first difference from `c` at
/// a position `k <= q` where it exceeds `c`, is still at or above the new
/// candidate `c2`.
proof fn lemma_bound_after_advance(c: Seq<u8>, c2: Seq<u8>, q: int, s: Seq<u8>, k: int)
    requires
        c.len() == 8,
        c2.len() == 8,
        0 <= q < 8,
        valid_digits(s),
        forall|j: int| 0 <= j < q ==> c2[j] == c[j],
        c2[q] == c[q] + 1,
        forall|j: int| q < j < 8 ==> c2[j] == j - q,
        0 <= k <= q,
        forall|j: int| 0 <= j < k ==> s[j] == c[j],
        c[k] < s[k],
    ensures
        !lex_lt(s, c2),
{
    if k < q {
        lemma_lex_from_diff(c2, s, k);
        lemma_lex_asym(c2, s);
    } else {
        if s[q] > c2[q] {
            lemma_lex_from_diff(c2, s, q);
            lemma_lex_asym(c2, s);
        } else {
            assert(s[q] == c2[q]);
            lemma_filler_minimal(s, c2, q + 1);
        }
    }
}

/// Index of the first digit that repeats an earlier one, if any.
fn first_dup(vals: &[u8; 8]) -> (r: Option<usize>)
    ensures
        match r {
            Some(i) => i < 8 && (exists|j: int| 0 <= j < i && vals@[j] == vals@[i as int])
                && vals@.take(i as int).no_duplicates(),
            None => vals@.no_duplicates(),
        },
{
    let mut i: usize = 1;
    while i < 8
        invariant
            1 <= i <= 8,
            vals@.take(i as int).no_duplicates(),
        decreases 8 - i,
    {
        let mut j: usize = 0;
        while j < i
            invariant
                j <= i < 8,
                vals@.take(i as int).no_duplicates(),
                forall|k: int| 0 <= k < j ==> vals@[k] != vals@[i as int],
            decreases i - j,
        {
            if vals[j] == vals[i] {
                return Some(i);
            }
            j = j + 1;
        }
        proof {
            let t1 = vals@.take(i + 1);
            assert forall|a: int, b: int| 0 <= a < b < i + 1 implies t1[a] != t1[b] by {
                if b < i {
                    assert(vals@.take(i as int)[a] != vals@.take(i as int)[b]);
                } else {
                    assert(vals@[a] != vals@[i as int]);
                }
            }
            assert(t1.no_duplicates());
        }
        i = i + 1;
    }
    proof {
        assert(vals@.take(8) =~= vals@);
    }
    None
}

/// Reset the positions from `k` rightward to the least duplicate-free
/// filler 1, 2, 3, ...
fn reset_suffix(vals: &mut [u8; 8], k: usize)
    requires
        k <= 8,
    ensures
        forall|j: int| 0 <= j < k ==> final(vals)@[j] == old(vals)@[j],
        forall|j: int| k <= j < 8 ==> final(vals)@[j] == j - k + 1,
{
    let mut j: usize = k;
    while j < 8
        invariant
            k <= j <= 8,
            forall|t: int| 0 <= t < k ==> vals@[t] == old(vals)@[t],
            forall|t: int| k <= t < j ==> vals@[t] == t - k + 1,
        decreases 8 - j,
    {
        vals[j] = (j - k + 1) as u8;
        j = j + 1;
    }
}

impl Row {
    /// The next valid row after `self` in lexicographic order, if one
    /// exists; the greatest row `[9,8,...,1]` has none.
    ///
    /// The stored digits are advanced like an eight-digit counter: bump the
    /// least significant position, carry when a digit would pass 9, and on
    /// a repeated digit jump back to the position of the repeat, resetting
    /// everything to its right to the least filler 1, 2, 3, ...  Every
    /// candidate skipped this way repeats a digit, so the first accepted
    /// candidate is the least valid row above `self`.
    #[verifier::rlimit(50)]
    pub fn next(&self) -> (r: Option<Row>)
        requires
            self.wf(),
        ensures
            match r {
                Some(t) => t.wf() && lex_lt(self@, t@) && forall|s: Seq<u8>|
                    valid_digits(s) && lex_lt(self@, s) ==> !lex_lt(s, t@),
                None => self@ == max_digits(),
            },
    {
        let mut cur: [u8; 8] = self.vals;
        let mut pos: usize = 7;
        proof {
            assert(cur@ =~= self@);
            assert(cand(self@, 7)[7] == self@[7] + 1);
            lemma_lex_from_diff(self@, cand(self@, 7), 7);
            assert forall|s: Seq<u8>|
                valid_digits(s) && lex_lt(self@, s) implies !lex_lt(s, cand(cur@, 7)) by {
                lemma_lex_to_diff(self@, s);
                let k = choose|k: int|
                    0 <= k < 8 && k < s.len() && (forall|j: int| 0 <= j < k ==> self@[j] == s[j])
                        && self@[k] < s[k];
                lemma_bound_after_advance(self@, cand(self@, 7), 7, s, k);
            }
        }
        loop
            invariant
                self.wf(),
                pos < 8,
                cur@.len() == 8,
                forall|j: int| 0 <= j <= pos ==> 1 <= #[trigger] cur@[j] <= 9,
                forall|j: int| pos < j < 8 ==> #[trigger] cur@[j] == j - pos,
                lex_lt(self@, cand(cur@, pos as int)),
                forall|s: Seq<u8>|
                    valid_digits(s) && lex_lt(self@, s) ==> !lex_lt(s, cand(cur@, pos as int)),
            decreases
                    10 - cand(cur@, pos as int)[0],
                    10 - cand(cur@, pos as int)[1],
                    10 - cand(cur@, pos as int)[2],
                    10 - cand(cur@, pos as int)[3],
                    10 - cand(cur@, pos as int)[4],
                    10 - cand(cur@, pos as int)[5],
                    10 - cand(cur@, pos as int)[6],
                    10 - cand(cur@, pos as int)[7],
        {
            let ghost pre = cur@;
            let ghost p = pos as int;
            let ghost c = cand(pre, p);
            let v = cur[pos] + 1;
            cur[pos] = v;
            proof {
                assert(cur@ =~= c);
            }
            if v > 9 {
                if pos == 0 {
                    proof {
                        if self@ != max_digits() {
                            lemma_max_valid();
                            lemma_max_top(self@);
                            lemma_lex_trichotomy(self@, max_digits());
                            assert(lex_lt(self@, max_digits()));
                            assert(!lex_lt(max_digits(), c));
                            lemma_lex_trichotomy(max_digits(), c);
                            if max_digits() == c {
                                assert(max_digits()[0] == c[0]);
                                assert(false);
                            }
                            if lex_lt(c, max_digits()) {
                                lemma_lex_to_diff(c, max_digits());
                                let k = choose|k: int|
                                    0 <= k < 8 && k < 8 && (forall|j: int|
                                        0 <= j < k ==> c[j] == max_digits()[j]) && c[k]
                                        < max_digits()[k];
                                assert(c[0] == 10);
                                assert(false);
                            }
                            assert(false);
                        }
                    }
                    return None;
                }
                let ghost q = p - 1;
                reset_suffix(&mut cur, pos);
                pos = pos - 1;
                proof {
                    let c2 = cand(cur@, q);
                    assert(c2[q] == c[q] + 1);
                    assert(forall|j: int| 0 <= j < q ==> c2[j] == c[j]);
                    assert(forall|j: int| q < j < 8 ==> c2[j] == j - q);
                    lemma_lex_from_diff(c, c2, q);
                    lemma_lex_trans(self@, c, c2);
                    assert forall|s: Seq<u8>|
                        valid_digits(s) && lex_lt(self@, s) implies !lex_lt(s, c2) by {
                        assert(!lex_lt(s, c));
                        lemma_lex_trichotomy(s, c);
                        if s == c {
                            assert(s[p] == c[p]);
                            assert(false);
                        }
                        lemma_lex_to_diff(c, s);
                        let k = choose|k: int|
                            0 <= k < 8 && k < s.len() && (forall|j: int| 0 <= j < k ==> c[j] == s[j])
                                && c[k] < s[k];
                        if k == p {
                            assert(false);
                        }
                        if k > p {
                            assert(s[p] == c[p]);
                            assert(false);
                        }
                        lemma_bound_after_advance(c, c2, q, s, k);
                    }
                    lemma_lex_to_diff(c, c2);
                }
            } else {
                match first_dup(&cur) {
                    None => {
                        proof {
                            assert forall|j: int| 0 <= j < 8 implies 1 <= #[trigger] cur@[j]
                                <= 9 by {
                                if j > p {
                                    assert(cur@[j] == j - p);
                                }
                            }
                            assert(valid_digits(cur@));
                        }
                        return Some(Row { vals: cur });
                    },
                    Some(i) => {
                        let ghost q = i as int;
                        let ghost j0 = choose|j: int| 0 <= j < q && c[j] == c[q];
                        reset_suffix(&mut cur, i + 1);
                        pos = i;
                        proof {
                            let c2 = cand(cur@, q);
                            assert(c2[q] == c[q] + 1);
                            assert(forall|j: int| 0 <= j < q ==> c2[j] == c[j]);
                            assert(forall|j: int| q < j < 8 ==> c2[j] == j - q);
                            assert forall|j: int| 0 <= j <= q implies 1 <= #[trigger] cur@[j]
                                <= 9 by {
                                assert(cur@[j] == c[j]);
                                if j > p {
                                    assert(c[j] == j - p);
                                }
                            }
                            lemma_lex_from_diff(c, c2, q);
                            lemma_lex_trans(self@, c, c2);
                            assert forall|s: Seq<u8>|
                                valid_digits(s) && lex_lt(self@, s) implies !lex_lt(s, c2) by {
                                assert(!lex_lt(s, c));
                                lemma_lex_trichotomy(s, c);
                                if s == c {
                                    assert(s[j0] == c[j0] && s[q] == c[q]);
                                    assert(false);
                                }
                                lemma_lex_to_diff(c, s);
                                let k = choose|k: int|
                                    0 <= k < 8 && k < s.len() && (forall|j: int|
                                        0 <= j < k ==> c[j] == s[j]) && c[k] < s[k];
                                if k > q {
                                    assert(s[j0] == c[j0]);
                                    assert(s[q] == c[q]);
                                    assert(false);
                                }
                                lemma_bound_after_advance(c, c2, q, s, k);
                            }
                            lemma_lex_to_diff(c, c2);
                        }
                    },
                }
            }
        }
    }
}

/// The greatest row's stored digits are a valid row.
proof fn lemma_max_valid()
    ensures
        valid_digits(max_digits()),
{
    assert forall|i: int| 0 <= i < 8 implies 1 <= #[trigger] max_digits()[i] <= 9 by {
        assert(max_digits()[i] == 9 - i);
    }
    assert forall|i: int, j: int|
        0 <= i < max_digits().len() && 0 <= j < max_digits().len() && i != j implies max_digits()[i]
        != max_digits()[j] by {
        assert(max_digits()[i] == 9 - i);
        assert(max_digits()[j] == 9 - j);
    }
}

/// No position of the nine — the derived ninth included — holds the same
/// digit in both value sequences.
pub open spec fn col_disjoint(a: Seq<int>, b: Seq<int>) -> bool {
    forall|p: int| 0 <= p < 9 ==> a[p] != b[p]
}

/// Corresponding thirds of two rows share no digit: positions in the same
/// three-position group (the columns of one 3x3 box) never hold the same
/// digit across the two value sequences.
pub open spec fn box_disjoint(a: Seq<int>, b: Seq<int>) -> bool {
    forall|p: int, q: int| 0 <= p < 9 && 0 <= q < 9 && p / 3 == q / 3 ==> a[p] != b[q]
}

/// The nine digits 1..=9 in order: the values of the identity row.
pub open spec fn identity_values() -> Seq<int> {
    Seq::new(9, |i: int| i + 1)
}

/// The column-successor test is symmetric.
pub proof fn lemma_col_successor_symmetric(a: Row, b: Row)
    ensures
        col_disjoint(a.values(), b.values()) == col_disjoint(b.values(), a.values()),
{
    if col_disjoint(a.values(), b.values()) {
        assert forall|p: int| 0 <= p < 9 implies b.values()[p] != a.values()[p] by {
            assert(a.values()[p] != b.values()[p]);
        }
    }
    if col_disjoint(b.values(), a.values()) {
        assert forall|p: int| 0 <= p < 9 implies a.values()[p] != b.values()[p] by {
            assert(b.values()[p] != a.values()[p]);
        }
    }
}

/// The box-successor test is symmetric.
pub proof fn lemma_box_successor_symmetric(a: Row, b: Row)
    ensures
        box_disjoint(a.values(), b.values()) == box_disjoint(b.values(), a.values()),
{
    if box_disjoint(a.values(), b.values()) {
        assert forall|p: int, q: int|
            0 <= p < 9 && 0 <= q < 9 && p / 3 == q / 3 implies b.values()[p] != a.values()[q] by {
            assert(a.values()[q] != b.values()[p]);
        }
    }
    if box_disjoint(b.values(), a.values()) {
        assert forall|p: int, q: int|
            0 <= p < 9 && 0 <= q < 9 && p / 3 == q / 3 implies a.values()[p] != b.values()[q] by {
            assert(b.values()[q] != a.values()[p]);
        }
    }
}

impl Row {
    /// True if `other` could stand in another row of the same columns: at
    /// every one of the nine positions — the derived ninth included — the
    /// two rows hold different digits.
    pub fn col_successor(&self, other: &Row) -> (r: bool)
        requires
            self.wf(),
            other.wf(),
        ensures
            r == col_disjoint(self.values(), other.values()),
    {
        let a = self.values_array();
        let b = other.values_array();
        let mut p: usize = 0;
        while p < 9
            invariant
                p <= 9,
                forall|i: int| 0 <= i < 9 ==> a@[i] as int == self.values()[i],
                forall|i: int| 0 <= i < 9 ==> b@[i] as int == other.values()[i],
                forall|q: int| 0 <= q < p ==> self.values()[q] != other.values()[q],
            decreases 9 - p,
        {
            if a[p] == b[p] {
                proof {
                    assert(self.values()[p as int] == other.values()[p as int]);
                }
                return false;
            }
            p = p + 1;
        }
        true
    }

    /// All nine digits of the row as an array, the ninth derived.
    fn values_array(&self) -> (r: [u8; 9])
        requires
            self.wf(),
        ensures
            forall|i: int| 0 <= i < 9 ==> r@[i] as int == self.values()[i],
    {
        let n = self.ninth();
        let r: [u8; 9] = [
            self.vals[0],
            self.vals[1],
            self.vals[2],
            self.vals[3],
            self.vals[4],
            self.vals[5],
            self.vals[6],
            self.vals[7],
            n,
        ];
        r
    }

    /// True if `other` could stand in another row of the same band: no
    /// digit of any third of `self` appears in the corresponding third of
    /// `other`.
    pub fn box_successor(&self, other: &Row) -> (r: bool)
        requires
            self.wf(),
            other.wf(),
        ensures
            r == box_disjoint(self.values(), other.values()),
    {
        let a = self.values_array();
        let b = other.values_array();
        let mut p: usize = 0;
        while p < 9
            invariant
                p <= 9,
                forall|i: int| 0 <= i < 9 ==> a@[i] as int == self.values()[i],
                forall|i: int| 0 <= i < 9 ==> b@[i] as int == other.values()[i],
                forall|pp: int, qq: int|
                    0 <= pp < p && 0 <= qq < 9 && pp / 3 == qq / 3 ==> self.values()[pp]
                        != other.values()[qq],
            decreases 9 - p,
        {
            let base = (p / 3) * 3;
            let mut q: usize = base;
            while q < base + 3
                invariant
                    base == (p / 3) * 3,
                    p < 9,
                    base <= q <= base + 3,
                    forall|i: int| 0 <= i < 9 ==> a@[i] as int == self.values()[i],
                    forall|i: int| 0 <= i < 9 ==> b@[i] as int == other.values()[i],
                    forall|qq: int|
                        base <= qq < q ==> self.values()[p as int] != other.values()[qq],
                decreases base + 3 - q,
            {
                if a[p] == b[q] {
                    proof {
                        assert(self.values()[p as int] == other.values()[q as int]);
                        assert(p as int / 3 == q as int / 3);
                    }
                    return false;
                }
                q = q + 1;
            }
            proof {
                assert forall|qq: int|
                    0 <= qq < 9 && p as int / 3 == qq / 3 implies self.values()[p as int]
                    != other.values()[qq] by {
                    assert(base <= qq < base + 3);
                }
            }
            p = p + 1;
        }
        true
    }

    /// A cursor over the nine digits of the row, in position order.
    pub fn iter(&self) -> (it: RowIter)
        requires
            self.wf(),
        ensures
            it.wf(),
            it.spec_row() == *self,
            it.spec_index() == 0,
    {
        RowIter::new(self)
    }

    /// A cursor over the digits in groups of three, one per box column.
    pub fn box_chunks(&self) -> (it: RowChunk)
        requires
            self.wf(),
        ensures
            it.wf(),
            it.spec_row() == *self,
            it.spec_index() == 0,
    {
        RowChunk { iter: RowIter::new(self) }
    }
}

/// A finite cursor over the nine digits of a row, in position order; the
/// ninth digit is derived on the fly from the running sum of the first
/// eight.
pub struct RowIter {
    row: Row,
    index: u8,
    acc: u8,
}

impl RowIter {
    /// The cursor is consistent: its running sum matches the digits
    /// already yielded.
    pub closed spec fn wf(self) -> bool {
        self.row.wf() && self.index <= 9 && self.acc as int == sum_of(
            self.row@.take(if self.index <= 8 { self.index as int } else { 8 }),
        )
    }

    /// The row being iterated.
    pub closed spec fn spec_row(self) -> Row {
        self.row
    }

    /// How many digits have been yielded so far.
    pub closed spec fn spec_index(self) -> int {
        self.index as int
    }

    fn new(r: &Row) -> (it: RowIter)
        requires
            r.wf(),
        ensures
            it.wf(),
            it.spec_row() == *r,
            it.spec_index() == 0,
    {
        RowIter { row: *r, index: 0, acc: 0 }
    }

    /// The next digit of the row, or `None` once all nine are out.
    pub fn next(&mut self) -> (r: Option<u8>)
        requires
            old(self).wf(),
        ensures
            final(self).wf(),
            final(self).spec_row() == old(self).spec_row(),
            old(self).spec_index() < 9 ==> (r matches Some(v) && v as int
                == old(self).spec_row().values()[old(self).spec_index()]
                && final(self).spec_index() == old(self).spec_index() + 1),
            old(self).spec_index() >= 9 ==> r is None && *final(self) == *old(self),
    {
        if self.index >= 9 {
            return None;
        }
        self.index = self.index + 1;
        if self.index <= 8 {
            let current = self.row.get_unchecked(self.index);
            proof {
                let i = self.index as int;
                assert(self.row@.take(i).drop_last() =~= self.row@.take(i - 1));
                assert(self.row@.take(i).last() == self.row@[i - 1]);
                assert(all_in_range(self.row@.take(i), 1, 9));
                lemma_sum_bounds(self.row@.take(i), 1, 9);
            }
            self.acc = self.acc + current;
            Some(current)
        } else {
            proof {
                assert(self.row@.take(8) =~= self.row@);
                lemma_missing_digit(self.row@);
            }
            Some(45 - self.acc)
        }
    }
}

/// A cursor over a row's digits in groups of three, matching the three box
/// columns.
pub struct RowChunk {
    iter: RowIter,
}

impl RowChunk {
    /// The cursor stands at a group boundary.
    pub closed spec fn wf(self) -> bool {
        self.iter.wf() && self.iter.index % 3 == 0
    }

    /// The row being iterated.
    pub closed spec fn spec_row(self) -> Row {
        self.iter.row
    }

    /// How many digits have been yielded so far (always a multiple of 3).
    pub closed spec fn spec_index(self) -> int {
        self.iter.index as int
    }

    /// The next group of three digits, or `None` once all nine are out.
    pub fn next(&mut self) -> (r: Option<Vec<u8>>)
        requires
            old(self).wf(),
        ensures
            final(self).wf(),
            final(self).spec_row() == old(self).spec_row(),
            old(self).spec_index() < 9 ==> (r matches Some(v) && v@.len() == 3
                && final(self).spec_index() == old(self).spec_index() + 3 && forall|j: int|
                0 <= j < 3 ==> v@[j] as int
                    == old(self).spec_row().values()[old(self).spec_index() + j]),
            old(self).spec_index() >= 9 ==> r is None && *final(self) == *old(self),
    {
        if self.iter.index >= 9 {
            return None;
        }
        let mut v: Vec<u8> = Vec::new();
        let a = match self.iter.next() {
            Some(x) => x,
            None => 0,
        };
        let b = match self.iter.next() {
            Some(x) => x,
            None => 0,
        };
        let c = match self.iter.next() {
            Some(x) => x,
            None => 0,
        };
        v.push(a);
        v.push(b);
        v.push(c);
        Some(v)
    }
}

/// A sequence listing every valid row exactly once, in increasing
/// lexicographic order of the stored digits.
pub open spec fn is_row_enumeration(rs: Seq<Row>) -> bool {
    (forall|k: int| 0 <= k < rs.len() ==> (#[trigger] rs[k]).wf()) && (forall|a: int, b: int|
        0 <= a < b < rs.len() ==> lex_lt(rs[a]@, rs[b]@)) && (forall|t: Row|
        t.wf() ==> #[trigger] rs.contains(t))
}

/// Rows with the same stored digits are the same row.
pub proof fn lemma_row_eq(a: Row, b: Row)
    requires
        a@ == b@,
    ensures
        a == b,
{
    broadcast use vstd::array::axiom_array_ext_equal;

    assert(a.vals =~= b.vals);
}

/// No valid row lies below the identity row `[1,2,...,9]`: its stored
/// digits are exactly the least duplicate-free filler.
pub proof fn lemma_identity_bottom(s: Seq<u8>)
    requires
        valid_digits(s),
    ensures
        !lex_lt(s, identity_digits()),
{
    assert(forall|j: int| 0 <= j < 8 ==> identity_digits()[j] == j + 1);
    lemma_filler_minimal(s, identity_digits(), 0);
}

/// The list of all valid rows, in increasing lexicographic order: the
/// identity row first, then each row's successor, ending at the greatest
/// row.
pub fn build_rows() -> (r: Vec<Row>)
    ensures
        is_row_enumeration(r@),
        r@.len() > 0,
        r@[0]@ == identity_digits(),
        r@[r@.len() - 1]@ == max_digits(),
{
    let mut rows: Vec<Row> = Vec::new();
    let mut cur = Row::first();
    proof {
        assert forall|t: Row| t.wf() && lex_lt(t@, cur@) implies rows@.contains(t) by {
            lemma_identity_bottom(t@);
        }
    }
    loop
        invariant_except_break
            forall|k: int| 0 <= k < rows@.len() ==> lex_lt(#[trigger] rows@[k]@, cur@),
        invariant
            cur.wf(),
            forall|k: int| 0 <= k < rows@.len() ==> (#[trigger] rows@[k]).wf(),
            forall|a: int, b: int| 0 <= a < b < rows@.len() ==> lex_lt(rows@[a]@, rows@[b]@),
            rows@.len() == 0 ==> cur@ == identity_digits(),
            rows@.len() > 0 ==> rows@[0]@ == identity_digits(),
            forall|t: Row| t.wf() && lex_lt(t@, cur@) ==> #[trigger] rows@.contains(t),
        ensures
            is_row_enumeration(rows@),
            rows@.len() > 0,
            rows@[0]@ == identity_digits(),
            rows@[rows@.len() - 1]@ == max_digits(),
        decreases
                9 - cur@[0],
                9 - cur@[1],
                9 - cur@[2],
                9 - cur@[3],
                9 - cur@[4],
                9 - cur@[5],
                9 - cur@[6],
                9 - cur@[7],
    {
        let ghost prev_rows = rows@;
        rows.push(cur);
        proof {
            assert(forall|k: int|
                0 <= k < prev_rows.len() ==> rows@[k] == prev_rows[k]);
            assert forall|t: Row|
                prev_rows.contains(t) implies rows@.contains(t) by {
                let i = choose|i: int| 0 <= i < prev_rows.len() && prev_rows[i] == t;
                assert(rows@[i] == t);
            }
        }
        match cur.next() {
            Some(t) => {
                proof {
                    assert forall|u: Row|
                        u.wf() && lex_lt(u@, t@) implies rows@.contains(u) by {
                        lemma_lex_trichotomy(u@, cur@);
                        if lex_lt(u@, cur@) {
                            assert(prev_rows.contains(u));
                        } else if u@ == cur@ {
                            lemma_row_eq(u, cur);
                            assert(rows@[rows@.len() - 1] == cur);
                        } else {
                            assert(!lex_lt(u@, t@));
                            assert(false);
                        }
                    }
                    assert forall|k: int|
                        0 <= k < rows@.len() implies lex_lt(#[trigger] rows@[k]@, t@) by {
                        if k < rows@.len() - 1 {
                            lemma_lex_trans(rows@[k]@, cur@, t@);
                        }
                    }
                    lemma_lex_to_diff(cur@, t@);
                }
                cur = t;
            },
            None => {
                proof {
                    assert forall|t: Row| t.wf() implies rows@.contains(t) by {
                        lemma_lex_trichotomy(t@, cur@);
                        if lex_lt(t@, cur@) {
                            assert(prev_rows.contains(t));
                        } else if t@ == cur@ {
                            lemma_row_eq(t, cur);
                            assert(rows@[rows@.len() - 1] == cur);
                        } else {
                            lemma_max_top(t@);
                            assert(false);
                        }
                    }
                    assert(rows@[rows@.len() - 1] == cur);
                }
                break;
            },
        }
    }
    rows
}

/// Two strictly sorted sequences with the same members are the same
/// sequence.
proof fn lemma_sorted_same_elements(a: Seq<Row>, b: Seq<Row>)
    requires
        forall|i: int, j: int| 0 <= i < j < a.len() ==> lex_lt(a[i]@, a[j]@),
        forall|i: int, j: int| 0 <= i < j < b.len() ==> lex_lt(b[i]@, b[j]@),
        forall|t: Row| a.contains(t) <==> b.contains(t),
    ensures
        a == b,
    decreases a.len(),
{
    if a.len() == 0 {
        if b.len() > 0 {
            assert(b.contains(b[0]));
            assert(a.contains(b[0]));
            assert(false);
        }
        assert(a =~= b);
    } else {
        assert(a.contains(a[0]));
        assert(b.contains(a[0]));
        assert(b.contains(b[0]));
        assert(a.contains(b[0]));
        let ia = choose|i: int| 0 <= i < a.len() && a[i] == b[0];
        let ib = choose|i: int| 0 <= i < b.len() && b[i] == a[0];
        assert(a[0] == b[0]) by {
            if ia > 0 && ib > 0 {
                assert(lex_lt(a[0]@, a[ia]@));
                assert(lex_lt(b[0]@, b[ib]@));
                lemma_lex_asym(a[0]@, b[0]@);
                assert(false);
            }
        }
        let a1 = a.drop_first();
        let b1 = b.drop_first();
        assert forall|t: Row| a1.contains(t) <==> b1.contains(t) by {
            lemma_tail_membership(a, t);
            lemma_tail_membership(b, t);
        }
        lemma_sorted_same_elements(a1, b1);
        assert forall|k: int| 0 <= k < a.len() implies a[k] == b[k] by {
            if k > 0 {
                assert(a1[k - 1] == b1[k - 1]);
            }
        }
        assert(a =~= b);
    }
}

/// In a strictly sorted nonempty sequence, the tail holds exactly the
/// members other than the head.
proof fn lemma_tail_membership(a: Seq<Row>, t: Row)
    requires
        a.len() > 0,
        forall|i: int, j: int| 0 <= i < j < a.len() ==> lex_lt(a[i]@, a[j]@),
    ensures
        a.drop_first().contains(t) <==> (a.contains(t) && t != a[0]),
{
    let a1 = a.drop_first();
    if a1.contains(t) {
        let i = choose|i: int| 0 <= i < a1.len() && a1[i] == t;
        assert(a[i + 1] == t);
        assert(lex_lt(a[0]@, a[i + 1]@));
        if t == a[0] {
            lemma_lex_irrefl(a[0]@);
            assert(false);
        }
    }
    if a.contains(t) && t != a[0] {
        let i = choose|i: int| 0 <= i < a.len() && a[i] == t;
        assert(i > 0);
        assert(a1[i - 1] == t);
    }
}

/// There is only one enumeration of the valid rows: any two sequences that
/// each list every valid row exactly once in increasing order are equal.
pub proof fn lemma_enumeration_unique(a: Seq<Row>, b: Seq<Row>)
    requires
        is_row_enumeration(a),
        is_row_enumeration(b),
    ensures
        a == b,
{
    assert forall|t: Row| a.contains(t) <==> b.contains(t) by {
        if a.contains(t) {
            let i = choose|i: int| 0 <= i < a.len() && a[i] == t;
            assert(a[i].wf());
        }
        if b.contains(t) {
            let i = choose|i: int| 0 <= i < b.len() && b[i] == t;
            assert(b[i].wf());
        }
    }
    lemma_sorted_same_elements(a, b);
}

/// How many rows of `rs` are column-successors of the identity row.
pub open spec fn count_col(rs: Seq<Row>) -> int
    decreases rs.len(),
{
    if rs.len() == 0 {
        0
    } else {
        count_col(rs.drop_last()) + if col_disjoint(identity_values(), rs.last().values()) {
            1int
        } else {
            0int
        }
    }
}

/// How many rows of `rs` are box-successors of the identity row.
pub open spec fn count_box(rs: Seq<Row>) -> int
    decreases rs.len(),
{
    if rs.len() == 0 {
        0
    } else {
        count_box(rs.drop_last()) + if box_disjoint(identity_values(), rs.last().values()) {
            1int
        } else {
            0int
        }
    }
}

/// Count, over the enumeration of all valid rows, how many rows are
/// column-successors of the first row and how many are box-successors of
/// it.
pub fn successors_per_row() -> (r: (usize, usize))
    ensures
        forall|rs: Seq<Row>|
            #[trigger] is_row_enumeration(rs) ==> r.0 == count_col(rs) && r.1 == count_box(rs),
{
    let first = Row::first();
    let all = build_rows();
    proof {
        assert(first.values() =~= identity_values());
    }
    let mut col_count: usize = 0;
    let mut box_count: usize = 0;
    let mut i: usize = 0;
    while i < all.len()
        invariant
            first.wf(),
            first@ == identity_digits(),
            first.values() == identity_values(),
            is_row_enumeration(all@),
            i <= all@.len(),
            col_count as int == count_col(all@.take(i as int)),
            box_count as int == count_box(all@.take(i as int)),
            col_count <= i,
            box_count <= i,
        decreases all@.len() - i,
    {
        let r = &all[i];
        proof {
            assert(all@.take(i + 1).drop_last() =~= all@.take(i as int));
            assert(all@.take(i + 1).last() == all@[i as int]);
            assert(all@[i as int].wf());
        }
        if first.col_successor(r) {
            col_count = col_count + 1;
        }
        if first.box_successor(r) {
            box_count = box_count + 1;
        }
        i = i + 1;
    }
    proof {
        assert(all@.take(all@.len() as int) =~= all@);
        assert forall|rs: Seq<Row>|
            #[trigger] is_row_enumeration(rs) implies col_count as int == count_col(rs)
            && box_count as int == count_box(rs) by {
            lemma_enumeration_unique(rs, all@);
        }
    }
    (col_count, box_count)
}

/// No valid row lies above the greatest row `[9,8,...,2]`.
pub proof fn lemma_max_top(s: Seq<u8>)
    requires
        valid_digits(s),
    ensures
        !lex_lt(max_digits(), s),
{
    if lex_lt(max_digits(), s) {
        lemma_lex_to_diff(max_digits(), s);
        let k = choose|k: int|
            0 <= k < 8 && k < s.len() && (forall|j: int|
                0 <= j < k ==> max_digits()[j] == s[j]) && max_digits()[k] < s[k];
        assert(s[k] > 9 - k);
        assert(s[k] <= 9);
        let j0 = 9 - s[k] as int;
        assert(0 <= j0 < k);
        assert(s[j0] == max_digits()[j0]);
        assert(max_digits()[j0] == 9 - j0);
        assert(s[j0] == s[k]);
        assert(false);
    }
}

} // verus!
