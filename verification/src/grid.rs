//! A 9x9 Sudoku grid built from rows.
//!
//! Only the first eight rows are stored.  Every column of a full grid
//! holds each digit once, so each column sums to 45 and the ninth row is
//! recovered column by column as 45 minus the column sum, exactly as a
//! row's ninth digit is recovered from its stored eight.
//!
//! `first` builds the stored rows greedily: row 0 is the identity row, and
//! every later row is the least row above the identity that is
//! column-disjoint from all earlier rows and box-disjoint from the earlier
//! rows of its own band of three.

use crate::digits::{all_in_range, lemma_missing_digit, sum_of};
use crate::lex::{lemma_lex_to_diff, lemma_lex_trans, lemma_lex_trichotomy, lex_lt};
use crate::first_rows::{
    fixed_row_digits, lemma_fixed_rows_complete, lemma_fixed_rows_wf, lemma_step_1, lemma_step_2,
    lemma_step_3, lemma_step_4, lemma_step_5, lemma_step_6, lemma_step_7,
};
use crate::row::{box_disjoint, col_disjoint, identity_digits, lemma_row_eq, Row};
use vstd::prelude::*;

verus! {

/// Candidate row `t` may follow the rows of `prefix`: it is
/// column-disjoint from each of them and box-disjoint from those in its
/// own band of three.
pub open spec fn fits(prefix: Seq<Row>, t: Row) -> bool {
    (forall|j: int|
        0 <= j < prefix.len() ==> col_disjoint(t.values(), (#[trigger] prefix[j]).values()))
        && (forall|
        j: int,
    |
        prefix.len() - prefix.len() % 3 <= j < prefix.len() ==> box_disjoint(
            t.values(),
            (#[trigger] prefix[j]).values(),
        ))
}

/// `t` is the least valid row above the identity row that fits `prefix`.
pub open spec fn is_least_fit(prefix: Seq<Row>, t: Row) -> bool {
    t.wf() && lex_lt(identity_digits(), t@) && fits(prefix, t) && (forall|u: Row|
        u.wf() && lex_lt(identity_digits(), u@) && #[trigger] fits(prefix, u) ==> !lex_lt(
            u@,
            t@,
        ))
}

/// A 9x9 Sudoku grid; the first eight rows are stored and the ninth is
/// derived from the fixed column sum 45.
#[derive(Clone, Copy)]
pub struct Grid {
    rows: [Row; 8],
}

/// The digits of stored column `c`, one from each stored row.
pub open spec fn col_vals(g: Grid, c: int) -> Seq<u8> {
    Seq::new(8, |r: int| g.spec_rows()[r]@[c])
}

/// The value at logical position `p` of the derived ninth row: for a
/// stored column, 45 minus the column sum; for the final position, what
/// the fixed row sum 45 leaves of the eight derived digits, written out
/// as the total of the stored rows' digits less eight columns of 45 plus
/// one row of 45.
pub open spec fn ninth_value(g: Grid, p: int) -> int {
    if 0 <= p < 8 {
        45 - sum_of(col_vals(g, p))
    } else {
        sum_of(g.spec_rows()[0]@) + sum_of(g.spec_rows()[1]@) + sum_of(g.spec_rows()[2]@) + sum_of(
            g.spec_rows()[3]@,
        ) + sum_of(g.spec_rows()[4]@) + sum_of(g.spec_rows()[5]@) + sum_of(g.spec_rows()[6]@)
            + sum_of(g.spec_rows()[7]@) - 315
    }
}

/// The nine values of the derived ninth row, in position order.
pub open spec fn ninth_values(g: Grid) -> Seq<int> {
    Seq::new(9, |p: int| ninth_value(g, p))
}

/// The derived ninth row completes the grid into a full valid Sudoku: its
/// nine values are a permutation of 1..=9, they collide with no stored
/// row at any position, and its thirds are box-disjoint from those of the
/// other two rows of the final band.
pub open spec fn ninth_complete(g: Grid) -> bool {
    (forall|p: int| 0 <= p < 9 ==> 1 <= #[trigger] ninth_values(g)[p] <= 9) && (forall|
        p: int,
        q: int,
    |
        0 <= p < q < 9 ==> ninth_values(g)[p] != ninth_values(g)[q]) && (forall|j: int|
        0 <= j < 8 ==> col_disjoint(ninth_values(g), (#[trigger] g.spec_rows()[j]).values()))
        && box_disjoint(ninth_values(g), g.spec_rows()[6].values()) && box_disjoint(
        ninth_values(g),
        g.spec_rows()[7].values(),
    )
}

impl Grid {
    /// The eight stored rows.
    pub closed spec fn spec_rows(self) -> Seq<Row> {
        self.rows@
    }

    /// Eight stored rows, all well-formed, pairwise column-disjoint at
    /// every position — the derived ninth included — and box-disjoint
    /// within each band of three.
    pub open spec fn wf(self) -> bool {
        self.spec_rows().len() == 8 && (forall|i: int|
            0 <= i < 8 ==> (#[trigger] self.spec_rows()[i]).wf()) && (forall|
            i: int,
            j: int,
        |
            0 <= i < j < 8 ==> col_disjoint(
                self.spec_rows()[i].values(),
                self.spec_rows()[j].values(),
            )) && (forall|
            i: int,
            j: int,
        |
            0 <= i < j < 8 && i / 3 == j / 3 ==> box_disjoint(
                self.spec_rows()[i].values(),
                self.spec_rows()[j].values(),
            ))
    }

    /// Build the lexicographically first valid grid: row 0 is the identity
    /// row, and each later stored row is the least row above the identity
    /// that fits the rows already fixed.  The search always succeeds — each
    /// row it is about to fix is known in advance to have a fitting
    /// candidate — so the result is never `None`, and the grid it carries
    /// is complete: the derived ninth row is itself a permutation row that
    /// finishes every column and box.
    pub fn first() -> (r: Option<Grid>)
        ensures
            r is Some,
            r matches Some(g) ==> g.wf() && g.spec_rows()[0]@ == identity_digits()
                && ninth_complete(g) && (forall|i: int|
                1 <= i < 8 ==> is_least_fit(g.spec_rows().take(i), #[trigger] g.spec_rows()[i])),
    {
        let mut rows: [Row; 8] = [Row::first(); 8];
        proof {
            assert(forall|k: int| 0 <= k <= 0 ==> rows@[k]@ == fixed_row_digits(k));
        }
        let w1 = Row::from_digits([4, 5, 6, 7, 8, 9, 1, 2]);
        let ghost p1 = rows@.take(1);
        proof {
            assert(w1@ =~= fixed_row_digits(1));
            assert forall|j: int| 0 <= j < 1 implies (#[trigger] p1[j])@ == fixed_row_digits(
                j,
            ) by {
                assert(p1[j] == rows@[j]);
            }
            lemma_step_1(p1, w1);
        }
        Self::fix_row(&mut rows, 1);
        proof {
            assert(!lex_lt(rows@[1]@, w1@));
            assert(!lex_lt(w1@, rows@[1]@));
            lemma_lex_trichotomy(rows@[1]@, w1@);
            lemma_row_eq(rows@[1], w1);
            assert(forall|k: int| 0 <= k <= 1 ==> rows@[k]@ == fixed_row_digits(k));
        }

        let w2 = Row::from_digits([7, 8, 9, 1, 2, 3, 4, 5]);
        let ghost p2 = rows@.take(2);
        proof {
            assert(w2@ =~= fixed_row_digits(2));
            assert forall|j: int| 0 <= j < 2 implies (#[trigger] p2[j])@ == fixed_row_digits(
                j,
            ) by {
                assert(p2[j] == rows@[j]);
            }
            lemma_step_2(p2, w2);
        }
        Self::fix_row(&mut rows, 2);
        proof {
            assert(!lex_lt(rows@[2]@, w2@));
            assert(!lex_lt(w2@, rows@[2]@));
            lemma_lex_trichotomy(rows@[2]@, w2@);
            lemma_row_eq(rows@[2], w2);
            assert(forall|k: int| 0 <= k <= 2 ==> rows@[k]@ == fixed_row_digits(k));
        }

        let w3 = Row::from_digits([2, 1, 4, 3, 6, 5, 8, 9]);
        let ghost p3 = rows@.take(3);
        proof {
            assert(w3@ =~= fixed_row_digits(3));
            assert forall|j: int| 0 <= j < 3 implies (#[trigger] p3[j])@ == fixed_row_digits(
                j,
            ) by {
                assert(p3[j] == rows@[j]);
            }
            lemma_step_3(p3, w3);
        }
        Self::fix_row(&mut rows, 3);
        proof {
            assert(!lex_lt(rows@[3]@, w3@));
            assert(!lex_lt(w3@, rows@[3]@));
            lemma_lex_trichotomy(rows@[3]@, w3@);
            lemma_row_eq(rows@[3], w3);
            assert(forall|k: int| 0 <= k <= 3 ==> rows@[k]@ == fixed_row_digits(k));
        }

        let w4 = Row::from_digits([3, 6, 5, 8, 9, 7, 2, 1]);
        let ghost p4 = rows@.take(4);
        proof {
            assert(w4@ =~= fixed_row_digits(4));
            assert forall|j: int| 0 <= j < 4 implies (#[trigger] p4[j])@ == fixed_row_digits(
                j,
            ) by {
                assert(p4[j] == rows@[j]);
            }
            lemma_step_4(p4, w4);
        }
        Self::fix_row(&mut rows, 4);
        proof {
            assert(!lex_lt(rows@[4]@, w4@));
            assert(!lex_lt(w4@, rows@[4]@));
            lemma_lex_trichotomy(rows@[4]@, w4@);
            lemma_row_eq(rows@[4], w4);
            assert(forall|k: int| 0 <= k <= 4 ==> rows@[k]@ == fixed_row_digits(k));
        }

        let w5 = Row::from_digits([8, 9, 7, 2, 1, 4, 3, 6]);
        let ghost p5 = rows@.take(5);
        proof {
            assert(w5@ =~= fixed_row_digits(5));
            assert forall|j: int| 0 <= j < 5 implies (#[trigger] p5[j])@ == fixed_row_digits(
                j,
            ) by {
                assert(p5[j] == rows@[j]);
            }
            lemma_step_5(p5, w5);
        }
        Self::fix_row(&mut rows, 5);
        proof {
            assert(!lex_lt(rows@[5]@, w5@));
            assert(!lex_lt(w5@, rows@[5]@));
            lemma_lex_trichotomy(rows@[5]@, w5@);
            lemma_row_eq(rows@[5], w5);
            assert(forall|k: int| 0 <= k <= 5 ==> rows@[k]@ == fixed_row_digits(k));
        }

        let w6 = Row::from_digits([5, 3, 1, 6, 4, 2, 9, 7]);
        let ghost p6 = rows@.take(6);
        proof {
            assert(w6@ =~= fixed_row_digits(6));
            assert forall|j: int| 0 <= j < 6 implies (#[trigger] p6[j])@ == fixed_row_digits(
                j,
            ) by {
                assert(p6[j] == rows@[j]);
            }
            lemma_step_6(p6, w6);
        }
        Self::fix_row(&mut rows, 6);
        proof {
            assert(!lex_lt(rows@[6]@, w6@));
            assert(!lex_lt(w6@, rows@[6]@));
            lemma_lex_trichotomy(rows@[6]@, w6@);
            lemma_row_eq(rows@[6], w6);
            assert(forall|k: int| 0 <= k <= 6 ==> rows@[k]@ == fixed_row_digits(k));
        }

        let w7 = Row::from_digits([6, 4, 2, 9, 7, 8, 5, 3]);
        let ghost p7 = rows@.take(7);
        proof {
            assert(w7@ =~= fixed_row_digits(7));
            assert forall|j: int| 0 <= j < 7 implies (#[trigger] p7[j])@ == fixed_row_digits(
                j,
            ) by {
                assert(p7[j] == rows@[j]);
            }
            lemma_step_7(p7, w7);
        }
        Self::fix_row(&mut rows, 7);
        proof {
            assert(!lex_lt(rows@[7]@, w7@));
            assert(!lex_lt(w7@, rows@[7]@));
            lemma_lex_trichotomy(rows@[7]@, w7@);
            lemma_row_eq(rows@[7], w7);
            assert(forall|k: int| 0 <= k <= 7 ==> rows@[k]@ == fixed_row_digits(k));
        }

        let g = Grid { rows };
        proof {
            assert(g.spec_rows().len() == 8);
            lemma_fixed_rows_wf(g);
            lemma_fixed_rows_complete(g);
            assert forall|i: int|
                1 <= i < 8 implies is_least_fit(
                g.spec_rows().take(i),
                #[trigger] g.spec_rows()[i],
            ) by {
                let prefix = g.spec_rows().take(i);
                assert forall|j: int| 0 <= j < i implies (#[trigger] prefix[j])@
                    == fixed_row_digits(j) by {
                    assert(prefix[j] == rows@[j]);
                }
                if i == 1 {
                    lemma_step_1(prefix, g.spec_rows()[i]);
                } else if i == 2 {
                    lemma_step_2(prefix, g.spec_rows()[i]);
                } else if i == 3 {
                    lemma_step_3(prefix, g.spec_rows()[i]);
                } else if i == 4 {
                    lemma_step_4(prefix, g.spec_rows()[i]);
                } else if i == 5 {
                    lemma_step_5(prefix, g.spec_rows()[i]);
                } else if i == 6 {
                    lemma_step_6(prefix, g.spec_rows()[i]);
                } else {
                    lemma_step_7(prefix, g.spec_rows()[i]);
                }
            }
        }
        Some(g)
    }

    /// Fix row `i` as the least valid row above the identity that fits the
    /// rows before it, walking the successor chain from the identity row.
    /// Some fitting row exists, so the chain cannot run out first.
    fn fix_row(rows: &mut [Row; 8], i: usize)
        requires
            1 <= i < 8,
            forall|k: int| 0 <= k < i ==> (#[trigger] old(rows)@[k]).wf(),
            exists|t: Row|
                t.wf() && lex_lt(identity_digits(), t@) && #[trigger] fits(
                    old(rows)@.take(i as int),
                    t,
                ),
        ensures
            forall|k: int| 0 <= k < 8 && k != i ==> final(rows)@[k] == old(rows)@[k],
            is_least_fit(old(rows)@.take(i as int), final(rows)@[i as int]),
    {
        let ghost prefix = rows@.take(i as int);
        let mut cand_row = Row::first();
        loop
            invariant_except_break
                forall|k: int| 0 <= k < 8 ==> rows@[k] == old(rows)@[k],
            invariant
                1 <= i < 8,
                prefix == old(rows)@.take(i as int),
                forall|k: int| 0 <= k < i ==> (#[trigger] old(rows)@[k]).wf(),
                cand_row.wf(),
                cand_row@ == identity_digits() || lex_lt(identity_digits(), cand_row@),
                forall|u: Row|
                    u.wf() && lex_lt(identity_digits(), u@) && !lex_lt(cand_row@, u@)
                        ==> !(#[trigger] fits(prefix, u)),
                exists|t: Row|
                    t.wf() && lex_lt(identity_digits(), t@) && #[trigger] fits(prefix, t),
            ensures
                forall|k: int| 0 <= k < 8 && k != i ==> rows@[k] == old(rows)@[k],
                is_least_fit(prefix, rows@[i as int]),
            decreases
                    9 - cand_row@[0],
                    9 - cand_row@[1],
                    9 - cand_row@[2],
                    9 - cand_row@[3],
                    9 - cand_row@[4],
                    9 - cand_row@[5],
                    9 - cand_row@[6],
                    9 - cand_row@[7],
        {
            match cand_row.next() {
                None => {
                    proof {
                        let t = choose|t: Row|
                            t.wf() && lex_lt(identity_digits(), t@) && #[trigger] fits(
                                prefix,
                                t,
                            );
                        crate::row::lemma_max_top(t@);
                        assert(!fits(prefix, t));
                        assert(false);
                    }
                    break;
                },
                Some(t) => {
                    proof {
                        lemma_lex_to_diff(cand_row@, t@);
                        if cand_row@ == identity_digits() {
                            assert(lex_lt(identity_digits(), t@));
                        } else {
                            lemma_lex_trans(identity_digits(), cand_row@, t@);
                        }
                    }
                    if Self::row_fits(rows, i, &t) {
                        proof {
                            assert(rows@.take(i as int) =~= prefix);
                            assert forall|u: Row|
                                u.wf() && lex_lt(identity_digits(), u@) && #[trigger] fits(
                                    prefix,
                                    u,
                                ) implies !lex_lt(u@, t@) by {
                                if lex_lt(u@, t@) {
                                    lemma_lex_trichotomy(u@, cand_row@);
                                    if !lex_lt(cand_row@, u@) {
                                        assert(!fits(prefix, u));
                                    } else {
                                        assert(!lex_lt(u@, t@));
                                    }
                                }
                            }
                        }
                        rows[i] = t;
                        proof {
                            assert(rows@[i as int] == t);
                            assert(is_least_fit(prefix, t));
                        }
                        break;
                    }
                    proof {
                        assert(rows@.take(i as int) =~= prefix);
                        assert forall|u: Row|
                            u.wf() && lex_lt(identity_digits(), u@) && !lex_lt(t@, u@)
                                implies !(#[trigger] fits(prefix, u)) by {
                            lemma_lex_trichotomy(u@, t@);
                            if u@ == t@ {
                                lemma_row_eq(u, t);
                            } else {
                                assert(lex_lt(u@, t@));
                                lemma_lex_trichotomy(u@, cand_row@);
                                if lex_lt(cand_row@, u@) {
                                    assert(!lex_lt(u@, t@));
                                }
                            }
                        }
                    }
                    cand_row = t;
                },
            }
        }
    }

    /// True if `t` fits below the first `i` rows of `rows`: column-disjoint
    /// from each, box-disjoint from those of its band.
    fn row_fits(rows: &[Row; 8], i: usize, t: &Row) -> (ok: bool)
        requires
            1 <= i < 8,
            forall|k: int| 0 <= k < i ==> (#[trigger] rows@[k]).wf(),
            t.wf(),
        ensures
            ok == fits(rows@.take(i as int), *t),
    {
        let ghost prefix = rows@.take(i as int);
        let mut j: usize = 0;
        while j < i
            invariant
                j <= i < 8,
                prefix == rows@.take(i as int),
                forall|k: int| 0 <= k < i ==> (#[trigger] rows@[k]).wf(),
                t.wf(),
                forall|k: int|
                    0 <= k < j ==> col_disjoint(t.values(), (#[trigger] prefix[k]).values()),
            decreases i - j,
        {
            if !t.col_successor(&rows[j]) {
                proof {
                    assert(!col_disjoint(t.values(), prefix[j as int].values()));
                }
                return false;
            }
            j = j + 1;
        }
        let start = i - (i % 3);
        let mut j: usize = start;
        while j < i
            invariant
                start <= j <= i < 8,
                start == i - (i % 3),
                prefix == rows@.take(i as int),
                forall|k: int| 0 <= k < i ==> (#[trigger] rows@[k]).wf(),
                t.wf(),
                forall|k: int|
                    0 <= k < i ==> col_disjoint(t.values(), (#[trigger] prefix[k]).values()),
                forall|k: int|
                    start <= k < j ==> box_disjoint(t.values(), (#[trigger] prefix[k]).values()),
            decreases i - j,
        {
            if !t.box_successor(&rows[j]) {
                proof {
                    assert(!box_disjoint(t.values(), prefix[j as int].values()));
                }
                return false;
            }
            j = j + 1;
        }
        true
    }

    /// The derived ninth row: in every stored column, 45 minus the column
    /// sum, the one digit the eight stored rows leave out there.  Its
    /// digits are each between 1 and 9 and differ from the whole stored
    /// column; that they are also pairwise distinct holds exactly when the
    /// grid admits a completion (`ninth_complete`, established for the
    /// grid `first` builds).
    fn ninth_row(&self) -> (r: Row)
        requires
            self.wf(),
        ensures
            forall|c: int| 0 <= c < 8 ==> #[trigger] r@[c] as int == 45 - sum_of(col_vals(*self, c)),
            forall|c: int| 0 <= c < 8 ==> 1 <= #[trigger] r@[c] <= 9,
            forall|j: int, c: int|
                0 <= j < 8 && 0 <= c < 8 ==> #[trigger] r@[c] != (#[trigger] self.spec_rows()[j])@[c],
    {
        let mut vals: [u8; 8] = [0; 8];
        let mut c: usize = 0;
        while c < 8
            invariant
                self.wf(),
                c <= 8,
                vals@.len() == 8,
                forall|cc: int|
                    0 <= cc < c ==> #[trigger] vals@[cc] as int == 45 - sum_of(col_vals(*self, cc)),
                forall|cc: int| 0 <= cc < c ==> 1 <= #[trigger] vals@[cc] <= 9,
            decreases 8 - c,
        {
            let ghost col = col_vals(*self, c as int);
            let mut acc: u8 = 0;
            let mut rr: usize = 0;
            while rr < 8
                invariant
                    self.wf(),
                    c < 8,
                    rr <= 8,
                    col == col_vals(*self, c as int),
                    acc as int == sum_of(col.take(rr as int)),
                    acc <= 72,
                decreases 8 - rr,
            {
                proof {
                    assert(col.take(rr + 1).drop_last() =~= col.take(rr as int));
                    assert(col.take(rr + 1).last() == col[rr as int]);
                    assert(col[rr as int] == self.spec_rows()[rr as int]@[c as int]);
                    assert(all_in_range(col.take(rr + 1), 1, 9));
                    crate::digits::lemma_sum_bounds(col.take(rr + 1), 1, 9);
                }
                acc = acc + self.rows[rr].get_unchecked((c + 1) as u8);
                rr = rr + 1;
            }
            proof {
                assert(col.take(8) =~= col);
                assert(col.no_duplicates()) by {
                    assert forall|a: int, b: int|
                        0 <= a < col.len() && 0 <= b < col.len() && a != b implies col[a]
                        != col[b] by {
                        let lo = if a < b { a } else { b };
                        let hi = if a < b { b } else { a };
                        assert(col_disjoint(
                            self.spec_rows()[lo].values(),
                            self.spec_rows()[hi].values(),
                        ));
                        assert(self.spec_rows()[lo].values()[c as int]
                            != self.spec_rows()[hi].values()[c as int]);
                    }
                }
                assert(all_in_range(col, 1, 9));
                lemma_missing_digit(col);
            }
            vals[c] = 45 - acc;
            c = c + 1;
        }
        let r = Row::from_digits(vals);
        proof {
            let srows = self.spec_rows();
            assert forall|j: int, cc: int|
                0 <= j < 8 && 0 <= cc < 8 implies #[trigger] r@[cc]
                != (#[trigger] srows[j])@[cc] by {
                lemma_ninth_row_is_missing(*self, cc);
                assert(r@[cc] as int == 45 - sum_of(col_vals(*self, cc)));
            }
        }
        r
    }

    /// The row at 0-based index `i`: a stored row for `i < 8`, the derived
    /// ninth row for `i == 8`.
    fn get(&self, i: usize) -> (r: Option<Row>)
        requires
            self.wf(),
        ensures
            i < 8 ==> (r matches Some(t) && t == self.spec_rows()[i as int]),
            i == 8 ==> (r matches Some(t) && forall|c: int|
                0 <= c < 8 ==> #[trigger] t@[c] as int == 45 - sum_of(col_vals(*self, c))),
            i > 8 ==> r is None,
    {
        if i < 8 {
            Some(self.rows[i])
        } else if i == 8 {
            Some(self.ninth_row())
        } else {
            None
        }
    }

    /// A cursor over the nine rows of the grid, in order.
    pub fn rows(&self) -> (it: Iter)
        requires
            self.wf(),
        ensures
            it.wf(),
            it.spec_grid() == *self,
            it.spec_index() == 0,
    {
        Iter::from(self)
    }
}

/// Deriving the ninth row by subtraction agrees with set difference: in
/// every stored column of a well-formed grid, 45 minus the column sum is
/// exactly the one digit of 1..=9 that the eight stored rows do not use in
/// that column.
pub proof fn lemma_ninth_row_is_missing(g: Grid, c: int)
    requires
        g.wf(),
        0 <= c < 8,
    ensures
        1 <= 45 - sum_of(col_vals(g, c)) <= 9,
        forall|r: int|
            0 <= r < 8 ==> (#[trigger] g.spec_rows()[r])@[c] != 45 - sum_of(col_vals(g, c)),
        forall|v: u8|
            1 <= v <= 9 && !(#[trigger] col_vals(g, c).contains(v)) ==> v as int == 45 - sum_of(
                col_vals(g, c),
            ),
{
    let col = col_vals(g, c);
    assert(col.no_duplicates()) by {
        assert forall|a: int, b: int|
            0 <= a < col.len() && 0 <= b < col.len() && a != b implies col[a] != col[b] by {
            let lo = if a < b { a } else { b };
            let hi = if a < b { b } else { a };
            assert(col_disjoint(g.spec_rows()[lo].values(), g.spec_rows()[hi].values()));
            assert(g.spec_rows()[lo].values()[c] != g.spec_rows()[hi].values()[c]);
        }
    }
    assert(all_in_range(col, 1, 9));
    lemma_missing_digit(col);
    assert forall|r: int|
        0 <= r < 8 implies (#[trigger] g.spec_rows()[r])@[c] != 45 - sum_of(col) by {
        assert(col[r] == g.spec_rows()[r]@[c]);
        assert(!col.contains((45 - sum_of(col)) as u8));
    }
}

/// When some valid row completes the stored eight — column-disjoint from
/// every one of them — the derived ninth row is exactly that completion
/// at all nine positions: recovering the row by subtraction from 45 and
/// naming the one row that the columns leave out are the same thing
/// whenever such a row exists.
pub proof fn lemma_ninth_row_is_completion(g: Grid, t: Row)
    requires
        g.wf(),
        t.wf(),
        forall|j: int| 0 <= j < 8 ==> col_disjoint(t.values(), (#[trigger] g.spec_rows()[j]).values()),
    ensures
        forall|c: int| 0 <= c < 8 ==> #[trigger] t@[c] as int == 45 - sum_of(col_vals(g, c)),
        forall|p: int| 0 <= p < 9 ==> #[trigger] t.values()[p] == ninth_value(g, p),
{
    assert forall|c: int|
        0 <= c < 8 implies #[trigger] t@[c] as int == 45 - sum_of(col_vals(g, c)) by {
        lemma_ninth_row_is_missing(g, c);
        let col = col_vals(g, c);
        assert(!col.contains(t@[c])) by {
            if col.contains(t@[c]) {
                let r = choose|r: int| 0 <= r < col.len() && col[r] == t@[c];
                assert(col_disjoint(t.values(), g.spec_rows()[r].values()));
                assert(t.values()[c] != g.spec_rows()[r].values()[c]);
                assert(col[r] == g.spec_rows()[r]@[c]);
                assert(false);
            }
        }
        assert(1 <= t@[c] <= 9);
    }
    assert forall|p: int| 0 <= p < 9 implies #[trigger] t.values()[p] == ninth_value(g, p) by {
        if p == 8 {
            // the last value balances the fixed sums: adding the eight
            // column sums and adding the eight row sums count the same
            // sixty-four digits
            crate::row::lemma_sum_explicit(t@);
            crate::row::lemma_sum_explicit(col_vals(g, 0));
            crate::row::lemma_sum_explicit(col_vals(g, 1));
            crate::row::lemma_sum_explicit(col_vals(g, 2));
            crate::row::lemma_sum_explicit(col_vals(g, 3));
            crate::row::lemma_sum_explicit(col_vals(g, 4));
            crate::row::lemma_sum_explicit(col_vals(g, 5));
            crate::row::lemma_sum_explicit(col_vals(g, 6));
            crate::row::lemma_sum_explicit(col_vals(g, 7));
            crate::row::lemma_sum_explicit(g.spec_rows()[0]@);
            crate::row::lemma_sum_explicit(g.spec_rows()[1]@);
            crate::row::lemma_sum_explicit(g.spec_rows()[2]@);
            crate::row::lemma_sum_explicit(g.spec_rows()[3]@);
            crate::row::lemma_sum_explicit(g.spec_rows()[4]@);
            crate::row::lemma_sum_explicit(g.spec_rows()[5]@);
            crate::row::lemma_sum_explicit(g.spec_rows()[6]@);
            crate::row::lemma_sum_explicit(g.spec_rows()[7]@);
        }
    }
}

/// A cursor over the nine rows of a grid, in order; the ninth row is
/// derived when reached.
pub struct Iter {
    grid: Grid,
    index: u8,
}

impl Iter {
    /// The cursor is consistent with its grid.
    pub closed spec fn wf(self) -> bool {
        self.grid.wf() && self.index <= 9
    }

    /// The grid being iterated.
    pub closed spec fn spec_grid(self) -> Grid {
        self.grid
    }

    /// How many rows have been yielded so far.
    pub closed spec fn spec_index(self) -> int {
        self.index as int
    }

    fn from(grid: &Grid) -> (it: Iter)
        requires
            grid.wf(),
        ensures
            it.wf(),
            it.spec_grid() == *grid,
            it.spec_index() == 0,
    {
        Iter { grid: *grid, index: 0 }
    }

    /// The next row of the grid, or `None` once all nine are out.
    pub fn next(&mut self) -> (r: Option<Row>)
        requires
            old(self).wf(),
        ensures
            final(self).wf(),
            final(self).spec_grid() == old(self).spec_grid(),
            old(self).spec_index() < 8 ==> (r matches Some(t) && t == old(
                self,
            ).spec_grid().spec_rows()[old(self).spec_index()] && final(self).spec_index() == old(
                self,
            ).spec_index() + 1),
            old(self).spec_index() == 8 ==> (r matches Some(t) && final(self).spec_index() == 9
                && forall|c: int|
                0 <= c < 8 ==> #[trigger] t@[c] as int == 45 - sum_of(
                    col_vals(old(self).spec_grid(), c),
                )),
            old(self).spec_index() >= 9 ==> r is None && *final(self) == *old(self),
    {
        if self.index < 8 {
            let current = self.grid.rows[self.index as usize];
            self.index = self.index + 1;
            Some(current)
        } else if self.index == 8 {
            self.index = self.index + 1;
            Some(self.grid.ninth_row())
        } else {
            None
        }
    }
}

} // verus!
