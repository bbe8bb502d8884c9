//! The rows that the first-grid search fixes, with the facts the search
//! needs: each fixed row fits the rows before it, and no valid row below
//! it does.  The search in `grid` walks the successor chain from the
//! identity row, so these two facts per step pin the row the search stops
//! at and rule out running off the end of the chain; the pinned rows then
//! let the derived ninth row be evaluated outright.

use crate::grid::{col_vals, fits, ninth_complete, ninth_values, Grid};
use crate::lex::{lemma_lex_from_diff, lemma_lex_to_diff, lex_lt};
use crate::row::{
    box_disjoint, col_disjoint, identity_digits, lemma_sum_explicit, valid_digits, Row,
};
use vstd::prelude::*;

verus! {

/// The stored digits of the row the search fixes at index `k`.
pub open spec fn fixed_row_digits(k: int) -> Seq<u8> {
    if k <= 0 {
        identity_digits()
    } else if k == 1 {
        seq![4u8, 5, 6, 7, 8, 9, 1, 2]
    } else if k == 2 {
        seq![7u8, 8, 9, 1, 2, 3, 4, 5]
    } else if k == 3 {
        seq![2u8, 1, 4, 3, 6, 5, 8, 9]
    } else if k == 4 {
        seq![3u8, 6, 5, 8, 9, 7, 2, 1]
    } else if k == 5 {
        seq![8u8, 9, 7, 2, 1, 4, 3, 6]
    } else if k == 6 {
        seq![5u8, 3, 1, 6, 4, 2, 9, 7]
    } else {
        seq![6u8, 4, 2, 9, 7, 8, 5, 3]
    }
}

/// Step 1 of the search: the fixed row fits the row before it, and no
/// valid row below it does.
pub proof fn lemma_step_1(prefix: Seq<Row>, w: Row)
    requires
        prefix.len() == 1,
        forall|j: int| 0 <= j < 1 ==> (#[trigger] prefix[j])@ == fixed_row_digits(j),
        w@ == fixed_row_digits(1),
    ensures
        w.wf(),
        lex_lt(identity_digits(), w@),
        fits(prefix, w),
        forall|u: Row| u.wf() && #[trigger] fits(prefix, u) ==> !lex_lt(u@, w@),
{
    assert(valid_digits(w@));
    lemma_lex_from_diff(identity_digits(), w@, 0);
    lemma_sum_explicit(w@);
    assert(w.values() =~= seq![4int, 5, 6, 7, 8, 9, 1, 2, 3]);
    assert(prefix[0]@ == fixed_row_digits(0));
    lemma_sum_explicit(prefix[0]@);
    assert(prefix[0].values() =~= seq![1int, 2, 3, 4, 5, 6, 7, 8, 9]);
    assert forall|j: int|
        0 <= j < 1 implies col_disjoint(w.values(), (#[trigger] prefix[j]).values()) by {
        assert(prefix[j]@ == fixed_row_digits(j));
    }
    assert forall|j: int|
        0 <= j < 1 implies box_disjoint(w.values(), (#[trigger] prefix[j]).values()) by {
        assert(prefix[j]@ == fixed_row_digits(j));
    }
    assert(fits(prefix, w));
    assert forall|u: Row| u.wf() && #[trigger] fits(prefix, u) implies !lex_lt(u@, w@) by {
        if lex_lt(u@, w@) {
            u.lemma_values_permutation();
            lemma_sum_explicit(u@);
            lemma_lex_to_diff(u@, w@);
            let uv = u.values();
            assert(uv[0] == u@[0] && uv[1] == u@[1] && uv[2] == u@[2] && uv[3] == u@[3]
                && uv[4] == u@[4] && uv[5] == u@[5] && uv[6] == u@[6] && uv[7] == u@[7]);
            assert(uv[8] == 45 - (u@[0] + u@[1] + u@[2] + u@[3] + u@[4] + u@[5] + u@[6]
                + u@[7]));
            let k0 = choose|k: int|
                0 <= k < u@.len() && k < w@.len() && (forall|j: int|
                    0 <= j < k ==> u@[j] == w@[j]) && u@[k] < w@[k];
            assert(col_disjoint(uv, prefix[0].values()));
            assert(box_disjoint(uv, prefix[0].values()));
            assert(false);
        }
    }
}

/// Step 2 of the search: the fixed row fits the rows before it, and no
/// valid row below it does.
pub proof fn lemma_step_2(prefix: Seq<Row>, w: Row)
    requires
        prefix.len() == 2,
        forall|j: int| 0 <= j < 2 ==> (#[trigger] prefix[j])@ == fixed_row_digits(j),
        w@ == fixed_row_digits(2),
    ensures
        w.wf(),
        lex_lt(identity_digits(), w@),
        fits(prefix, w),
        forall|u: Row| u.wf() && #[trigger] fits(prefix, u) ==> !lex_lt(u@, w@),
{
    assert(valid_digits(w@));
    lemma_lex_from_diff(identity_digits(), w@, 0);
    lemma_sum_explicit(w@);
    assert(w.values() =~= seq![7int, 8, 9, 1, 2, 3, 4, 5, 6]);
    assert(prefix[0]@ == fixed_row_digits(0));
    lemma_sum_explicit(prefix[0]@);
    assert(prefix[0].values() =~= seq![1int, 2, 3, 4, 5, 6, 7, 8, 9]);
    assert(prefix[1]@ == fixed_row_digits(1));
    lemma_sum_explicit(prefix[1]@);
    assert(prefix[1].values() =~= seq![4int, 5, 6, 7, 8, 9, 1, 2, 3]);
    assert forall|j: int|
        0 <= j < 2 implies col_disjoint(w.values(), (#[trigger] prefix[j]).values()) by {
        assert(prefix[j]@ == fixed_row_digits(j));
    }
    assert forall|j: int|
        0 <= j < 2 implies box_disjoint(w.values(), (#[trigger] prefix[j]).values()) by {
        assert(prefix[j]@ == fixed_row_digits(j));
    }
    assert(fits(prefix, w));
    assert forall|u: Row| u.wf() && #[trigger] fits(prefix, u) implies !lex_lt(u@, w@) by {
        if lex_lt(u@, w@) {
            u.lemma_values_permutation();
            lemma_sum_explicit(u@);
            lemma_lex_to_diff(u@, w@);
            let uv = u.values();
            assert(uv[0] == u@[0] && uv[1] == u@[1] && uv[2] == u@[2] && uv[3] == u@[3]
                && uv[4] == u@[4] && uv[5] == u@[5] && uv[6] == u@[6] && uv[7] == u@[7]);
            assert(uv[8] == 45 - (u@[0] + u@[1] + u@[2] + u@[3] + u@[4] + u@[5] + u@[6]
                + u@[7]));
            let k0 = choose|k: int|
                0 <= k < u@.len() && k < w@.len() && (forall|j: int|
                    0 <= j < k ==> u@[j] == w@[j]) && u@[k] < w@[k];
            assert(col_disjoint(uv, prefix[0].values()));
            assert(col_disjoint(uv, prefix[1].values()));
            assert(box_disjoint(uv, prefix[0].values()));
            assert(box_disjoint(uv, prefix[1].values()));
            assert(false);
        }
    }
}

/// Step 3 of the search: the fixed row fits the rows before it, and no
/// valid row below it does.
pub proof fn lemma_step_3(prefix: Seq<Row>, w: Row)
    requires
        prefix.len() == 3,
        forall|j: int| 0 <= j < 3 ==> (#[trigger] prefix[j])@ == fixed_row_digits(j),
        w@ == fixed_row_digits(3),
    ensures
        w.wf(),
        lex_lt(identity_digits(), w@),
        fits(prefix, w),
        forall|u: Row| u.wf() && #[trigger] fits(prefix, u) ==> !lex_lt(u@, w@),
{
    assert(valid_digits(w@));
    lemma_lex_from_diff(identity_digits(), w@, 0);
    lemma_sum_explicit(w@);
    assert(w.values() =~= seq![2int, 1, 4, 3, 6, 5, 8, 9, 7]);
    assert(prefix[0]@ == fixed_row_digits(0));
    lemma_sum_explicit(prefix[0]@);
    assert(prefix[0].values() =~= seq![1int, 2, 3, 4, 5, 6, 7, 8, 9]);
    assert(prefix[1]@ == fixed_row_digits(1));
    lemma_sum_explicit(prefix[1]@);
    assert(prefix[1].values() =~= seq![4int, 5, 6, 7, 8, 9, 1, 2, 3]);
    assert(prefix[2]@ == fixed_row_digits(2));
    lemma_sum_explicit(prefix[2]@);
    assert(prefix[2].values() =~= seq![7int, 8, 9, 1, 2, 3, 4, 5, 6]);
    assert forall|j: int|
        0 <= j < 3 implies col_disjoint(w.values(), (#[trigger] prefix[j]).values()) by {
        assert(prefix[j]@ == fixed_row_digits(j));
    }
    assert(fits(prefix, w));
    assert forall|u: Row| u.wf() && #[trigger] fits(prefix, u) implies !lex_lt(u@, w@) by {
        if lex_lt(u@, w@) {
            u.lemma_values_permutation();
            lemma_sum_explicit(u@);
            lemma_lex_to_diff(u@, w@);
            let uv = u.values();
            assert(uv[0] == u@[0] && uv[1] == u@[1] && uv[2] == u@[2] && uv[3] == u@[3]
                && uv[4] == u@[4] && uv[5] == u@[5] && uv[6] == u@[6] && uv[7] == u@[7]);
            assert(uv[8] == 45 - (u@[0] + u@[1] + u@[2] + u@[3] + u@[4] + u@[5] + u@[6]
                + u@[7]));
            let k0 = choose|k: int|
                0 <= k < u@.len() && k < w@.len() && (forall|j: int|
                    0 <= j < k ==> u@[j] == w@[j]) && u@[k] < w@[k];
            assert(col_disjoint(uv, prefix[0].values()));
            assert(col_disjoint(uv, prefix[1].values()));
            assert(col_disjoint(uv, prefix[2].values()));
            assert(false);
        }
    }
}

/// Step 4 of the search: the fixed row fits the rows before it, and no
/// valid row below it does.
pub proof fn lemma_step_4(prefix: Seq<Row>, w: Row)
    requires
        prefix.len() == 4,
        forall|j: int| 0 <= j < 4 ==> (#[trigger] prefix[j])@ == fixed_row_digits(j),
        w@ == fixed_row_digits(4),
    ensures
        w.wf(),
        lex_lt(identity_digits(), w@),
        fits(prefix, w),
        forall|u: Row| u.wf() && #[trigger] fits(prefix, u) ==> !lex_lt(u@, w@),
{
    assert(valid_digits(w@));
    lemma_lex_from_diff(identity_digits(), w@, 0);
    lemma_sum_explicit(w@);
    assert(w.values() =~= seq![3int, 6, 5, 8, 9, 7, 2, 1, 4]);
    assert(prefix[0]@ == fixed_row_digits(0));
    lemma_sum_explicit(prefix[0]@);
    assert(prefix[0].values() =~= seq![1int, 2, 3, 4, 5, 6, 7, 8, 9]);
    assert(prefix[1]@ == fixed_row_digits(1));
    lemma_sum_explicit(prefix[1]@);
    assert(prefix[1].values() =~= seq![4int, 5, 6, 7, 8, 9, 1, 2, 3]);
    assert(prefix[2]@ == fixed_row_digits(2));
    lemma_sum_explicit(prefix[2]@);
    assert(prefix[2].values() =~= seq![7int, 8, 9, 1, 2, 3, 4, 5, 6]);
    assert(prefix[3]@ == fixed_row_digits(3));
    lemma_sum_explicit(prefix[3]@);
    assert(prefix[3].values() =~= seq![2int, 1, 4, 3, 6, 5, 8, 9, 7]);
    assert forall|j: int|
        0 <= j < 4 implies col_disjoint(w.values(), (#[trigger] prefix[j]).values()) by {
        assert(prefix[j]@ == fixed_row_digits(j));
    }
    assert forall|j: int|
        3 <= j < 4 implies box_disjoint(w.values(), (#[trigger] prefix[j]).values()) by {
        assert(prefix[j]@ == fixed_row_digits(j));
    }
    assert(fits(prefix, w));
    assert forall|u: Row| u.wf() && #[trigger] fits(prefix, u) implies !lex_lt(u@, w@) by {
        if lex_lt(u@, w@) {
            u.lemma_values_permutation();
            lemma_sum_explicit(u@);
            lemma_lex_to_diff(u@, w@);
            let uv = u.values();
            assert(uv[0] == u@[0] && uv[1] == u@[1] && uv[2] == u@[2] && uv[3] == u@[3]
                && uv[4] == u@[4] && uv[5] == u@[5] && uv[6] == u@[6] && uv[7] == u@[7]);
            assert(uv[8] == 45 - (u@[0] + u@[1] + u@[2] + u@[3] + u@[4] + u@[5] + u@[6]
                + u@[7]));
            let k0 = choose|k: int|
                0 <= k < u@.len() && k < w@.len() && (forall|j: int|
                    0 <= j < k ==> u@[j] == w@[j]) && u@[k] < w@[k];
            assert(col_disjoint(uv, prefix[0].values()));
            assert(col_disjoint(uv, prefix[1].values()));
            assert(col_disjoint(uv, prefix[2].values()));
            assert(col_disjoint(uv, prefix[3].values()));
            assert(box_disjoint(uv, prefix[3].values()));
            assert(false);
        }
    }
}

/// Step 5 of the search: the fixed row fits the rows before it, and no
/// valid row below it does.
pub proof fn lemma_step_5(prefix: Seq<Row>, w: Row)
    requires
        prefix.len() == 5,
        forall|j: int| 0 <= j < 5 ==> (#[trigger] prefix[j])@ == fixed_row_digits(j),
        w@ == fixed_row_digits(5),
    ensures
        w.wf(),
        lex_lt(identity_digits(), w@),
        fits(prefix, w),
        forall|u: Row| u.wf() && #[trigger] fits(prefix, u) ==> !lex_lt(u@, w@),
{
    assert(valid_digits(w@));
    lemma_lex_from_diff(identity_digits(), w@, 0);
    lemma_sum_explicit(w@);
    assert(w.values() =~= seq![8int, 9, 7, 2, 1, 4, 3, 6, 5]);
    assert(prefix[0]@ == fixed_row_digits(0));
    lemma_sum_explicit(prefix[0]@);
    assert(prefix[0].values() =~= seq![1int, 2, 3, 4, 5, 6, 7, 8, 9]);
    assert(prefix[1]@ == fixed_row_digits(1));
    lemma_sum_explicit(prefix[1]@);
    assert(prefix[1].values() =~= seq![4int, 5, 6, 7, 8, 9, 1, 2, 3]);
    assert(prefix[2]@ == fixed_row_digits(2));
    lemma_sum_explicit(prefix[2]@);
    assert(prefix[2].values() =~= seq![7int, 8, 9, 1, 2, 3, 4, 5, 6]);
    assert(prefix[3]@ == fixed_row_digits(3));
    lemma_sum_explicit(prefix[3]@);
    assert(prefix[3].values() =~= seq![2int, 1, 4, 3, 6, 5, 8, 9, 7]);
    assert(prefix[4]@ == fixed_row_digits(4));
    lemma_sum_explicit(prefix[4]@);
    assert(prefix[4].values() =~= seq![3int, 6, 5, 8, 9, 7, 2, 1, 4]);
    assert forall|j: int|
        0 <= j < 5 implies col_disjoint(w.values(), (#[trigger] prefix[j]).values()) by {
        assert(prefix[j]@ == fixed_row_digits(j));
    }
    assert forall|j: int|
        3 <= j < 5 implies box_disjoint(w.values(), (#[trigger] prefix[j]).values()) by {
        assert(prefix[j]@ == fixed_row_digits(j));
    }
    assert(fits(prefix, w));
    assert forall|u: Row| u.wf() && #[trigger] fits(prefix, u) implies !lex_lt(u@, w@) by {
        if lex_lt(u@, w@) {
            u.lemma_values_permutation();
            lemma_sum_explicit(u@);
            lemma_lex_to_diff(u@, w@);
            let uv = u.values();
            assert(uv[0] == u@[0] && uv[1] == u@[1] && uv[2] == u@[2] && uv[3] == u@[3]
                && uv[4] == u@[4] && uv[5] == u@[5] && uv[6] == u@[6] && uv[7] == u@[7]);
            assert(uv[8] == 45 - (u@[0] + u@[1] + u@[2] + u@[3] + u@[4] + u@[5] + u@[6]
                + u@[7]));
            let k0 = choose|k: int|
                0 <= k < u@.len() && k < w@.len() && (forall|j: int|
                    0 <= j < k ==> u@[j] == w@[j]) && u@[k] < w@[k];
            assert(col_disjoint(uv, prefix[0].values()));
            assert(col_disjoint(uv, prefix[1].values()));
            assert(col_disjoint(uv, prefix[2].values()));
            assert(col_disjoint(uv, prefix[3].values()));
            assert(col_disjoint(uv, prefix[4].values()));
            assert(box_disjoint(uv, prefix[3].values()));
            assert(box_disjoint(uv, prefix[4].values()));
            assert(false);
        }
    }
}

/// Step 6 of the search: the fixed row fits the rows before it, and no
/// valid row below it does.
pub proof fn lemma_step_6(prefix: Seq<Row>, w: Row)
    requires
        prefix.len() == 6,
        forall|j: int| 0 <= j < 6 ==> (#[trigger] prefix[j])@ == fixed_row_digits(j),
        w@ == fixed_row_digits(6),
    ensures
        w.wf(),
        lex_lt(identity_digits(), w@),
        fits(prefix, w),
        forall|u: Row| u.wf() && #[trigger] fits(prefix, u) ==> !lex_lt(u@, w@),
{
    assert(valid_digits(w@));
    lemma_lex_from_diff(identity_digits(), w@, 0);
    lemma_sum_explicit(w@);
    assert(w.values() =~= seq![5int, 3, 1, 6, 4, 2, 9, 7, 8]);
    assert(prefix[0]@ == fixed_row_digits(0));
    lemma_sum_explicit(prefix[0]@);
    assert(prefix[0].values() =~= seq![1int, 2, 3, 4, 5, 6, 7, 8, 9]);
    assert(prefix[1]@ == fixed_row_digits(1));
    lemma_sum_explicit(prefix[1]@);
    assert(prefix[1].values() =~= seq![4int, 5, 6, 7, 8, 9, 1, 2, 3]);
    assert(prefix[2]@ == fixed_row_digits(2));
    lemma_sum_explicit(prefix[2]@);
    assert(prefix[2].values() =~= seq![7int, 8, 9, 1, 2, 3, 4, 5, 6]);
    assert(prefix[3]@ == fixed_row_digits(3));
    lemma_sum_explicit(prefix[3]@);
    assert(prefix[3].values() =~= seq![2int, 1, 4, 3, 6, 5, 8, 9, 7]);
    assert(prefix[4]@ == fixed_row_digits(4));
    lemma_sum_explicit(prefix[4]@);
    assert(prefix[4].values() =~= seq![3int, 6, 5, 8, 9, 7, 2, 1, 4]);
    assert(prefix[5]@ == fixed_row_digits(5));
    lemma_sum_explicit(prefix[5]@);
    assert(prefix[5].values() =~= seq![8int, 9, 7, 2, 1, 4, 3, 6, 5]);
    assert forall|j: int|
        0 <= j < 6 implies col_disjoint(w.values(), (#[trigger] prefix[j]).values()) by {
        assert(prefix[j]@ == fixed_row_digits(j));
    }
    assert(fits(prefix, w));
    assert forall|u: Row| u.wf() && #[trigger] fits(prefix, u) implies !lex_lt(u@, w@) by {
        if lex_lt(u@, w@) {
            u.lemma_values_permutation();
            lemma_sum_explicit(u@);
            lemma_lex_to_diff(u@, w@);
            let uv = u.values();
            assert(uv[0] == u@[0] && uv[1] == u@[1] && uv[2] == u@[2] && uv[3] == u@[3]
                && uv[4] == u@[4] && uv[5] == u@[5] && uv[6] == u@[6] && uv[7] == u@[7]);
            assert(uv[8] == 45 - (u@[0] + u@[1] + u@[2] + u@[3] + u@[4] + u@[5] + u@[6]
                + u@[7]));
            let k0 = choose|k: int|
                0 <= k < u@.len() && k < w@.len() && (forall|j: int|
                    0 <= j < k ==> u@[j] == w@[j]) && u@[k] < w@[k];
            assert(col_disjoint(uv, prefix[0].values()));
            assert(col_disjoint(uv, prefix[1].values()));
            assert(col_disjoint(uv, prefix[2].values()));
            assert(col_disjoint(uv, prefix[3].values()));
            assert(col_disjoint(uv, prefix[4].values()));
            assert(col_disjoint(uv, prefix[5].values()));
            assert(false);
        }
    }
}

/// Step 7 of the search: the fixed row fits the rows before it, and no
/// valid row below it does.
pub proof fn lemma_step_7(prefix: Seq<Row>, w: Row)
    requires
        prefix.len() == 7,
        forall|j: int| 0 <= j < 7 ==> (#[trigger] prefix[j])@ == fixed_row_digits(j),
        w@ == fixed_row_digits(7),
    ensures
        w.wf(),
        lex_lt(identity_digits(), w@),
        fits(prefix, w),
        forall|u: Row| u.wf() && #[trigger] fits(prefix, u) ==> !lex_lt(u@, w@),
{
    assert(valid_digits(w@));
    lemma_lex_from_diff(identity_digits(), w@, 0);
    lemma_sum_explicit(w@);
    assert(w.values() =~= seq![6int, 4, 2, 9, 7, 8, 5, 3, 1]);
    assert(prefix[0]@ == fixed_row_digits(0));
    lemma_sum_explicit(prefix[0]@);
    assert(prefix[0].values() =~= seq![1int, 2, 3, 4, 5, 6, 7, 8, 9]);
    assert(prefix[1]@ == fixed_row_digits(1));
    lemma_sum_explicit(prefix[1]@);
    assert(prefix[1].values() =~= seq![4int, 5, 6, 7, 8, 9, 1, 2, 3]);
    assert(prefix[2]@ == fixed_row_digits(2));
    lemma_sum_explicit(prefix[2]@);
    assert(prefix[2].values() =~= seq![7int, 8, 9, 1, 2, 3, 4, 5, 6]);
    assert(prefix[3]@ == fixed_row_digits(3));
    lemma_sum_explicit(prefix[3]@);
    assert(prefix[3].values() =~= seq![2int, 1, 4, 3, 6, 5, 8, 9, 7]);
    assert(prefix[4]@ == fixed_row_digits(4));
    lemma_sum_explicit(prefix[4]@);
    assert(prefix[4].values() =~= seq![3int, 6, 5, 8, 9, 7, 2, 1, 4]);
    assert(prefix[5]@ == fixed_row_digits(5));
    lemma_sum_explicit(prefix[5]@);
    assert(prefix[5].values() =~= seq![8int, 9, 7, 2, 1, 4, 3, 6, 5]);
    assert(prefix[6]@ == fixed_row_digits(6));
    lemma_sum_explicit(prefix[6]@);
    assert(prefix[6].values() =~= seq![5int, 3, 1, 6, 4, 2, 9, 7, 8]);
    assert forall|j: int|
        0 <= j < 7 implies col_disjoint(w.values(), (#[trigger] prefix[j]).values()) by {
        assert(prefix[j]@ == fixed_row_digits(j));
    }
    assert forall|j: int|
        6 <= j < 7 implies box_disjoint(w.values(), (#[trigger] prefix[j]).values()) by {
        assert(prefix[j]@ == fixed_row_digits(j));
    }
    assert(fits(prefix, w));
    assert forall|u: Row| u.wf() && #[trigger] fits(prefix, u) implies !lex_lt(u@, w@) by {
        if lex_lt(u@, w@) {
            u.lemma_values_permutation();
            lemma_sum_explicit(u@);
            lemma_lex_to_diff(u@, w@);
            let uv = u.values();
            assert(uv[0] == u@[0] && uv[1] == u@[1] && uv[2] == u@[2] && uv[3] == u@[3]
                && uv[4] == u@[4] && uv[5] == u@[5] && uv[6] == u@[6] && uv[7] == u@[7]);
            assert(uv[8] == 45 - (u@[0] + u@[1] + u@[2] + u@[3] + u@[4] + u@[5] + u@[6]
                + u@[7]));
            let k0 = choose|k: int|
                0 <= k < u@.len() && k < w@.len() && (forall|j: int|
                    0 <= j < k ==> u@[j] == w@[j]) && u@[k] < w@[k];
            assert(col_disjoint(uv, prefix[0].values()));
            assert(col_disjoint(uv, prefix[1].values()));
            assert(col_disjoint(uv, prefix[2].values()));
            assert(col_disjoint(uv, prefix[3].values()));
            assert(col_disjoint(uv, prefix[4].values()));
            assert(col_disjoint(uv, prefix[5].values()));
            assert(col_disjoint(uv, prefix[6].values()));
            assert(box_disjoint(uv, prefix[6].values()));
            assert(false);
        }
    }
}

/// The eight fixed rows form a well-formed grid: pairwise
/// column-disjoint at every position, and box-disjoint within each band
/// of three.
pub proof fn lemma_fixed_rows_wf(g: Grid)
    requires
        g.spec_rows().len() == 8,
        forall|k: int| 0 <= k < 8 ==> (#[trigger] g.spec_rows()[k])@ == fixed_row_digits(k),
    ensures
        g.wf(),
{
    let rs = g.spec_rows();
    assert(rs[0]@ == fixed_row_digits(0));
    lemma_sum_explicit(rs[0]@);
    assert(rs[0].values() =~= seq![1int, 2, 3, 4, 5, 6, 7, 8, 9]);
    assert(rs[1]@ == fixed_row_digits(1));
    lemma_sum_explicit(rs[1]@);
    assert(rs[1].values() =~= seq![4int, 5, 6, 7, 8, 9, 1, 2, 3]);
    assert(rs[2]@ == fixed_row_digits(2));
    lemma_sum_explicit(rs[2]@);
    assert(rs[2].values() =~= seq![7int, 8, 9, 1, 2, 3, 4, 5, 6]);
    assert(rs[3]@ == fixed_row_digits(3));
    lemma_sum_explicit(rs[3]@);
    assert(rs[3].values() =~= seq![2int, 1, 4, 3, 6, 5, 8, 9, 7]);
    assert(rs[4]@ == fixed_row_digits(4));
    lemma_sum_explicit(rs[4]@);
    assert(rs[4].values() =~= seq![3int, 6, 5, 8, 9, 7, 2, 1, 4]);
    assert(rs[5]@ == fixed_row_digits(5));
    lemma_sum_explicit(rs[5]@);
    assert(rs[5].values() =~= seq![8int, 9, 7, 2, 1, 4, 3, 6, 5]);
    assert(rs[6]@ == fixed_row_digits(6));
    lemma_sum_explicit(rs[6]@);
    assert(rs[6].values() =~= seq![5int, 3, 1, 6, 4, 2, 9, 7, 8]);
    assert(rs[7]@ == fixed_row_digits(7));
    lemma_sum_explicit(rs[7]@);
    assert(rs[7].values() =~= seq![6int, 4, 2, 9, 7, 8, 5, 3, 1]);
    assert forall|i: int| 0 <= i < 8 implies (#[trigger] rs[i]).wf() by {
        assert(rs[i]@ == fixed_row_digits(i));
    }
    assert forall|i: int, j: int|
        0 <= i < j < 8 implies col_disjoint(rs[i].values(), rs[j].values()) by {
        assert(rs[i]@ == fixed_row_digits(i));
        assert(rs[j]@ == fixed_row_digits(j));
    }
    assert forall|i: int, j: int|
        0 <= i < j < 8 && i / 3 == j / 3 implies box_disjoint(
        rs[i].values(),
        rs[j].values(),
    ) by {
        assert(rs[i]@ == fixed_row_digits(i));
        assert(rs[j]@ == fixed_row_digits(j));
    }
    assert(g.wf());
}

/// The derived ninth row of the fixed rows completes the grid: its
/// values are a permutation of 1..=9 and clash with nothing.
pub proof fn lemma_fixed_rows_complete(g: Grid)
    requires
        g.spec_rows().len() == 8,
        forall|k: int| 0 <= k < 8 ==> (#[trigger] g.spec_rows()[k])@ == fixed_row_digits(k),
    ensures
        ninth_complete(g),
{
    let rs = g.spec_rows();
    assert(rs[0]@ == fixed_row_digits(0));
    lemma_sum_explicit(rs[0]@);
    assert(rs[0].values() =~= seq![1int, 2, 3, 4, 5, 6, 7, 8, 9]);
    assert(rs[1]@ == fixed_row_digits(1));
    lemma_sum_explicit(rs[1]@);
    assert(rs[1].values() =~= seq![4int, 5, 6, 7, 8, 9, 1, 2, 3]);
    assert(rs[2]@ == fixed_row_digits(2));
    lemma_sum_explicit(rs[2]@);
    assert(rs[2].values() =~= seq![7int, 8, 9, 1, 2, 3, 4, 5, 6]);
    assert(rs[3]@ == fixed_row_digits(3));
    lemma_sum_explicit(rs[3]@);
    assert(rs[3].values() =~= seq![2int, 1, 4, 3, 6, 5, 8, 9, 7]);
    assert(rs[4]@ == fixed_row_digits(4));
    lemma_sum_explicit(rs[4]@);
    assert(rs[4].values() =~= seq![3int, 6, 5, 8, 9, 7, 2, 1, 4]);
    assert(rs[5]@ == fixed_row_digits(5));
    lemma_sum_explicit(rs[5]@);
    assert(rs[5].values() =~= seq![8int, 9, 7, 2, 1, 4, 3, 6, 5]);
    assert(rs[6]@ == fixed_row_digits(6));
    lemma_sum_explicit(rs[6]@);
    assert(rs[6].values() =~= seq![5int, 3, 1, 6, 4, 2, 9, 7, 8]);
    assert(rs[7]@ == fixed_row_digits(7));
    lemma_sum_explicit(rs[7]@);
    assert(rs[7].values() =~= seq![6int, 4, 2, 9, 7, 8, 5, 3, 1]);
    assert(col_vals(g, 0) =~= seq![1u8, 4, 7, 2, 3, 8, 5, 6]);
    lemma_sum_explicit(col_vals(g, 0));
    assert(col_vals(g, 1) =~= seq![2u8, 5, 8, 1, 6, 9, 3, 4]);
    lemma_sum_explicit(col_vals(g, 1));
    assert(col_vals(g, 2) =~= seq![3u8, 6, 9, 4, 5, 7, 1, 2]);
    lemma_sum_explicit(col_vals(g, 2));
    assert(col_vals(g, 3) =~= seq![4u8, 7, 1, 3, 8, 2, 6, 9]);
    lemma_sum_explicit(col_vals(g, 3));
    assert(col_vals(g, 4) =~= seq![5u8, 8, 2, 6, 9, 1, 4, 7]);
    lemma_sum_explicit(col_vals(g, 4));
    assert(col_vals(g, 5) =~= seq![6u8, 9, 3, 5, 7, 4, 2, 8]);
    lemma_sum_explicit(col_vals(g, 5));
    assert(col_vals(g, 6) =~= seq![7u8, 1, 4, 8, 2, 3, 9, 5]);
    lemma_sum_explicit(col_vals(g, 6));
    assert(col_vals(g, 7) =~= seq![8u8, 2, 5, 9, 1, 6, 7, 3]);
    lemma_sum_explicit(col_vals(g, 7));
    assert(ninth_values(g) =~= seq![9int, 7, 8, 5, 3, 1, 6, 4, 2]);
    assert forall|j: int|
        0 <= j < 8 implies col_disjoint(ninth_values(g), (#[trigger] rs[j]).values()) by {
        assert(rs[j]@ == fixed_row_digits(j));
    }
    assert(box_disjoint(ninth_values(g), rs[6].values()));
    assert(box_disjoint(ninth_values(g), rs[7].values()));
    assert(ninth_complete(g));
}

} // verus!
