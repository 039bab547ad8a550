use vstd::prelude::*;

verus! {

/// The number of claimed flags set in one row.
pub open spec fn count_true(s: Seq<bool>) -> nat
    decreases s.len(),
{
    if s.len() == 0 {
        0
    } else {
        count_true(s.drop_last()) + if s.last() {
            1nat
        } else {
            0nat
        }
    }
}

/// The number of claimed flags set in the first upto rows.
pub open spec fn count_rows(rows: Seq<Vec<bool>>, upto: int) -> nat
    decreases upto,
{
    if upto <= 0 {
        0
    } else {
        count_rows(rows, upto - 1) + count_true(rows[upto - 1]@)
    }
}

/// The number of slots in the first upto rows.
pub open spec fn total_slots(rows: Seq<Vec<bool>>, upto: int) -> nat
    decreases upto,
{
    if upto <= 0 {
        0
    } else {
        total_slots(rows, upto - 1) + rows[upto - 1]@.len()
    }
}

/// A row never holds more set flags than slots.
pub proof fn lemma_count_true_le(s: Seq<bool>)
    ensures
        count_true(s) <= s.len(),
    decreases s.len(),
{
    if s.len() > 0 {
        lemma_count_true_le(s.drop_last());
    }
}

/// Setting one flag adds one to the count when it was clear and
/// nothing when it was already set.
pub proof fn lemma_count_true_update(s: Seq<bool>, i: int)
    requires
        0 <= i < s.len(),
    ensures
        count_true(s.update(i, true)) == count_true(s) + if s[i] {
            0nat
        } else {
            1nat
        },
    decreases s.len(),
{
    let t = s.update(i, true);
    if i == s.len() - 1 {
        assert(t.drop_last() =~= s.drop_last());
    } else {
        assert(t.drop_last() =~= s.drop_last().update(i, true));
        lemma_count_true_update(s.drop_last(), i);
    }
}

/// Pointwise implication between rows never lowers the count.
pub proof fn lemma_count_true_sub(a: Seq<bool>, b: Seq<bool>)
    requires
        a.len() == b.len(),
        forall|i: int| 0 <= i < a.len() && a[i] ==> b[i],
    ensures
        count_true(a) <= count_true(b),
    decreases a.len(),
{
    if a.len() > 0 {
        lemma_count_true_sub(a.drop_last(), b.drop_last());
        assert(a.last() ==> b.last());
    }
}

/// Row counts depend only on the rows below the bound.
pub proof fn lemma_count_rows_congruence(a: Seq<Vec<bool>>, b: Seq<Vec<bool>>, upto: int)
    requires
        upto <= a.len(),
        upto <= b.len(),
        forall|j: int| 0 <= j < upto ==> a[j]@ == b[j]@,
    ensures
        count_rows(a, upto) == count_rows(b, upto),
    decreases upto,
{
    if upto > 0 {
        lemma_count_rows_congruence(a, b, upto - 1);
    }
}

/// Slot totals depend only on the row lengths below the bound.
pub proof fn lemma_total_slots_congruence(a: Seq<Vec<bool>>, b: Seq<Vec<bool>>, upto: int)
    requires
        upto <= a.len(),
        upto <= b.len(),
        forall|j: int| 0 <= j < upto ==> a[j]@.len() == b[j]@.len(),
    ensures
        total_slots(a, upto) == total_slots(b, upto),
    decreases upto,
{
    if upto > 0 {
        lemma_total_slots_congruence(a, b, upto - 1);
    }
}

/// Replacing one row adjusts the count by the difference of the rows.
pub proof fn lemma_count_rows_update(rows: Seq<Vec<bool>>, upto: int, r: int, row: Vec<bool>)
    requires
        0 <= r < upto,
        upto <= rows.len(),
    ensures
        count_rows(rows.update(r, row), upto) + count_true(rows[r]@) == count_rows(rows, upto)
            + count_true(row@),
    decreases upto,
{
    let u = rows.update(r, row);
    if r == upto - 1 {
        assert forall|j: int| 0 <= j < upto - 1 implies u[j]@ == rows[j]@ by {}
        lemma_count_rows_congruence(u, rows, upto - 1);
    } else {
        lemma_count_rows_update(rows, upto - 1, r, row);
        assert(u[upto - 1]@ == rows[upto - 1]@);
    }
}

/// The count of set flags never exceeds the slot total.
pub proof fn lemma_count_rows_le(rows: Seq<Vec<bool>>, upto: int)
    requires
        upto <= rows.len(),
    ensures
        count_rows(rows, upto) <= total_slots(rows, upto),
    decreases upto,
{
    if upto > 0 {
        lemma_count_rows_le(rows, upto - 1);
        lemma_count_true_le(rows[upto - 1]@);
    }
}

/// Pointwise implication between flag tables never lowers the count.
pub proof fn lemma_count_rows_sub(a: Seq<Vec<bool>>, b: Seq<Vec<bool>>, upto: int)
    requires
        upto <= a.len(),
        upto <= b.len(),
        forall|j: int| 0 <= j < upto ==> a[j]@.len() == b[j]@.len(),
        forall|j: int, i: int| 0 <= j < upto && 0 <= i < a[j]@.len() && a[j]@[i] ==> b[j]@[i],
    ensures
        count_rows(a, upto) <= count_rows(b, upto),
    decreases upto,
{
    if upto > 0 {
        lemma_count_rows_sub(a, b, upto - 1);
        lemma_count_true_sub(a[upto - 1]@, b[upto - 1]@);
    }
}

} // verus!
