//! Spec-level counting of cells that satisfy a predicate, with the lemmas
//! that relate a count before and after a single-cell update.
use vstd::prelude::*;
use crate::Cell;
use crate::CellStatus;
use crate::CellValue;

verus! {

/// The cell predicates that the game invariants count.
#[derive(Clone, Copy, PartialEq, Eq, Structural)]
pub enum CellTest {
    /// The cell holds a mine.
    Mined,
    /// The cell is flagged.
    Flagged,
    /// The cell is still covered.
    Covered,
    /// The cell is revealed and is not a mine; these are the cells that
    /// `revealed_count` counts (a revealed mine is excluded by design).
    RevealedSafe,
    /// The cell is not a mine, whatever its status.
    Safe,
}

/// Whether cell `c` satisfies the predicate `t`.
pub open spec fn test_cell(t: CellTest, c: Cell) -> bool {
    match t {
        CellTest::Mined => c.value == CellValue::Mined,
        CellTest::Flagged => c.status == CellStatus::Flagged,
        CellTest::Covered => c.status == CellStatus::Covered,
        CellTest::RevealedSafe => c.status == CellStatus::Revealed && c.value
            != CellValue::Mined,
        CellTest::Safe => c.value != CellValue::Mined,
    }
}

/// How many cells of `s` satisfy `t`.
pub open spec fn count_matching(s: Seq<Cell>, t: CellTest) -> nat
    decreases s.len(),
{
    if s.len() == 0 {
        0
    } else {
        count_matching(s.drop_last(), t) + (if test_cell(t, s.last()) {
            1nat
        } else {
            0nat
        })
    }
}

pub proof fn lemma_count_le_len(s: Seq<Cell>, t: CellTest)
    ensures
        count_matching(s, t) <= s.len(),
    decreases s.len(),
{
    if s.len() > 0 {
        lemma_count_le_len(s.drop_last(), t);
    }
}

/// Updating one cell changes a count by the difference at that cell.
pub proof fn lemma_count_update(s: Seq<Cell>, t: CellTest, i: int, c: Cell)
    requires
        0 <= i < s.len(),
    ensures
        count_matching(s.update(i, c), t) == count_matching(s, t) - (if test_cell(t, s[i]) {
            1int
        } else {
            0int
        }) + (if test_cell(t, c) {
            1int
        } else {
            0int
        }),
    decreases s.len(),
{
    let u = s.update(i, c);
    if i == s.len() - 1 {
        assert(u.drop_last() =~= s.drop_last());
    } else {
        assert(u.drop_last() =~= s.drop_last().update(i, c));
        lemma_count_update(s.drop_last(), t, i, c);
    }
}

/// A cell that satisfies the predicate makes the count positive.
pub proof fn lemma_count_at_least_one(s: Seq<Cell>, t: CellTest, i: int)
    requires
        0 <= i < s.len(),
        test_cell(t, s[i]),
    ensures
        count_matching(s, t) >= 1,
    decreases s.len(),
{
    if i < s.len() - 1 {
        lemma_count_at_least_one(s.drop_last(), t, i);
    }
}

/// A count is zero when no cell satisfies the predicate.
pub proof fn lemma_count_none(s: Seq<Cell>, t: CellTest)
    requires
        forall|i: int| 0 <= i < s.len() ==> !test_cell(t, #[trigger] s[i]),
    ensures
        count_matching(s, t) == 0,
    decreases s.len(),
{
    if s.len() > 0 {
        lemma_count_none(s.drop_last(), t);
    }
}

/// Two sequences on which the predicate agrees pointwise have equal counts.
pub proof fn lemma_count_pointwise(s: Seq<Cell>, u: Seq<Cell>, t: CellTest)
    requires
        s.len() == u.len(),
        forall|i: int|
            0 <= i < s.len() ==> test_cell(t, #[trigger] s[i]) == test_cell(t, #[trigger] u[i]),
    ensures
        count_matching(s, t) == count_matching(u, t),
    decreases s.len(),
{
    if s.len() > 0 {
        lemma_count_pointwise(s.drop_last(), u.drop_last(), t);
    }
}

/// How many positions hold a cell that is not revealed-safe in `a` but is
/// revealed-safe in `b`: the cells a reveal call newly uncovered.
pub open spec fn count_newly_revealed(a: Seq<Cell>, b: Seq<Cell>) -> nat
    decreases a.len(),
{
    if a.len() == 0 || b.len() == 0 {
        0
    } else {
        count_newly_revealed(a.drop_last(), b.drop_last()) + (if !test_cell(
            CellTest::RevealedSafe,
            a.last(),
        ) && test_cell(CellTest::RevealedSafe, b.last()) {
            1nat
        } else {
            0nat
        })
    }
}

/// When no cell loses its revealed-safe standing, the revealed-safe count
/// grows by exactly the number of newly revealed-safe cells.
pub proof fn lemma_count_revealed_delta(a: Seq<Cell>, b: Seq<Cell>)
    requires
        a.len() == b.len(),
        forall|i: int|
            0 <= i < a.len() ==> (test_cell(CellTest::RevealedSafe, #[trigger] a[i]) ==> test_cell(
                CellTest::RevealedSafe,
                #[trigger] b[i],
            )),
    ensures
        count_matching(b, CellTest::RevealedSafe) == count_matching(a, CellTest::RevealedSafe)
            + count_newly_revealed(a, b),
    decreases a.len(),
{
    if a.len() > 0 {
        assert(a[a.len() - 1] == a.last());
        lemma_count_revealed_delta(a.drop_last(), b.drop_last());
    }
}

/// A cell is never both revealed-safe and mined, so those counts share the
/// length bound.
pub proof fn lemma_count_pair_le(s: Seq<Cell>)
    ensures
        count_matching(s, CellTest::RevealedSafe) + count_matching(s, CellTest::Mined) <= s.len(),
    decreases s.len(),
{
    if s.len() > 0 {
        lemma_count_pair_le(s.drop_last());
    }
}

/// When the revealed-safe cells and the mines together fill the grid,
/// every non-mine cell is revealed: the winning position.
pub proof fn lemma_all_safe_revealed(s: Seq<Cell>)
    requires
        count_matching(s, CellTest::RevealedSafe) + count_matching(s, CellTest::Mined) == s.len(),
    ensures
        forall|i: int|
            0 <= i < s.len() && (#[trigger] s[i]).value != CellValue::Mined ==> s[i].status
                == CellStatus::Revealed,
    decreases s.len(),
{
    if s.len() > 0 {
        let dl = s.drop_last();
        let last = s.last();
        lemma_count_pair_le(dl);
        assert(!(test_cell(CellTest::RevealedSafe, last) && test_cell(CellTest::Mined, last)));
        assert(count_matching(dl, CellTest::RevealedSafe) + count_matching(dl, CellTest::Mined)
            == dl.len());
        lemma_all_safe_revealed(dl);
        assert forall|i: int|
            0 <= i < s.len() && (#[trigger] s[i]).value != CellValue::Mined implies s[i].status
            == CellStatus::Revealed by {
            if i < s.len() - 1 {
                assert(s[i] == dl[i]);
            } else {
                assert(s[i] == last);
                assert(test_cell(CellTest::RevealedSafe, last));
            }
        }
    }
}

} // verus!
