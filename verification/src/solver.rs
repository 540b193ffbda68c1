use vstd::prelude::*;

use crate::grid::{
    col_of, column_safe, digits_ok, extends, lemma_position_arith, no_group_duplicates, region_of,
    region_safe, row_of, row_safe, safe_at, same_group, solved, App, Cell,
};

verus! {

/// A solution count capped at two: the solver never distinguishes
/// "two completions" from "more than two".
pub open spec fn capped(n: int) -> int {
    if n >= 2 {
        2
    } else {
        n
    }
}

/// Number of ways to fill the empty cells at positions `index..81`, in
/// index order, so that every placement is safe against the cells filled
/// before it.  For a conflict-free grid this is the number of solved
/// completions of the grid restricted to those positions.
pub open spec fn count_from(g: Seq<Option<u8>>, index: int) -> nat
    decreases 81 - index, 10int,
{
    if index >= 81 {
        1
    } else if g[index] is Some {
        count_from(g, index + 1)
    } else {
        digit_sum(g, index, 1)
    }
}

/// Sum, over the digits `d..=9`, of the completion counts that arise from
/// safely placing each digit at the empty position `index`.
pub open spec fn digit_sum(g: Seq<Option<u8>>, index: int, d: int) -> nat
    decreases 81 - index, 10 - d,
{
    if index < 0 || index >= 81 || d < 1 || d > 9 {
        0
    } else {
        (if safe_at(g, index, d as u8) {
            count_from(g.update(index, Some(d as u8)), index + 1)
        } else {
            0
        }) + digit_sum(g, index, d + 1)
    }
}

/// Whether a placement is safe depends only on the other 80 cells, never
/// on the content of the position itself.
pub proof fn lemma_safe_same(g1: Seq<Option<u8>>, g2: Seq<Option<u8>>, pos: int, d: u8)
    requires
        forall|j: int| 0 <= j < 81 && j != pos ==> #[trigger] g1[j] == #[trigger] g2[j],
    ensures
        safe_at(g1, pos, d) == safe_at(g2, pos, d),
{
    if row_safe(g1, pos, d) {
        assert forall|j: int|
            0 <= j < 81 && j != pos && row_of(j) == row_of(pos) implies (#[trigger] g2[j])
            != Some(d) by {
            assert(g1[j] != Some(d));
        };
    }
    if row_safe(g2, pos, d) {
        assert forall|j: int|
            0 <= j < 81 && j != pos && row_of(j) == row_of(pos) implies (#[trigger] g1[j])
            != Some(d) by {
            assert(g2[j] != Some(d));
        };
    }
    if column_safe(g1, pos, d) {
        assert forall|j: int|
            0 <= j < 81 && j != pos && col_of(j) == col_of(pos) implies (#[trigger] g2[j])
            != Some(d) by {
            assert(g1[j] != Some(d));
        };
    }
    if column_safe(g2, pos, d) {
        assert forall|j: int|
            0 <= j < 81 && j != pos && col_of(j) == col_of(pos) implies (#[trigger] g1[j])
            != Some(d) by {
            assert(g2[j] != Some(d));
        };
    }
    if region_safe(g1, pos, d) {
        assert forall|j: int|
            0 <= j < 81 && j != pos && region_of(j) == region_of(pos) implies (#[trigger] g2[j])
            != Some(d) by {
            assert(g1[j] != Some(d));
        };
    }
    if region_safe(g2, pos, d) {
        assert forall|j: int|
            0 <= j < 81 && j != pos && region_of(j) == region_of(pos) implies (#[trigger] g1[j])
            != Some(d) by {
            assert(g2[j] != Some(d));
        };
    }
}

/// A grid whose cells from `index` on are all filled admits exactly one
/// completion from `index` on: itself.
pub proof fn lemma_count_filled(g: Seq<Option<u8>>, index: int)
    requires
        0 <= index,
        forall|i: int| index <= i < 81 ==> (#[trigger] g[i]) is Some,
    ensures
        count_from(g, index) == 1,
    decreases 81 - index,
{
    if index < 81 {
        lemma_count_filled(g, index + 1);
    }
}

/// The sum over the digits `d0..=9` dominates the addend of any single
/// digit `d` within that range.
pub proof fn lemma_digit_sum_bound(g: Seq<Option<u8>>, index: int, d0: int, d: int)
    requires
        0 <= index < 81,
        1 <= d0 <= d <= 9,
    ensures
        digit_sum(g, index, d0) >= (if safe_at(g, index, d as u8) {
            count_from(g.update(index, Some(d as u8)), index + 1)
        } else {
            0
        }),
    decreases d - d0,
{
    if d0 < d {
        lemma_digit_sum_bound(g, index, d0 + 1, d);
    }
}

/// A safe placement on a conflict-free grid leaves the grid conflict-free.
pub proof fn lemma_place_safe_keeps_consistent(g: Seq<Option<u8>>, pos: int, d: u8)
    requires
        g.len() == 81,
        0 <= pos < 81,
        no_group_duplicates(g),
        safe_at(g, pos, d),
    ensures
        no_group_duplicates(g.update(pos, Some(d))),
{
    let g2 = g.update(pos, Some(d));
    assert forall|i: int, j: int|
        0 <= i < 81 && 0 <= j < 81 && i != j && same_group(i, j) && (#[trigger] g2[i]) is Some
        implies g2[i] != (#[trigger] g2[j]) by {
        if i == pos {
            assert(g[j] != Some(d));
        } else if j == pos {
            assert(g[i] != Some(d));
        } else {
            assert(g2[i] == g[i] && g2[j] == g[j]);
        }
    };
}

/// Any digit that a solved completion of a partial grid holds at some
/// position is a safe placement at that position of the partial grid.
pub proof fn lemma_completion_safe(g: Seq<Option<u8>>, h: Seq<Option<u8>>, pos: int)
    requires
        solved(h),
        extends(g, h),
        0 <= pos < 81,
    ensures
        h[pos] is Some,
        1 <= h[pos]->Some_0 <= 9,
        safe_at(g, pos, h[pos]->Some_0),
{
    let d = h[pos]->Some_0;
    assert forall|j: int|
        0 <= j < 81 && j != pos && same_group(j, pos) implies (#[trigger] g[j]) != Some(d) by {
        if g[j] == Some(d) {
            assert(h[j] == Some(d));
            assert(h[pos] is Some && h[pos] == h[j]);
            assert(same_group(pos, j));
            assert(false);
        }
    };
}

/// A partial grid below a solved grid has at least one completion: the
/// index-order count from any position is at least one.
pub proof fn lemma_completion_positive(
    g: Seq<Option<u8>>,
    h: Seq<Option<u8>>,
    index: int,
)
    requires
        g.len() == 81,
        solved(h),
        extends(g, h),
        0 <= index <= 81,
    ensures
        count_from(g, index) >= 1,
    decreases 81 - index,
{
    if index >= 81 {
    } else if g[index] is Some {
        lemma_completion_positive(g, h, index + 1);
    } else {
        let d = h[index]->Some_0;
        assert(h[index] is Some);
        assert(1 <= d <= 9);
        assert(safe_at(g, index, d)) by {
            assert forall|j: int|
                0 <= j < 81 && j != index && same_group(j, index) implies (#[trigger] g[j])
                != Some(d) by {
                if g[j] == Some(d) {
                    assert(h[j] == Some(d));
                    assert(h[index] is Some && h[index] == h[j]);
                    assert(same_group(index, j));
                    assert(false);
                }
            };
        };
        let g2 = g.update(index, Some(d));
        assert(extends(g2, h)) by {
            assert forall|i: int| 0 <= i < 81 && (#[trigger] g2[i]) is Some implies h[i]
                == g2[i] by {
                if i != index {
                    assert(g2[i] == g[i]);
                }
            };
        };
        lemma_completion_positive(g2, h, index + 1);
        lemma_digit_sum_bound(g, index, 1, d as int);
    }
}

/// A grid whose filled cells already conflict has no solved completion.
pub proof fn lemma_conflict_no_completion(g: Seq<Option<u8>>)
    requires
        !no_group_duplicates(g),
    ensures
        forall|h: Seq<Option<u8>>| !(solved(h) && extends(g, h)),
{
    assert(exists|i: int, j: int|
        0 <= i < 81 && 0 <= j < 81 && i != j && same_group(i, j) && (#[trigger] g[i]) is Some
            && g[i] == (#[trigger] g[j]));
    let (i, j): (int, int) = choose|i: int, j: int|
        0 <= i < 81 && 0 <= j < 81 && i != j && same_group(i, j) && (#[trigger] g[i]) is Some
            && g[i] == (#[trigger] g[j]);
    assert forall|h: Seq<Option<u8>>| !(solved(h) && extends(g, h)) by {
        if solved(h) && extends(g, h) {
            assert(h[i] == g[i] && h[j] == g[j]);
            assert(false);
        }
    };
}

/// One addend of the digit sum being positive names a digit that explains it.
proof fn lemma_digit_sum_positive(g: Seq<Option<u8>>, index: int, d0: int)
    requires
        0 <= index < 81,
        1 <= d0 <= 9,
        digit_sum(g, index, d0) >= 1,
    ensures
        exists|d: u8|
            d0 <= d <= 9 && #[trigger] safe_at(g, index, d) && count_from(
                g.update(index, Some(d)),
                index + 1,
            ) >= 1,
    decreases 9 - d0,
{
    if safe_at(g, index, d0 as u8) && count_from(g.update(index, Some(d0 as u8)), index + 1)
        >= 1 {
        let d = d0 as u8;
        assert(d0 <= d <= 9 && safe_at(g, index, d) && count_from(
            g.update(index, Some(d)),
            index + 1,
        ) >= 1);
    } else {
        assert(digit_sum(g, index, d0 + 1) >= 1);
        lemma_digit_sum_positive(g, index, d0 + 1);
    }
}

/// Where the index-order count of a conflict-free grid is positive, a
/// solved completion of the grid really exists.  Together with
/// `lemma_completion_positive` and `lemma_conflict_no_completion`, this
/// ties the solver's verdict zero exactly to "no valid completion".
pub proof fn lemma_count_positive_completion(g: Seq<Option<u8>>, index: int)
    requires
        g.len() == 81,
        digits_ok(g),
        no_group_duplicates(g),
        0 <= index <= 81,
        forall|i: int| 0 <= i < index ==> (#[trigger] g[i]) is Some,
        count_from(g, index) >= 1,
    ensures
        exists|h: Seq<Option<u8>>| solved(h) && extends(g, h),
    decreases 81 - index,
{
    if index >= 81 {
        assert(solved(g) && extends(g, g));
    } else if g[index] is Some {
        lemma_count_positive_completion(g, index + 1);
        let h = choose|h: Seq<Option<u8>>| solved(h) && extends(g, h);
        assert(solved(h) && extends(g, h));
    } else {
        lemma_digit_sum_positive(g, index, 1);
        let d = choose|d: u8|
            1 <= d <= 9 && #[trigger] safe_at(g, index, d) && count_from(
                g.update(index, Some(d)),
                index + 1,
            ) >= 1;
        let g2 = g.update(index, Some(d));
        lemma_place_safe_keeps_consistent(g, index, d);
        lemma_count_positive_completion(g2, index + 1);
        let h = choose|h: Seq<Option<u8>>| solved(h) && extends(g2, h);
        assert(extends(g, h)) by {
            assert forall|i: int| 0 <= i < 81 && (#[trigger] g[i]) is Some implies h[i]
                == g[i] by {
                assert(g2[i] == g[i]);
                assert(h[i] == g2[i]);
            };
        };
        assert(solved(h) && extends(g, h));
    }
}

/// The sum over the digits `d0..=9` dominates the addends of two distinct
/// digits within that range together.
proof fn lemma_digit_sum_two_bound(g: Seq<Option<u8>>, index: int, d0: int, da: int, db: int)
    requires
        0 <= index < 81,
        1 <= d0 <= da < db <= 9,
    ensures
        digit_sum(g, index, d0) >= (if safe_at(g, index, da as u8) {
            count_from(g.update(index, Some(da as u8)), index + 1)
        } else {
            0
        }) + (if safe_at(g, index, db as u8) {
            count_from(g.update(index, Some(db as u8)), index + 1)
        } else {
            0
        }),
    decreases da - d0,
{
    if d0 == da {
        lemma_digit_sum_bound(g, index, d0 + 1, db);
    } else {
        lemma_digit_sum_two_bound(g, index, d0 + 1, da, db);
    }
}

/// Two distinct solved completions of a partial grid whose cells before
/// `index` are filled drive the index-order count to at least two.
pub proof fn lemma_two_completions(
    g: Seq<Option<u8>>,
    h1: Seq<Option<u8>>,
    h2: Seq<Option<u8>>,
    index: int,
)
    requires
        g.len() == 81,
        solved(h1),
        solved(h2),
        extends(g, h1),
        extends(g, h2),
        h1 != h2,
        0 <= index <= 81,
        forall|i: int| 0 <= i < index ==> (#[trigger] g[i]) is Some,
    ensures
        count_from(g, index) >= 2,
    decreases 81 - index,
{
    if index >= 81 {
        assert(h1 =~= g);
        assert(h2 =~= g);
        assert(false);
    } else if g[index] is Some {
        lemma_two_completions(g, h1, h2, index + 1);
    } else {
        lemma_completion_safe(g, h1, index);
        lemma_completion_safe(g, h2, index);
        let d1 = h1[index]->Some_0;
        let d2 = h2[index]->Some_0;
        if d1 == d2 {
            let g2 = g.update(index, Some(d1));
            assert(extends(g2, h1) && extends(g2, h2)) by {
                assert forall|i: int| 0 <= i < 81 && (#[trigger] g2[i]) is Some implies h1[i]
                    == g2[i] && h2[i] == g2[i] by {
                    if i != index {
                        assert(g2[i] == g[i]);
                    }
                };
            };
            lemma_two_completions(g2, h1, h2, index + 1);
            lemma_digit_sum_bound(g, index, 1, d1 as int);
        } else {
            let g1 = g.update(index, Some(d1));
            let g2 = g.update(index, Some(d2));
            assert(extends(g1, h1)) by {
                assert forall|i: int| 0 <= i < 81 && (#[trigger] g1[i]) is Some implies h1[i]
                    == g1[i] by {
                    if i != index {
                        assert(g1[i] == g[i]);
                    }
                };
            };
            assert(extends(g2, h2)) by {
                assert forall|i: int| 0 <= i < 81 && (#[trigger] g2[i]) is Some implies h2[i]
                    == g2[i] by {
                    if i != index {
                        assert(g2[i] == g[i]);
                    }
                };
            };
            lemma_completion_positive(g1, h1, index + 1);
            lemma_completion_positive(g2, h2, index + 1);
            if d1 < d2 {
                lemma_digit_sum_two_bound(g, index, 1, d1 as int, d2 as int);
            } else {
                lemma_digit_sum_two_bound(g, index, 1, d2 as int, d1 as int);
            }
        }
    }
}

/// Law: a conflict-free grid on which the index-order count from zero is
/// exactly one has exactly one solved completion: one exists, and any two
/// are the same grid.  This is the sense in which the solver's verdict
/// one certifies a unique puzzle.
pub proof fn lemma_unique_verdict(g: Seq<Option<u8>>)
    requires
        g.len() == 81,
        digits_ok(g),
        no_group_duplicates(g),
        count_from(g, 0) == 1,
    ensures
        exists|h: Seq<Option<u8>>| solved(h) && extends(g, h),
        forall|h1: Seq<Option<u8>>, h2: Seq<Option<u8>>|
            #![trigger extends(g, h1), extends(g, h2)]
            solved(h1) && extends(g, h1) && solved(h2) && extends(g, h2) ==> h1 == h2,
{
    lemma_count_positive_completion(g, 0);
    assert forall|h1: Seq<Option<u8>>, h2: Seq<Option<u8>>|
        #![trigger extends(g, h1), extends(g, h2)]
        solved(h1) && extends(g, h1) && solved(h2) && extends(g, h2) implies h1 == h2 by {
        if h1 != h2 {
            lemma_two_completions(g, h1, h2, 0);
        }
    };
}

impl App {
    /// The counting solver: tests the filled cells for conflicts, then
    /// explores the empty cells at `index..81` in index order and returns
    /// `count` plus the number of completions found, capped at two in
    /// total.  A grid whose filled cells already conflict admits no valid
    /// completion, so the count gains nothing.  The grid is left exactly
    /// as it was.
    pub fn solve(&mut self, index: usize, count: i32) -> (r: i32)
        requires
            old(self).wf(),
            0 <= count < 2,
        ensures
            final(self).wf(),
            final(self)@ == old(self)@,
            final(self).removed_values == old(self).removed_values,
            r == capped(
                count + (if no_group_duplicates(old(self)@) {
                    count_from(old(self)@, index as int) as int
                } else {
                    0
                }),
            ),
    {
        if self.is_consistent() {
            self.solve_from(index, count)
        } else {
            count
        }
    }

    /// The search behind `solve`, for a grid already known conflict-free:
    /// walks the positions from `index` on, trying every safe digit at
    /// each empty cell, and stops as soon as the running count reaches
    /// two.
    fn solve_from(&mut self, index: usize, count: i32) -> (r: i32)
        requires
            old(self).wf(),
            no_group_duplicates(old(self)@),
            0 <= count < 2,
        ensures
            final(self).wf(),
            final(self)@ == old(self)@,
            final(self).removed_values == old(self).removed_values,
            r == capped(count + count_from(old(self)@, index as int)),
        decreases 81 - index,
    {
        if index > 80 {
            return count + 1;
        }
        let cell = self.sudoku_matrix[index];
        proof {
            assert(self@[index as int] == self.sudoku_matrix@[index as int].number);
        }
        if cell.number.is_some() {
            return self.solve_from(index + 1, count);
        }
        let ghost g0 = self@;
        let ghost rv0 = self.removed_values;
        let row = index / 9;
        let column = index % 9;
        let mut cur: i32 = count;
        let mut num: u8 = 1;
        while num <= 9
            invariant
                self.wf(),
                self.removed_values == rv0,
                index <= 80,
                row == index / 9,
                column == index % 9,
                g0.len() == 81,
                g0[index as int] is None,
                no_group_duplicates(g0),
                1 <= num <= 10,
                0 <= cur <= 2,
                forall|j: int| 0 <= j < 81 && j != index ==> (#[trigger] self@[j]) == g0[j],
                capped(cur + digit_sum(g0, index as int, num as int)) == capped(
                    count + digit_sum(g0, index as int, 1),
                ),
            decreases 10 - num,
        {
            if cur < 2 {
                let cand = Cell { number: Some(num), row, column };
                proof {
                    lemma_position_arith(row as int, column as int);
                }
                if self.safe_to_place(&cand) {
                    proof {
                        lemma_safe_same(self@, g0, index as int, num);
                    }
                    self.set_number(index, Some(num));
                    proof {
                        assert(self@ =~= g0.update(index as int, Some(num)));
                        lemma_place_safe_keeps_consistent(g0, index as int, num);
                    }
                    cur = self.solve_from(index + 1, cur);
                } else {
                    proof {
                        lemma_safe_same(self@, g0, index as int, num);
                    }
                }
            }
            num += 1;
        }
        self.set_number(index, None);
        proof {
            assert(self@ =~= g0);
        }
        cur
    }
}

} // verus!
