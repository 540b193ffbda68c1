use vstd::prelude::*;

use crate::grid::{col_of, digit_ok, extends, region_of, row_of, same_group, solved};
use vstd::set_lib::lemma_subset_equality;

verus! {

/// The digit of one witness solved grid: row `i/9` is the sequence 1..9
/// rotated left by `3*(row % 3) + row/3` places, which makes all rows,
/// columns and regions duplicate-free.
pub open spec fn cyclic_digit(i: int) -> u8 {
    (((3 * ((i / 9) % 3) + (i / 9) / 3 + i % 9) % 9) + 1) as u8
}

/// The rotation grid really is solved.
pub proof fn lemma_cyclic_grid_solved()
    ensures
        solved(Seq::new(81, |i: int| Some(cyclic_digit(i)))),
{
    let h = Seq::new(81, |i: int| Some(cyclic_digit(i)));
    assert forall|i: int, j: int|
        0 <= i < 81 && 0 <= j < 81 && i != j && same_group(i, j) && (#[trigger] h[i]) is Some
        implies h[i] != (#[trigger] h[j]) by {
        let r1 = i / 9;
        let c1 = i % 9;
        let r2 = j / 9;
        let c2 = j % 9;
        let x1 = 3 * (r1 % 3) + r1 / 3 + c1;
        let x2 = 3 * (r2 % 3) + r2 / 3 + c2;
        assert(i == r1 * 9 + c1 && j == r2 * 9 + c2);
        assert(0 <= x1 < 18 && 0 <= x2 < 18);
        if h[i] == h[j] {
            assert(x1 % 9 == x2 % 9);
            assert(x1 == 9 * (x1 / 9) + x1 % 9 && x2 == 9 * (x2 / 9) + x2 % 9);
            assert(x1 == x2);
            if row_of(i) == row_of(j) {
                assert(c1 == c2);
                assert(false);
            } else if col_of(i) == col_of(j) {
                assert(c1 == c2);
                assert(3 * (r1 % 3) + r1 / 3 == 3 * (r2 % 3) + r2 / 3);
                assert(r1 % 3 == r2 % 3 && r1 / 3 == r2 / 3);
                assert(r1 == 3 * (r1 / 3) + r1 % 3 && r2 == 3 * (r2 / 3) + r2 % 3);
                assert(false);
            } else {
                assert(region_of(i) == region_of(j));
                assert(i / 27 == (i / 9) / 3 && j / 27 == (j / 9) / 3) by (nonlinear_arith)
                    requires
                        0 <= i < 81,
                        0 <= j < 81,
                ;
                assert(r1 / 3 == r2 / 3 && c1 / 3 == c2 / 3);
                assert(c1 == 3 * (c1 / 3) + c1 % 3 && c2 == 3 * (c2 / 3) + c2 % 3);
                let delta = c1 % 3 - c2 % 3;
                assert(3 * (r1 % 3) + delta == 3 * (r2 % 3));
                assert(-3 < delta < 3);
                assert(delta == 0 && r1 % 3 == r2 % 3);
                assert(r1 == 3 * (r1 / 3) + r1 % 3 && r2 == 3 * (r2 / 3) + r2 % 3);
                assert(false);
            }
        }
    };
}

/// Law: some solved grid exists, and it completes the empty grid -- so
/// the filler's failure clause can never apply to an empty grid, and its
/// success there is forced.
pub proof fn lemma_empty_grid_completable(g: Seq<Option<u8>>)
    requires
        g.len() == 81,
        forall|i: int| 0 <= i < 81 ==> (#[trigger] g[i]) is None,
    ensures
        exists|h: Seq<Option<u8>>| solved(h) && extends(g, h),
{
    let h = Seq::new(81, |i: int| Some(cyclic_digit(i)));
    lemma_cyclic_grid_solved();
    assert(solved(h) && extends(g, h));
}

/// The row `r` holds the digit `d` somewhere.
pub open spec fn row_has(g: Seq<Option<u8>>, r: int, d: u8) -> bool {
    exists|i: int| 0 <= i < 81 && row_of(i) == r && #[trigger] g[i] == Some(d)
}

/// The column `c` holds the digit `d` somewhere.
pub open spec fn column_has(g: Seq<Option<u8>>, c: int, d: u8) -> bool {
    exists|i: int| 0 <= i < 81 && col_of(i) == c && #[trigger] g[i] == Some(d)
}

/// The region `e` holds the digit `d` somewhere.
pub open spec fn region_has(g: Seq<Option<u8>>, e: int, d: u8) -> bool {
    exists|i: int| 0 <= i < 81 && region_of(i) == e && #[trigger] g[i] == Some(d)
}

/// Pigeonhole step: nine pairwise-constraining positions of a solved grid
/// hold nine distinct digits out of 1-9, so every digit occurs.
proof fn lemma_group_pigeonhole(g: Seq<Option<u8>>, ps: Seq<int>, d: u8)
    requires
        solved(g),
        ps.len() == 9,
        forall|k: int| 0 <= k < 9 ==> 0 <= #[trigger] ps[k] < 81,
        forall|k: int, l: int|
            0 <= k < 9 && 0 <= l < 9 && k != l ==> #[trigger] ps[k] != #[trigger] ps[l]
                && same_group(ps[k], ps[l]),
        1 <= d <= 9,
    ensures
        exists|k: int| 0 <= k < 9 && g[#[trigger] ps[k]] == Some(d),
{
    broadcast use vstd::seq_lib::seq_to_set_is_finite;

    let vals = Seq::new(9, |k: int| g[ps[k]]->Some_0);
    assert forall|k: int, l: int|
        0 <= k < 9 && 0 <= l < 9 && k != l implies #[trigger] vals[k] != #[trigger] vals[l] by {
        assert(g[ps[k]] is Some && g[ps[l]] is Some);
        assert(g[ps[k]] != g[ps[l]]);
    };
    assert(vals.no_duplicates());
    vals.unique_seq_to_set();
    let digits = Seq::new(9, |k: int| (k + 1) as u8);
    assert(digits.no_duplicates());
    digits.unique_seq_to_set();
    assert(vals.to_set().subset_of(digits.to_set())) by {
        assert forall|x: u8| vals.to_set().contains(x) implies digits.to_set().contains(x) by {
            assert(vals.contains(x));
            let k = choose|k: int| 0 <= k < 9 && vals[k] == x;
            assert(digit_ok(g[ps[k]]));
            assert(1 <= x <= 9);
            assert(digits[x as int - 1] == x);
            assert(digits.contains(x));
        };
    };
    lemma_subset_equality(vals.to_set(), digits.to_set());
    assert(digits[d as int - 1] == d);
    assert(digits.contains(d));
    assert(digits.to_set().contains(d));
    assert(vals.to_set().contains(d));
    assert(vals.contains(d));
    let k = choose|k: int| 0 <= k < 9 && vals[k] == d;
    assert(g[ps[k]] == Some(d));
}

/// The nine positions of the region `e`, ordered row-major within the
/// region, are recovered by this arithmetic.
proof fn lemma_region_position(e: int, k: int)
    requires
        0 <= e < 9,
        0 <= k < 9,
    ensures
        ({
            let p = (e / 3) * 27 + (e % 3) * 3 + (k / 3) * 9 + (k % 3);
            &&& 0 <= p < 81
            &&& region_of(p) == e
            &&& row_of(p) == (e / 3) * 3 + k / 3
            &&& col_of(p) == (e % 3) * 3 + k % 3
        }),
{
    let p = (e / 3) * 27 + (e % 3) * 3 + (k / 3) * 9 + (k % 3);
    assert(p == 9 * (3 * (e / 3) + k / 3) + ((e % 3) * 3 + k % 3));
    assert(p / 9 == 3 * (e / 3) + k / 3 && p % 9 == (e % 3) * 3 + k % 3) by (nonlinear_arith)
        requires
            0 <= e < 9,
            0 <= k < 9,
            p == 9 * (3 * (e / 3) + k / 3) + ((e % 3) * 3 + k % 3),
    ;
    assert(p / 27 == e / 3) by (nonlinear_arith)
        requires
            0 <= e < 9,
            0 <= k < 9,
            p == (e / 3) * 27 + ((e % 3) * 3 + (k / 3) * 9 + (k % 3)),
    ;
    assert(((e % 3) * 3 + k % 3) / 3 == e % 3) by (nonlinear_arith)
        requires
            0 <= e < 9,
            0 <= k < 9,
    ;
}

/// Law: in a solved grid, every row, every column and every region holds
/// each digit 1-9 at least once -- and so, having nine cells, exactly
/// once; a second occurrence within a group is already excluded by
/// `solved` itself.
pub proof fn lemma_solved_groups_complete(g: Seq<Option<u8>>)
    requires
        solved(g),
    ensures
        forall|r: int, d: u8| 0 <= r < 9 && 1 <= d <= 9 ==> #[trigger] row_has(g, r, d),
        forall|c: int, d: u8| 0 <= c < 9 && 1 <= d <= 9 ==> #[trigger] column_has(g, c, d),
        forall|e: int, d: u8| 0 <= e < 9 && 1 <= d <= 9 ==> #[trigger] region_has(g, e, d),
{
    assert forall|r: int, d: u8| 0 <= r < 9 && 1 <= d <= 9 implies #[trigger] row_has(
        g,
        r,
        d,
    ) by {
        let ps = Seq::new(9, |k: int| r * 9 + k);
        assert forall|k: int, l: int|
            0 <= k < 9 && 0 <= l < 9 && k != l implies #[trigger] ps[k] != #[trigger] ps[l]
            && same_group(ps[k], ps[l]) by {
            crate::grid::lemma_position_arith(r, k);
            crate::grid::lemma_position_arith(r, l);
        };
        assert forall|k: int| 0 <= k < 9 implies 0 <= #[trigger] ps[k] < 81 by {};
        lemma_group_pigeonhole(g, ps, d);
        let k = choose|k: int| 0 <= k < 9 && g[ps[k]] == Some(d);
        crate::grid::lemma_position_arith(r, k);
        assert(0 <= ps[k] < 81 && row_of(ps[k]) == r && g[ps[k]] == Some(d));
    };
    assert forall|c: int, d: u8| 0 <= c < 9 && 1 <= d <= 9 implies #[trigger] column_has(
        g,
        c,
        d,
    ) by {
        let ps = Seq::new(9, |k: int| k * 9 + c);
        assert forall|k: int, l: int|
            0 <= k < 9 && 0 <= l < 9 && k != l implies #[trigger] ps[k] != #[trigger] ps[l]
            && same_group(ps[k], ps[l]) by {
            crate::grid::lemma_position_arith(k, c);
            crate::grid::lemma_position_arith(l, c);
        };
        assert forall|k: int| 0 <= k < 9 implies 0 <= #[trigger] ps[k] < 81 by {};
        lemma_group_pigeonhole(g, ps, d);
        let k = choose|k: int| 0 <= k < 9 && g[ps[k]] == Some(d);
        crate::grid::lemma_position_arith(k, c);
        assert(0 <= ps[k] < 81 && col_of(ps[k]) == c && g[ps[k]] == Some(d));
    };
    assert forall|e: int, d: u8| 0 <= e < 9 && 1 <= d <= 9 implies #[trigger] region_has(
        g,
        e,
        d,
    ) by {
        let ps = Seq::new(9, |k: int| (e / 3) * 27 + (e % 3) * 3 + (k / 3) * 9 + (k % 3));
        assert forall|k: int, l: int|
            0 <= k < 9 && 0 <= l < 9 && k != l implies #[trigger] ps[k] != #[trigger] ps[l]
            && same_group(ps[k], ps[l]) by {
            lemma_region_position(e, k);
            lemma_region_position(e, l);
            assert(k / 3 != l / 3 || k % 3 != l % 3);
            assert(ps[k] != ps[l]) by {
                if row_of(ps[k]) == row_of(ps[l]) && col_of(ps[k]) == col_of(ps[l]) {
                    assert(k / 3 == l / 3 && k % 3 == l % 3);
                }
            };
        };
        assert forall|k: int| 0 <= k < 9 implies 0 <= #[trigger] ps[k] < 81 by {
            lemma_region_position(e, k);
        };
        lemma_group_pigeonhole(g, ps, d);
        let k = choose|k: int| 0 <= k < 9 && g[ps[k]] == Some(d);
        lemma_region_position(e, k);
        assert(0 <= ps[k] < 81 && region_of(ps[k]) == e && g[ps[k]] == Some(d));
    };
}

} // verus!
