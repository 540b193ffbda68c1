use vstd::prelude::*;

use crate::grid::{count_empty, extends, lemma_count_empty_update, solved, App, Cell};
use crate::shuffle::shuffle_digits;
use crate::solver::lemma_completion_safe;

verus! {

impl App {
    /// Randomized backtracking filler.  It finds the first empty cell in
    /// linear order, tries the digits 1-9 in a uniformly random order,
    /// places each safe candidate and recurses.  On success the grid is a
    /// solved extension of the partial grid it started from; on failure
    /// -- possible only when the starting grid admits no solved
    /// completion -- the grid is left unchanged.
    #[verifier::loop_isolation(false)]
    pub fn fill_puzzle(&mut self) -> (r: bool)
        requires
            old(self).wf(),
        ensures
            final(self).wf(),
            final(self).removed_values == old(self).removed_values,
            extends(old(self)@, final(self)@),
            r ==> solved(final(self)@),
            !r ==> final(self)@ == old(self)@,
            !r ==> forall|h: Seq<Option<u8>>| !(solved(h) && extends(old(self)@, h)),
        decreases count_empty(old(self)@),
    {
        let ghost g0 = self@;
        let ghost rv0 = self.removed_values;
        let mut digits: Vec<u8> = Vec::new();
        let mut dd: u8 = 1;
        while dd <= 9
            invariant
                1 <= dd <= 10,
                digits@.len() == dd - 1,
                forall|k: int| 0 <= k < dd - 1 ==> #[trigger] digits@[k] == k + 1,
            decreases 10 - dd,
        {
            digits.push(dd);
            dd += 1;
        }
        let ghost base = digits@;
        shuffle_digits(&mut digits);
        proof {
            broadcast use vstd::seq_lib::group_to_multiset_ensures;

            assert forall|m: int| 0 <= m < 9 implies 1 <= #[trigger] digits@[m] <= 9 by {
                assert(digits@.contains(digits@[m]));
                assert(base.to_multiset().count(digits@[m]) > 0);
                assert(base.contains(digits@[m]));
            };
            assert forall|d: u8| 1 <= d <= 9 implies #[trigger] digits@.contains(d) by {
                assert(base[d as int - 1] == d);
                assert(base.contains(d));
                assert(digits@.to_multiset().count(d) > 0);
            };
        }
        match self.scan_next_cell() {
            None => {
                let full_grid_valid = self.is_solved();
                proof {
                    assert(g0.len() == 81);
                    if !full_grid_valid {
                        assert forall|h: Seq<Option<u8>>| !(solved(h) && extends(g0, h)) by {
                            if solved(h) && extends(g0, h) {
                                assert(h =~= g0);
                            }
                        };
                    }
                }
                full_grid_valid
            },
            Some(cell0) => {
                let pos = cell0.get_position();
                let mut k: usize = 0;
                while k < 9
                    invariant
                        self.wf(),
                        self.removed_values == rv0,
                        self@ == g0,
                        g0.len() == 81,
                        pos < 81,
                        g0[pos as int] is None,
                        cell0.row < 9,
                        cell0.column < 9,
                        pos == cell0.row * 9 + cell0.column,
                        k <= 9,
                        digits@.len() == 9,
                        forall|m: int| 0 <= m < 9 ==> 1 <= #[trigger] digits@[m] <= 9,
                        forall|d: u8| 1 <= d <= 9 ==> #[trigger] digits@.contains(d),
                        forall|h: Seq<Option<u8>>, m: int|
                            #![trigger solved(h), digits@[m]]
                            solved(h) && extends(g0, h) && 0 <= m < k && h[pos as int] == Some(
                                digits@[m],
                            ) ==> false,
                    decreases 9 - k,
                {
                    let num = digits[k];
                    let cand = Cell { number: Some(num), row: cell0.row, column: cell0.column };
                    if self.safe_to_place(&cand) {
                        self.set_number(pos, Some(num));
                        proof {
                            lemma_count_empty_update(g0, pos as int, Some(num));
                        }
                        if self.fill_puzzle() {
                            proof {
                                let g1 = g0.update(pos as int, Some(num));
                                assert forall|i: int|
                                    0 <= i < 81 && (#[trigger] g0[i]) is Some implies self@[i]
                                    == g0[i] by {
                                    assert(g1[i] == g0[i]);
                                    assert(self@[i] == g1[i]);
                                };
                            }
                            return true;
                        }
                        self.set_number(pos, None);
                        proof {
                            assert(self@ =~= g0);
                            let g1 = g0.update(pos as int, Some(num));
                            assert forall|h: Seq<Option<u8>>, m: int|
                                #![trigger solved(h), digits@[m]]
                                solved(h) && extends(g0, h) && 0 <= m < k + 1 && h[pos as int]
                                    == Some(digits@[m]) implies false by {
                                if m == k {
                                    assert(extends(g1, h)) by {
                                        assert forall|i: int|
                                            0 <= i < 81 && (#[trigger] g1[i]) is Some implies h[i]
                                            == g1[i] by {
                                            if i != pos {
                                                assert(g1[i] == g0[i]);
                                            }
                                        };
                                    };
                                    assert(!(solved(h) && extends(g1, h)));
                                    assert(false);
                                }
                            };
                        }
                    } else {
                        proof {
                            assert forall|h: Seq<Option<u8>>, m: int|
                                #![trigger solved(h), digits@[m]]
                                solved(h) && extends(g0, h) && 0 <= m < k + 1 && h[pos as int]
                                    == Some(digits@[m]) implies false by {
                                if m == k {
                                    lemma_completion_safe(g0, h, pos as int);
                                }
                            };
                        }
                    }
                    k += 1;
                }
                proof {
                    assert forall|h: Seq<Option<u8>>| !(solved(h) && extends(g0, h)) by {
                        if solved(h) && extends(g0, h) {
                            lemma_completion_safe(g0, h, pos as int);
                            let dh = h[pos as int]->Some_0;
                            assert(digits@.contains(dh));
                            let m = choose|m: int| 0 <= m < digits@.len() && digits@[m] == dh;
                            assert(solved(h) && h[pos as int] == Some(digits@[m]));
                            assert(false);
                        }
                    };
                }
                false
            },
        }
    }
}

} // verus!
