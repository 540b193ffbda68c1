use vstd::prelude::*;

use crate::grid::{
    count_empty, digit_ok, digits_ok, extends, lemma_count_empty_le_len, lemma_count_empty_update,
    no_group_duplicates, same_group, shrinks, solved, App,
};
use crate::shuffle::shuffle_positions;
use crate::solver::{capped, count_from, lemma_completion_positive, lemma_count_filled};
use vstd::multiset::Multiset;

verus! {

/// The digits that were cleared between an older and a newer state of the
/// grid: the content of every position, from `i` on, that was filled
/// before and is empty now.
pub open spec fn removed_from(
    g_old: Seq<Option<u8>>,
    g_new: Seq<Option<u8>>,
    i: int,
) -> Multiset<u8>
    decreases 81 - i,
{
    if i >= 81 {
        Multiset::empty()
    } else {
        let rest = removed_from(g_old, g_new, i + 1);
        if g_old[i] is Some && g_new[i] is None {
            rest.insert(g_old[i]->Some_0)
        } else {
            rest
        }
    }
}

/// Where nothing was cleared, the multiset of cleared digits is empty.
proof fn lemma_removed_from_none(g_old: Seq<Option<u8>>, g_new: Seq<Option<u8>>, i: int)
    requires
        0 <= i,
        forall|j: int| i <= j < 81 ==> !((#[trigger] g_old[j]) is Some && g_new[j] is None),
    ensures
        removed_from(g_old, g_new, i) == Multiset::<u8>::empty(),
    decreases 81 - i,
{
    if i < 81 {
        lemma_removed_from_none(g_old, g_new, i + 1);
    }
}

/// Clearing one more originally-filled position adds exactly its digit to
/// the multiset of cleared digits.
proof fn lemma_removed_from_update(
    g_old: Seq<Option<u8>>,
    g_new: Seq<Option<u8>>,
    q: int,
    i: int,
)
    requires
        0 <= i <= q < 81,
        g_new.len() == 81,
        g_new[q] == g_old[q],
        g_old[q] is Some,
    ensures
        removed_from(g_old, g_new.update(q, None), i) == removed_from(g_old, g_new, i).insert(
            g_old[q]->Some_0,
        ),
    decreases 81 - i,
{
    let g_upd = g_new.update(q, None);
    if i == q {
        assert forall|j: int| q < j < 81 implies g_upd[j] == g_new[j] by {};
        assert(removed_from(g_old, g_upd, q + 1) == removed_from(g_old, g_new, q + 1)) by {
            lemma_removed_from_agree(g_old, g_upd, g_new, q + 1);
        }
    } else {
        lemma_removed_from_update(g_old, g_new, q, i + 1);
        if g_old[i] is Some && g_new[i] is None {
            assert(removed_from(g_old, g_new, i + 1).insert(g_old[q]->Some_0).insert(
                g_old[i]->Some_0,
            ) =~= removed_from(g_old, g_new, i + 1).insert(g_old[i]->Some_0).insert(
                g_old[q]->Some_0,
            ));
        }
    }
}

/// Two newer states that agree from `i` on clear the same digits from `i` on.
proof fn lemma_removed_from_agree(
    g_old: Seq<Option<u8>>,
    g1: Seq<Option<u8>>,
    g2: Seq<Option<u8>>,
    i: int,
)
    requires
        0 <= i,
        forall|j: int| i <= j < 81 ==> #[trigger] g1[j] == g2[j],
    ensures
        removed_from(g_old, g1, i) == removed_from(g_old, g2, i),
    decreases 81 - i,
{
    if i < 81 {
        lemma_removed_from_agree(g_old, g1, g2, i + 1);
    }
}

impl App {
    /// Hole poker: walks the 81 positions in a uniformly random order,
    /// tentatively clears each filled cell, and keeps the removal only if
    /// the counting solver still finds a unique completion; it repeats
    /// whole passes until `holes` removals are accepted or a full pass
    /// makes no further progress.  The digits removed are recorded in
    /// `removed_values` in removal order.
    #[verifier::loop_isolation(false)]
    pub fn poke_holes(&mut self, holes: usize)
        requires
            old(self).wf(),
        ensures
            final(self).wf(),
            final(self).removed_values is Some,
            shrinks(old(self)@, final(self)@),
            ({
                let rv = final(self).removed_values->Some_0@;
                &&& rv.len() <= holes
                &&& rv.len() <= 81
                &&& forall|k: int| 0 <= k < rv.len() ==> 1 <= #[trigger] rv[k] <= 9
                &&& count_empty(final(self)@) == count_empty(old(self)@) + rv.len()
                &&& rv.to_multiset() == removed_from(old(self)@, final(self)@, 0)
                &&& holes == 0 ==> final(self)@ == old(self)@ && rv.len() == 0
                &&& digits_ok(final(self)@)
                &&& solved(old(self)@) ==> no_group_duplicates(final(self)@) && count_from(
                    final(self)@,
                    0,
                ) == 1
                &&& rv.len() < holes ==> forall|q: int|
                    0 <= q < 81 && (#[trigger] final(self)@[q]) is Some ==> count_from(
                        final(self)@.update(q, None),
                        0,
                    ) >= 2
            }),
    {
        let ghost g_orig = self@;
        let mut order: Vec<usize> = Vec::new();
        let mut p: usize = 0;
        while p < 81
            invariant
                p <= 81,
                order@.len() == p,
                forall|k: int| 0 <= k < p ==> #[trigger] order@[k] == k,
            decreases 81 - p,
        {
            order.push(p);
            p += 1;
        }
        let ghost base = order@;
        shuffle_positions(&mut order);
        proof {
            broadcast use vstd::seq_lib::group_to_multiset_ensures;

            assert forall|k: int| 0 <= k < 81 implies #[trigger] order@[k] < 81 by {
                assert(order@.contains(order@[k]));
                assert(base.to_multiset().count(order@[k]) > 0);
                assert(base.contains(order@[k]));
            };
            assert forall|q: int| 0 <= q < 81 implies #[trigger] order@.contains(q as usize) by {
                assert(base[q] == q as usize);
                assert(base.contains(q as usize));
                assert(order@.to_multiset().count(q as usize) > 0);
            };
        }
        let mut removed: Vec<u8> = Vec::new();
        let mut progress = true;
        proof {
            if solved(g_orig) {
                lemma_count_filled(g_orig, 0);
            }
            lemma_removed_from_none(g_orig, g_orig, 0);
            assert(removed@.to_multiset() =~= Multiset::<u8>::empty());
        }
        while removed.len() < holes && progress
            invariant
                self.wf(),
                order@.len() == 81,
                shrinks(g_orig, self@),
                count_empty(self@) == count_empty(g_orig) + removed@.len(),
                removed@.len() <= holes,
                forall|k: int| 0 <= k < removed@.len() ==> 1 <= #[trigger] removed@[k] <= 9,
                solved(g_orig) ==> count_from(self@, 0) == 1,
                holes == 0 ==> self@ == g_orig,
                removed@.to_multiset() == removed_from(g_orig, self@, 0),
                (!progress && removed@.len() < holes) ==> forall|q: int|
                    0 <= q < 81 && (#[trigger] self@[q]) is Some ==> count_from(
                        self@.update(q, None),
                        0,
                    ) >= 2,
            decreases
                    holes - removed.len(),
                    (if progress {
                        1int
                    } else {
                        0int
                    }),
        {
            let ghost g_pass = self@;
            let ghost len_pass = removed@.len();
            let mut made = false;
            let mut t: usize = 0;
            while t < 81 && removed.len() < holes
                invariant
                    self.wf(),
                    t <= 81,
                    shrinks(g_orig, self@),
                    count_empty(self@) == count_empty(g_orig) + removed@.len(),
                    removed@.len() <= holes,
                    forall|k: int| 0 <= k < removed@.len() ==> 1 <= #[trigger] removed@[k] <= 9,
                    solved(g_orig) ==> count_from(self@, 0) == 1,
                    removed@.to_multiset() == removed_from(g_orig, self@, 0),
                    removed@.len() >= len_pass,
                    made ==> removed@.len() > len_pass,
                    !made ==> removed@.len() == len_pass && self@ == g_pass,
                    !made ==> forall|u: int|
                        0 <= u < t && (#[trigger] self@[order@[u] as int]) is Some ==> count_from(
                            self@.update(order@[u] as int, None),
                            0,
                        ) >= 2,
                decreases 81 - t,
            {
                let ghost g_cur = self@;
                let q = order[t];
                let n = self.number_at(q);
                if n.is_some() {
                    let d = n.unwrap();
                    proof {
                        assert(self@[q as int] == self.sudoku_matrix@[q as int].number);
                    }
                    let ghost removed_pre = removed@;
                    removed.push(d);
                    self.set_number(q, None);
                    let ghost g_clear = self@;
                    proof {
                        broadcast use vstd::seq_lib::group_to_multiset_ensures;

                        lemma_count_empty_update(g_cur, q as int, None);
                        assert(g_cur[q as int] == g_orig[q as int]);
                        lemma_removed_from_update(g_orig, g_cur, q as int, 0);
                        assert(removed@.to_multiset() =~= removed_from(g_orig, g_clear, 0));
                    }
                    let mut trial = self.duplicate();
                    let cnt = trial.solve(0, 0);
                    if cnt > 1 {
                        self.set_number(q, Some(d));
                        let popped: Option<u8> = removed.pop();
                        proof {
                            assert(self@ =~= g_cur);
                            assert(removed@ =~= removed_pre);
                            lemma_count_empty_update(g_clear, q as int, Some(d));
                        }
                    } else {
                        made = true;
                        proof {
                            if solved(g_orig) {
                                assert(extends(g_clear, g_orig)) by {
                                    assert forall|i: int|
                                        0 <= i < 81 && (#[trigger] g_clear[i]) is Some implies g_orig[i]
                                        == g_clear[i] by {};
                                };
                                lemma_completion_positive(g_clear, g_orig, 0);
                                assert(capped(count_from(g_clear, 0) as int) <= 1);
                                assert(count_from(g_clear, 0) == 1);
                            }
                        }
                    }
                } else {
                    proof {
                        assert(self@[q as int] is None);
                    }
                }
                t += 1;
            }
            proof {
                if !made && removed@.len() < holes {
                    assert forall|q: int|
                        0 <= q < 81 && (#[trigger] self@[q]) is Some implies count_from(
                            self@.update(q, None),
                            0,
                        ) >= 2 by {
                        assert(order@.contains(q as usize));
                        let u = choose|u: int| 0 <= u < order@.len() && order@[u] == q as usize;
                        assert(self@[order@[u] as int] is Some);
                    };
                }
            }
            progress = made;
        }
        proof {
            assert(self@.len() == 81);
            lemma_count_empty_le_len(self@);
            assert forall|i: int| 0 <= i < 81 implies digit_ok(#[trigger] self@[i]) by {
                assert(self@[i] == self.sudoku_matrix@[i].number);
            };
            if solved(g_orig) {
                assert forall|i: int, j: int|
                    0 <= i < 81 && 0 <= j < 81 && i != j && same_group(i, j) && (
                    #[trigger] self@[i]) is Some implies self@[i] != (#[trigger] self@[j]) by {
                    assert(self@[i] == g_orig[i]);
                };
            }
        }
        self.removed_values = Some(removed);
    }
}

} // verus!
