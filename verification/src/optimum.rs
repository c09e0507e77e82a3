use vstd::prelude::*;
use crate::vector::{dot, total};

use crate::system::{column, lemma_total_zeros};

use crate::compositions::{compositions, is_composition, lemma_compositions_complete};
use crate::search::{iota, origin, Puzzle};


verus! {

impl Puzzle {
    /// Pressing button `k` `x[k]` times, for each `k`, leads from zero to the target
    /// exactly.
    pub open spec fn reaches(self, x: Seq<nat>) -> bool {
        &&& x.len() == self.buttons.len()
        &&& forall|d: int|
            0 <= d < self.target.len() ==> dot(column(self.buttons, d), x) == self.target[d]
    }

    /// Some presses lead from zero to the target exactly.
    pub open spec fn solvable(self) -> bool {
        exists|x: Seq<nat>| self.reaches(x)
    }

    /// `n` is the least number of presses that lead from zero to the target exactly.
    pub open spec fn is_fewest(self, n: nat) -> bool {
        &&& exists|x: Seq<nat>| self.reaches(x) && total(x) == n
        &&& forall|x: Seq<nat>| self.reaches(x) ==> n <= total(x)
    }

    /// Of the press counts `counts` of the buttons `ids`, in order, those of the
    /// buttons that add to dimension `d` (`wanted`), or those of the others.
    pub open spec fn part(self, ids: Seq<int>, d: int, counts: Seq<nat>, wanted: bool) -> Seq<nat>
        decreases ids.len(),
    {
        if ids.len() == 0 || counts.len() == 0 {
            Seq::empty()
        } else {
            let rest = self.part(ids.drop_last(), d, counts.drop_last(), wanted);
            if (self.buttons[ids.last()][d] > 0) == wanted {
                rest.push(counts.last())
            } else {
                rest
            }
        }
    }

    /// Press counts for the buttons `ids`: `a` for those that add to dimension `d`,
    /// `b` for the others, each in order.
    pub open spec fn weave(self, ids: Seq<int>, d: int, a: Seq<nat>, b: Seq<nat>) -> Seq<nat>
        decreases ids.len(),
    {
        if ids.len() == 0 {
            Seq::empty()
        } else if self.buttons[ids.last()][d] > 0 {
            if a.len() == 0 {
                Seq::empty()
            } else {
                self.weave(ids.drop_last(), d, a.drop_last(), b).push(a.last())
            }
        } else {
            if b.len() == 0 {
                Seq::empty()
            } else {
                self.weave(ids.drop_last(), d, a, b.drop_last()).push(b.last())
            }
        }
    }

    /// One more button adds its presses times what it adds to the gain.
    pub proof fn lemma_gain_push(self, ids: Seq<int>, counts: Seq<nat>, id: int, count: nat, d: int)
        ensures
            self.gain(ids.push(id), counts.push(count), d) == self.gain(ids, counts, d) + count
                * self.buttons[id][d],
    {
        assert(ids.push(id).drop_last() =~= ids);
        assert(counts.push(count).drop_last() =~= counts);
    }

    /// The press counts of the buttons that add to a dimension and those of the others
    /// make up the press counts of all.
    pub proof fn lemma_part(self, ids: Seq<int>, d: int, counts: Seq<nat>)
        requires
            counts.len() == ids.len(),
        ensures
            self.part(ids, d, counts, true).len() == self.touching(ids, d, true).len(),
            self.part(ids, d, counts, false).len() == self.touching(ids, d, false).len(),
            total(counts) == total(self.part(ids, d, counts, true)) + total(
                self.part(ids, d, counts, false),
            ),
            forall|i: int|
                self.gain(ids, counts, i) == self.gain(
                    self.touching(ids, d, true),
                    self.part(ids, d, counts, true),
                    i,
                ) + #[trigger] self.gain(
                    self.touching(ids, d, false),
                    self.part(ids, d, counts, false),
                    i,
                ),
        decreases ids.len(),
    {
        if ids.len() > 0 {
            let front = ids.drop_last();
            let cfront = counts.drop_last();
            self.lemma_part(front, d, cfront);
            let on = self.buttons[ids.last()][d] > 0;
            crate::vector::lemma_total_push(self.part(front, d, cfront, on), counts.last());
            assert forall|i: int|
                self.gain(ids, counts, i) == self.gain(
                    self.touching(ids, d, true),
                    self.part(ids, d, counts, true),
                    i,
                ) + #[trigger] self.gain(
                    self.touching(ids, d, false),
                    self.part(ids, d, counts, false),
                    i,
                ) by {
                self.lemma_gain_push(
                    self.touching(front, d, on),
                    self.part(front, d, cfront, on),
                    ids.last(),
                    counts.last(),
                    i,
                );
                assert(self.gain(front, cfront, i) == self.gain(
                    self.touching(front, d, true),
                    self.part(front, d, cfront, true),
                    i,
                ) + self.gain(
                    self.touching(front, d, false),
                    self.part(front, d, cfront, false),
                    i,
                ));
            }
        }
    }

    /// Press counts woven from those of the buttons that add to a dimension and those
    /// of the others gain and sum to what the two gain and sum to together.
    pub proof fn lemma_weave(self, ids: Seq<int>, d: int, a: Seq<nat>, b: Seq<nat>)
        requires
            a.len() == self.touching(ids, d, true).len(),
            b.len() == self.touching(ids, d, false).len(),
        ensures
            self.weave(ids, d, a, b).len() == ids.len(),
            total(self.weave(ids, d, a, b)) == total(a) + total(b),
            forall|i: int|
                self.gain(ids, self.weave(ids, d, a, b), i) == self.gain(
                    self.touching(ids, d, true),
                    a,
                    i,
                ) + #[trigger] self.gain(self.touching(ids, d, false), b, i),
        decreases ids.len(),
    {
        if ids.len() > 0 {
            let front = ids.drop_last();
            let last = ids.last();
            if self.buttons[last][d] > 0 {
                let fa = a.drop_last();
                self.lemma_weave(front, d, fa, b);
                let w = self.weave(front, d, fa, b);
                crate::vector::lemma_total_push(w, a.last());
                assert forall|i: int|
                    self.gain(ids, self.weave(ids, d, a, b), i) == self.gain(
                        self.touching(ids, d, true),
                        a,
                        i,
                    ) + #[trigger] self.gain(self.touching(ids, d, false), b, i) by {
                    assert(self.weave(ids, d, a, b).drop_last() =~= w);
                    assert(self.touching(ids, d, true).drop_last() =~= self.touching(
                        front,
                        d,
                        true,
                    ));
                    assert(self.gain(front, w, i) == self.gain(self.touching(front, d, true), fa, i)
                        + self.gain(self.touching(front, d, false), b, i));
                }
            } else {
                let fb = b.drop_last();
                self.lemma_weave(front, d, a, fb);
                let w = self.weave(front, d, a, fb);
                crate::vector::lemma_total_push(w, b.last());
                assert forall|i: int|
                    self.gain(ids, self.weave(ids, d, a, b), i) == self.gain(
                        self.touching(ids, d, true),
                        a,
                        i,
                    ) + #[trigger] self.gain(self.touching(ids, d, false), b, i) by {
                    assert(self.weave(ids, d, a, b).drop_last() =~= w);
                    assert(self.touching(ids, d, false).drop_last() =~= self.touching(
                        front,
                        d,
                        false,
                    ));
                    assert(self.gain(front, w, i) == self.gain(self.touching(front, d, true), a, i)
                        + self.gain(self.touching(front, d, false), fb, i));
                }
            }
        }
    }

    /// Buttons that add nothing to a dimension gain nothing for it.
    pub proof fn lemma_gain_untouched(self, ids: Seq<int>, counts: Seq<nat>, d: int)
        requires
            forall|j: int| 0 <= j < ids.len() ==> self.buttons[#[trigger] ids[j]][d] == 0,
        ensures
            self.gain(ids, counts, d) == 0,
        decreases ids.len(),
    {
        if ids.len() > 0 && counts.len() > 0 {
            let front = ids.drop_last();
            assert forall|j: int| 0 <= j < front.len() implies self.buttons[#[trigger] front[j]][d]
                == 0 by {
                assert(front[j] == ids[j]);
            }
            self.lemma_gain_untouched(front, counts.drop_last(), d);
            assert(self.buttons[ids[ids.len() - 1]][d] == 0);
            assert(counts.last() * self.buttons[ids.last()][d] == 0) by (nonlinear_arith)
                requires
                    self.buttons[ids.last()][d] == 0,
            ;
        }
    }

    /// Pressing no button gains nothing.
    pub proof fn lemma_gain_nothing(self, ids: Seq<int>, d: int)
        ensures
            self.gain(ids, Seq::new(ids.len(), |j: int| 0nat), d) == 0,
        decreases ids.len(),
    {
        if ids.len() > 0 {
            let counts = Seq::new(ids.len(), |j: int| 0nat);
            let front = ids.drop_last();
            assert(counts.drop_last() =~= Seq::new(front.len(), |j: int| 0nat));
            self.lemma_gain_nothing(front, d);
            assert(counts.last() * self.buttons[ids.last()][d] == 0) by (nonlinear_arith)
                requires
                    counts.last() == 0,
            ;
        }
    }

    /// Buttons that each add one to a dimension gain for it as many as they are
    /// pressed.
    pub proof fn lemma_gain_unit(self, ids: Seq<int>, counts: Seq<nat>, d: int)
        requires
            counts.len() == ids.len(),
            forall|j: int| 0 <= j < ids.len() ==> self.buttons[#[trigger] ids[j]][d] == 1,
        ensures
            self.gain(ids, counts, d) == total(counts),
        decreases ids.len(),
    {
        if ids.len() > 0 {
            let front = ids.drop_last();
            assert forall|j: int| 0 <= j < front.len() implies self.buttons[#[trigger] front[j]][d]
                == 1 by {
                assert(front[j] == ids[j]);
            }
            self.lemma_gain_unit(front, counts.drop_last(), d);
            assert(self.buttons[ids[ids.len() - 1]][d] == 1);
            assert(counts.last() * self.buttons[ids.last()][d] == counts.last())
                by (nonlinear_arith)
                requires
                    self.buttons[ids.last()][d] == 1,
            ;
        }
    }

    /// The buttons gain for a dimension at least their presses times the least that
    /// one of them adds to it.
    pub proof fn lemma_gain_floor(self, ids: Seq<int>, counts: Seq<nat>, i: int)
        requires
            counts.len() == ids.len(),
        ensures
            total(counts) * self.least_cost(ids, i) <= self.gain(ids, counts, i),
        decreases ids.len(),
    {
        if ids.len() > 0 {
            let front = ids.drop_last();
            let cfront = counts.drop_last();
            self.lemma_gain_floor(front, cfront, i);
            let t = total(cfront);
            let c = counts.last();
            let v = self.buttons[ids.last()][i];
            let lf = self.least_cost(front, i);
            let l = self.least_cost(ids, i);
            let g = self.gain(front, cfront, i);
            assert(total(counts) == t + c);
            assert(self.gain(ids, counts, i) == g + c * v);
            if ids.len() == 1 {
                assert(cfront.len() == 0);
                assert(t == 0);
                assert(ids[0] == ids.last());
                assert((t + c) * l <= g + c * v) by (nonlinear_arith)
                    requires
                        t == 0,
                        l == v,
                ;
            } else {
                assert((t + c) * l <= g + c * v) by (nonlinear_arith)
                    requires
                        t * lf <= g,
                        l <= lf,
                        l <= v,
                ;
            }
        } else {
            assert(total(counts) * self.least_cost(ids, i) == 0) by (nonlinear_arith)
                requires
                    total(counts) == 0,
            ;
        }
    }

    /// What one button gains for a dimension is part of what all gain for it.
    pub proof fn lemma_gain_term(self, ids: Seq<int>, counts: Seq<nat>, i: int, j: int)
        requires
            counts.len() == ids.len(),
            0 <= j < ids.len(),
        ensures
            counts[j] * self.buttons[ids[j]][i] <= self.gain(ids, counts, i),
        decreases ids.len(),
    {
        if j < ids.len() - 1 {
            self.lemma_gain_term(ids.drop_last(), counts.drop_last(), i, j);
        }
    }

    /// A number of presses of a button that overshoots no dimension is within the
    /// button's cap, if the button adds to some dimension.
    pub proof fn lemma_cap_floor(self, current: Seq<nat>, k: int, x: nat, n: nat)
        requires
            forall|i: int|
                0 <= i < n && self.buttons[k][i] > 0 ==> x * self.buttons[k][i] <= #[trigger] self.space(
                    current,
                    i,
                ),
        ensures
            match self.cap_upto(current, k, n) {
                Some(c) => x <= c,
                None => forall|i: int| 0 <= i < n ==> self.buttons[k][i] == 0,
            },
        decreases n,
    {
        if n > 0 {
            let i = n - 1;
            self.lemma_cap_floor(current, k, x, i as nat);
            let v = self.buttons[k][i];
            let s = self.space(current, i);
            if v > 0 {
                assert(x <= s / v) by (nonlinear_arith)
                    requires
                        x * v <= s,
                        v > 0,
                ;
            }
        }
    }

    /// The best result over some distributions is at most the result of each of them.
    pub proof fn lemma_best_some(
        self,
        current: Seq<nat>,
        active: Seq<int>,
        inactive: Seq<int>,
        d: int,
        options: Seq<Seq<nat>>,
        j: int,
    )
        requires
            0 <= j < options.len(),
            self.outcome(current, active, inactive, d, options[j]) is Some,
        ensures
            self.best(current, active, inactive, d, options) is Some,
            self.best(current, active, inactive, d, options)->Some_0 <= self.outcome(
                current,
                active,
                inactive,
                d,
                options[j],
            )->Some_0,
        decreases options.len(),
    {
        let front = options.drop_last();
        let before = self.best(current, active, inactive, d, front);
        let here = self.outcome(current, active, inactive, d, options.last());
        assert(self.best(current, active, inactive, d, options) == crate::search::fewer(before, here));
        if j < options.len() - 1 {
            assert(front[j] == options[j]);
            self.lemma_best_some(current, active, inactive, d, front, j);
        }
    }

    /// The best result over some distributions is the result of one of them.
    pub proof fn lemma_best_from(
        self,
        current: Seq<nat>,
        active: Seq<int>,
        inactive: Seq<int>,
        d: int,
        options: Seq<Seq<nat>>,
    ) -> (j: int)
        requires
            self.best(current, active, inactive, d, options) is Some,
        ensures
            0 <= j < options.len(),
            self.outcome(current, active, inactive, d, options[j]) == self.best(
                current,
                active,
                inactive,
                d,
                options,
            ),
        decreases options.len(),
    {
        let front = options.drop_last();
        let before = self.best(current, active, inactive, d, front);
        let here = self.outcome(current, active, inactive, d, options.last());
        assert(self.best(current, active, inactive, d, options) == crate::search::fewer(before, here));
        if here == self.best(current, active, inactive, d, options) {
            options.len() - 1
        } else {
            let j = self.lemma_best_from(current, active, inactive, d, front);
            assert(front[j] == options[j]);
            j
        }
    }

    /// What the search returns is the number of some presses that lead from the state
    /// to the target exactly.
    pub proof fn lemma_search_sound(self, current: Seq<nat>, ids: Seq<int>) -> (counts: Seq<nat>)
        requires
            self.wf(),
            current.len() == self.target.len(),
            self.valid_ids(ids),
            self.search(current, ids) is Some,
        ensures
            self.completes(current, ids, counts),
            total(counts) == self.search(current, ids)->Some_0,
        decreases ids.len(),
    {
        if ids.len() == 0 || self.pick(current, ids) is None {
            let counts = Seq::new(ids.len(), |j: int| 0nat);
            lemma_total_zeros(ids.len());
            assert forall|d: int| 0 <= d < self.target.len() implies current[d] + self.gain(
                ids,
                counts,
                d,
            ) == self.target[d] by {
                self.lemma_gain_nothing(ids, d);
            }
            counts
        } else {
            let d = self.pick(current, ids)->Some_0;
            self.lemma_pick_upto(current, ids, self.target.len());
            let active = self.touching(ids, d, true);
            let inactive = self.touching(ids, d, false);
            let needed = self.space(current, d);
            let bounds = self.caps(current, active);
            let options = compositions(bounds, needed);
            let j = self.lemma_best_from(current, active, inactive, d, options);
            let a = options[j];
            assert(options.contains(a));
            lemma_compositions_complete(bounds, needed, a);
            self.lemma_touching(ids, d, false);
            let next = self.moved(current, active, a);
            let b = self.lemma_search_sound(next, inactive);
            let counts = self.weave(ids, d, a, b);
            self.lemma_weave(ids, d, a, b);
            assert forall|i: int| 0 <= i < self.target.len() implies current[i] + self.gain(
                ids,
                counts,
                i,
            ) == self.target[i] by {
                assert(next[i] + self.gain(inactive, b, i) == self.target[i]);
            }
            counts
        }
    }

    /// Pruning never cuts a branch that leads to the target. Where no button adds more
    /// than one to a dimension and some presses of the buttons `ids` lead from the
    /// state to the target exactly, the branch on the dimension that is picked is not
    /// cut; the presses of the buttons that add to that dimension are one of the
    /// distributions that the branch tries, they land, and the presses of the other
    /// buttons lead on to the target.
    pub proof fn lemma_branch_open(self, current: Seq<nat>, ids: Seq<int>, counts: Seq<nat>, d: int)
        requires
            self.wf(),
            self.binary(),
            current.len() == self.target.len(),
            self.valid_ids(ids),
            self.completes(current, ids, counts),
            self.pick(current, ids) == Some(d),
        ensures
            self.touching(ids, d, false).len() < ids.len(),
            !self.pruned(current, self.touching(ids, d, true), d),
            is_composition(
                self.part(ids, d, counts, true),
                self.caps(current, self.touching(ids, d, true)),
                self.space(current, d),
            ),
            self.lands(current, self.touching(ids, d, true), self.part(ids, d, counts, true), d),
            self.completes(
                self.moved(current, self.touching(ids, d, true), self.part(ids, d, counts, true)),
                self.touching(ids, d, false),
                self.part(ids, d, counts, false),
            ),
            total(counts) == total(self.part(ids, d, counts, true)) + total(
                self.part(ids, d, counts, false),
            ),
    {
        self.lemma_pick_upto(current, ids, self.target.len());
        let active = self.touching(ids, d, true);
        let inactive = self.touching(ids, d, false);
        let a = self.part(ids, d, counts, true);
        let b = self.part(ids, d, counts, false);
        let needed = self.space(current, d);
        self.lemma_part(ids, d, counts);
        self.lemma_touching(ids, d, true);
        self.lemma_touching(ids, d, false);
        self.lemma_touching_lens(ids, d);
        assert forall|j: int| 0 <= j < inactive.len() implies self.buttons[#[trigger] inactive[j]][d]
            == 0 by {
            assert(inactive.contains(inactive[j]));
        }
        assert forall|j: int| 0 <= j < active.len() implies self.buttons[#[trigger] active[j]][d]
            == 1 by {
            assert(active.contains(active[j]));
            assert(0 <= active[j] < self.buttons.len());
        }
        self.lemma_gain_untouched(inactive, b, d);
        self.lemma_gain_unit(active, a, d);
        assert(current[d] + self.gain(ids, counts, d) == self.target[d]);
        assert(self.gain(ids, counts, d) == self.gain(active, a, d) + self.gain(inactive, b, d));
        assert(total(a) == needed);
        assert(active.len() > 0) by {
            if active.len() == 0 {
                assert(total(a) == 0);
            }
        }
        assert forall|i: int| 0 <= i < self.target.len() implies self.gain(active, a, i)
            <= #[trigger] self.space(current, i) && current[i] + self.gain(active, a, i) + self.gain(
            inactive,
            b,
            i,
        ) == self.target[i] by {
            assert(current[i] + self.gain(ids, counts, i) == self.target[i]);
            assert(self.gain(ids, counts, i) == self.gain(active, a, i) + self.gain(inactive, b, i));
        }
        assert(!self.pruned(current, active, d)) by {
            assert forall|i: int| 0 <= i < self.target.len() && i != d implies needed
                * self.least_cost(active, i) <= self.space(current, i) by {
                self.lemma_gain_floor(active, a, i);
                assert(self.gain(active, a, i) <= self.space(current, i));
            }
        }
        let bounds = self.caps(current, active);
        assert forall|j: int| 0 <= j < a.len() implies a[j] <= bounds[j] by {
            let k = active[j];
            assert forall|i: int|
                0 <= i < self.target.len() && self.buttons[k][i] > 0 implies a[j] * self.buttons[k][i]
                <= #[trigger] self.space(current, i) by {
                self.lemma_gain_term(active, a, i, j);
                assert(self.gain(active, a, i) <= self.space(current, i));
            }
            self.lemma_cap_floor(current, k, a[j], self.target.len());
            assert(self.buttons[k][d] == 1);
        }
        let next = self.moved(current, active, a);
        assert(self.lands(current, active, a, d)) by {
            assert forall|i: int| 0 <= i < self.target.len() implies current[i] + self.gain(
                active,
                a,
                i,
            ) <= self.target[i] by {
                assert(self.gain(active, a, i) <= self.space(current, i));
            }
        }
        assert(self.completes(next, inactive, b)) by {
            assert forall|i: int| 0 <= i < self.target.len() implies next[i] + self.gain(
                inactive,
                b,
                i,
            ) == self.target[i] by {
                assert(self.gain(active, a, i) <= self.space(current, i));
            }
        }
    }

    /// Where no button adds more than one to a dimension, the search finds presses
    /// whenever some lead from the state to the target exactly, and no such presses
    /// are fewer than what it returns.
    pub proof fn lemma_search_complete(self, current: Seq<nat>, ids: Seq<int>, counts: Seq<nat>)
        requires
            self.wf(),
            self.binary(),
            current.len() == self.target.len(),
            self.valid_ids(ids),
            self.completes(current, ids, counts),
        ensures
            self.search(current, ids) is Some,
            self.search(current, ids)->Some_0 <= total(counts),
        decreases ids.len(),
    {
        self.lemma_pick_upto(current, ids, self.target.len());
        if ids.len() == 0 || self.pick(current, ids) is None {
            assert forall|d: int| 0 <= d < self.target.len() implies current[d] == self.target[d] by {
                assert(current[d] + self.gain(ids, counts, d) == self.target[d]);
            }
            assert(current =~= self.target);
        } else {
            let d = self.pick(current, ids)->Some_0;
            let active = self.touching(ids, d, true);
            let inactive = self.touching(ids, d, false);
            let a = self.part(ids, d, counts, true);
            let b = self.part(ids, d, counts, false);
            let needed = self.space(current, d);
            let bounds = self.caps(current, active);
            self.lemma_branch_open(current, ids, counts, d);
            self.lemma_touching(ids, d, false);
            let options = compositions(bounds, needed);
            lemma_compositions_complete(bounds, needed, a);
            let j = choose|j: int| 0 <= j < options.len() && options[j] == a;
            let next = self.moved(current, active, a);
            self.lemma_search_complete(next, inactive, b);
            self.lemma_best_some(current, active, inactive, d, options, j);
        }
    }

    /// What pressing the first `k` buttons gains for a dimension is the column of that
    /// dimension times the press counts.
    pub proof fn lemma_gain_dot(self, x: Seq<nat>, d: int, k: int)
        requires
            0 <= k <= self.buttons.len(),
            x.len() == self.buttons.len(),
        ensures
            self.gain(iota(k as nat), x.take(k), d) == dot(column(self.buttons, d).take(k), x.take(k)),
        decreases k,
    {
        if k > 0 {
            self.lemma_gain_dot(x, d, k - 1);
            let col = column(self.buttons, d);
            assert(iota(k as nat).drop_last() =~= iota((k - 1) as nat));
            assert(x.take(k).drop_last() =~= x.take(k - 1));
            assert(col.take(k).drop_last() =~= col.take(k - 1));
            assert(x[k - 1] * self.buttons[k - 1][d] == self.buttons[k - 1][d] * x[k - 1])
                by (nonlinear_arith);
        }
    }

    /// Presses lead from zero to the target with all buttons exactly if they reach the
    /// target.
    pub proof fn lemma_completes_reaches(self, x: Seq<nat>)
        ensures
            self.completes(origin(self.target.len()), iota(self.buttons.len()), x) <==> self.reaches(x),
    {
        if x.len() == self.buttons.len() {
            let k = self.buttons.len() as int;
            assert forall|d: int| 0 <= d < self.target.len() implies self.gain(
                iota(self.buttons.len()),
                x,
                d,
            ) == dot(column(self.buttons, d), x) by {
                self.lemma_gain_dot(x, d, k);
                assert(x.take(k) =~= x);
                assert(column(self.buttons, d).take(k) =~= column(self.buttons, d));
            }
        }
    }

    /// What the search returns from zero with all buttons is the number of some
    /// presses that reach the target. Where no button adds more than one to a
    /// dimension, it is the least number of presses that reach the target, and the
    /// search returns nothing only if no presses reach it.
    pub proof fn lemma_search_optimal(self)
        requires
            self.wf(),
        ensures
            match self.search(origin(self.target.len()), iota(self.buttons.len())) {
                Some(n) => (exists|x: Seq<nat>| self.reaches(x) && total(x) == n) && (self.binary()
                    ==> self.is_fewest(n)),
                None => self.binary() ==> !self.solvable(),
            },
    {
        let start = origin(self.target.len());
        let all = iota(self.buttons.len());
        if self.search(start, all) is Some {
            let x = self.lemma_search_sound(start, all);
            self.lemma_completes_reaches(x);
        }
        if self.binary() {
            assert forall|x: Seq<nat>| self.reaches(x) implies self.search(start, all) is Some
                && self.search(start, all)->Some_0 <= total(x) by {
                self.lemma_completes_reaches(x);
                self.lemma_search_complete(start, all, x);
            }
        }
    }
}

} // verus!
