use vstd::prelude::*;
use crate::vector::total;
use crate::compositions::{smaller, compositions};

verus! {

/// A target vector and the buttons that may be pressed to reach it.
pub struct Puzzle {
    pub target: Seq<nat>,
    pub buttons: Seq<Seq<nat>>,
}

/// The lesser of two results, where `None` stands for no result.
pub open spec fn fewer(a: Option<nat>, b: Option<nat>) -> Option<nat> {
    match (a, b) {
        (None, _) => b,
        (_, None) => a,
        (Some(p), Some(q)) => Some(smaller(p, q)),
    }
}

/// The numbers rise strictly.
pub open spec fn ascending(ids: Seq<int>) -> bool {
    forall|i: int, j: int| 0 <= i < j < ids.len() ==> ids[i] < ids[j]
}

impl Puzzle {
    /// Every button has one component for each dimension of the target.
    pub open spec fn wf(self) -> bool {
        forall|k: int| 0 <= k < self.buttons.len() ==> (#[trigger] self.buttons[k]).len()
            == self.target.len()
    }

    /// No button adds more than one to a dimension at a press.
    pub open spec fn binary(self) -> bool {
        forall|k: int, d: int|
            0 <= k < self.buttons.len() && 0 <= d < self.target.len() ==> #[trigger] self.buttons[k][d]
                <= 1
    }

    /// Each number is the index of a button.
    pub open spec fn valid_ids(self, ids: Seq<int>) -> bool {
        forall|j: int| 0 <= j < ids.len() ==> 0 <= #[trigger] ids[j] < self.buttons.len()
    }

    /// What dimension `d` gains when button `ids[j]` is pressed `counts[j]` times, for
    /// each `j`.
    pub open spec fn gain(self, ids: Seq<int>, counts: Seq<nat>, d: int) -> nat
        decreases ids.len(),
    {
        if ids.len() == 0 || counts.len() == 0 {
            0
        } else {
            self.gain(ids.drop_last(), counts.drop_last(), d) + counts.last()
                * self.buttons[ids.last()][d]
        }
    }

    /// Pressing button `ids[j]` `counts[j]` times, for each `j`, leads from `current`
    /// to the target exactly.
    pub open spec fn completes(self, current: Seq<nat>, ids: Seq<int>, counts: Seq<nat>) -> bool {
        &&& counts.len() == ids.len()
        &&& forall|d: int|
            0 <= d < self.target.len() ==> current[d] + self.gain(ids, counts, d) == self.target[d]
    }

    /// What dimension `d` still lacks.
    pub open spec fn space(self, current: Seq<nat>, d: int) -> nat {
        if current[d] <= self.target[d] {
            (self.target[d] - current[d]) as nat
        } else {
            0
        }
    }

    /// The sum of what the buttons `ids` add to dimension `d` at one press each.
    pub open spec fn frequency(self, ids: Seq<int>, d: int) -> nat
        decreases ids.len(),
    {
        if ids.len() == 0 {
            0
        } else {
            self.frequency(ids.drop_last(), d) + self.buttons[ids.last()][d]
        }
    }

    /// Among the first `n` dimensions, the one to branch on: the first of those with
    /// the least frequency among the dimensions that are still short of the target.
    pub open spec fn pick_upto(self, current: Seq<nat>, ids: Seq<int>, n: nat) -> Option<int>
        decreases n,
    {
        if n == 0 {
            None
        } else {
            let d = n - 1;
            let before = self.pick_upto(current, ids, d as nat);
            if current[d] < self.target[d] && (before is None || self.frequency(ids, d)
                < self.frequency(ids, before->Some_0)) {
                Some(d)
            } else {
                before
            }
        }
    }

    /// The dimension to branch on.
    pub open spec fn pick(self, current: Seq<nat>, ids: Seq<int>) -> Option<int> {
        self.pick_upto(current, ids, self.target.len())
    }

    /// Of the buttons `ids`, in order, those that add to dimension `d` (`wanted`), or
    /// those that do not.
    pub open spec fn touching(self, ids: Seq<int>, d: int, wanted: bool) -> Seq<int>
        decreases ids.len(),
    {
        if ids.len() == 0 {
            Seq::empty()
        } else {
            let rest = self.touching(ids.drop_last(), d, wanted);
            if (self.buttons[ids.last()][d] > 0) == wanted {
                rest.push(ids.last())
            } else {
                rest
            }
        }
    }

    /// The least that one of the buttons `ids` adds to dimension `d` at a press; zero
    /// where there is no button.
    pub open spec fn least_cost(self, ids: Seq<int>, d: int) -> nat
        decreases ids.len(),
    {
        if ids.len() == 0 {
            0
        } else if ids.len() == 1 {
            self.buttons[ids[0]][d]
        } else {
            smaller(self.least_cost(ids.drop_last(), d), self.buttons[ids.last()][d])
        }
    }

    /// The branch on dimension `d` is cut: as many presses of the active buttons as
    /// dimension `d` lacks, each adding the least any of them adds, overshoot another
    /// dimension.
    pub open spec fn pruned(self, current: Seq<nat>, active: Seq<int>, d: int) -> bool {
        exists|i: int|
            0 <= i < self.target.len() && i != d && self.space(current, d) * self.least_cost(
                active,
                i,
            ) > self.space(current, i)
    }

    /// Over the first `n` dimensions to which button `k` adds, the least number of
    /// presses that fills one of them.
    pub open spec fn cap_upto(self, current: Seq<nat>, k: int, n: nat) -> Option<nat>
        decreases n,
    {
        if n == 0 {
            None
        } else {
            let i = n - 1;
            let before = self.cap_upto(current, k, i as nat);
            if self.buttons[k][i] > 0 {
                let here = self.space(current, i) / self.buttons[k][i];
                match before {
                    None => Some(here),
                    Some(b) => Some(smaller(b, here)),
                }
            } else {
                before
            }
        }
    }

    /// How often button `k` can be pressed without overshooting a dimension; zero for
    /// a button that adds to none.
    pub open spec fn cap(self, current: Seq<nat>, k: int) -> nat {
        match self.cap_upto(current, k, self.target.len()) {
            Some(c) => c,
            None => 0,
        }
    }

    /// The caps of the buttons `active`.
    pub open spec fn caps(self, current: Seq<nat>, active: Seq<int>) -> Seq<nat> {
        Seq::new(active.len(), |j: int| self.cap(current, active[j]))
    }

    /// The state after button `active[j]` has been pressed `counts[j]` times, for each
    /// `j`.
    pub open spec fn moved(self, current: Seq<nat>, active: Seq<int>, counts: Seq<nat>) -> Seq<nat> {
        Seq::new(self.target.len(), |i: int| current[i] + self.gain(active, counts, i))
    }

    /// Those presses overshoot no dimension and fill dimension `d` exactly.
    pub open spec fn lands(self, current: Seq<nat>, active: Seq<int>, counts: Seq<nat>, d: int) -> bool {
        &&& forall|i: int|
            0 <= i < self.target.len() ==> current[i] + self.gain(active, counts, i)
                <= self.target[i]
        &&& current[d] + self.gain(active, counts, d) == self.target[d]
    }

    /// No press is needed if the state is the target, and none helps otherwise.
    pub open spec fn finished(self, current: Seq<nat>) -> Option<nat> {
        if current == self.target {
            Some(0)
        } else {
            None
        }
    }

    /// What the search returns from the state `current` with the buttons `ids`: the
    /// presses of the best branch it finds, or `None` if it finds none.
    pub open spec fn search(self, current: Seq<nat>, ids: Seq<int>) -> Option<nat>
        decreases ids.len(), 0int, 0int,
    {
        if ids.len() == 0 {
            self.finished(current)
        } else {
            match self.pick(current, ids) {
                None => self.finished(current),
                Some(d) => {
                    let active = self.touching(ids, d, true);
                    let inactive = self.touching(ids, d, false);
                    if inactive.len() >= ids.len() || self.pruned(current, active, d) {
                        None
                    } else {
                        self.best(
                            current,
                            active,
                            inactive,
                            d,
                            compositions(self.caps(current, active), self.space(current, d)),
                        )
                    }
                },
            }
        }
    }

    /// The best result over the distributions `options` of presses to the buttons
    /// `active`.
    pub open spec fn best(
        self,
        current: Seq<nat>,
        active: Seq<int>,
        inactive: Seq<int>,
        d: int,
        options: Seq<Seq<nat>>,
    ) -> Option<nat>
        decreases inactive.len(), 2int, options.len(),
    {
        if options.len() == 0 {
            None
        } else {
            fewer(
                self.best(current, active, inactive, d, options.drop_last()),
                self.outcome(current, active, inactive, d, options.last()),
            )
        }
    }

    /// The result of one distribution of presses to the buttons `active`: its presses
    /// and those that the search needs from the state it leads to, if it lands.
    pub open spec fn outcome(
        self,
        current: Seq<nat>,
        active: Seq<int>,
        inactive: Seq<int>,
        d: int,
        counts: Seq<nat>,
    ) -> Option<nat>
        decreases inactive.len(), 1int, 0int,
    {
        if self.lands(current, active, counts, d) {
            match self.search(self.moved(current, active, counts), inactive) {
                Some(extra) => Some(total(counts) + extra),
                None => None,
            }
        } else {
            None
        }
    }
}

/// The state in which nothing has been pressed.
pub open spec fn origin(dims: nat) -> Seq<nat> {
    Seq::new(dims, |i: int| 0nat)
}

/// The indices of the first `n` buttons.
pub open spec fn iota(n: nat) -> Seq<int> {
    Seq::new(n, |i: int| i)
}

/// Rising numbers below `limit`, from zero on, are `limit` at most.
pub proof fn lemma_ascending_len(ids: Seq<int>, limit: nat)
    requires
        ascending(ids),
        forall|j: int| 0 <= j < ids.len() ==> 0 <= #[trigger] ids[j] < limit,
    ensures
        ids.len() <= limit,
{
    if ids.len() > 0 {
        lemma_ascending_floor(ids, ids.len() - 1);
    }
}

/// The entry at place `j` of rising numbers from zero on is `j` at least.
proof fn lemma_ascending_floor(ids: Seq<int>, j: int)
    requires
        ascending(ids),
        0 <= j < ids.len(),
        ids[0] >= 0,
    ensures
        ids[j] >= j,
    decreases j,
{
    if j > 0 {
        lemma_ascending_floor(ids, j - 1);
    }
}

impl Puzzle {
    /// The buttons that add to a dimension, and those that do not, are buttons of the
    /// list they were taken from, in its order.
    pub proof fn lemma_touching(self, ids: Seq<int>, d: int, wanted: bool)
        ensures
            self.touching(ids, d, wanted).len() <= ids.len(),
            forall|x: int| #[trigger]
                self.touching(ids, d, wanted).contains(x) ==> ids.contains(x) && (self.buttons[x][d]
                    > 0) == wanted,
            self.valid_ids(ids) ==> self.valid_ids(self.touching(ids, d, wanted)),
            ascending(ids) ==> ascending(self.touching(ids, d, wanted)),
        decreases ids.len(),
    {
        let t = self.touching(ids, d, wanted);
        if ids.len() > 0 {
            let front = ids.drop_last();
            let rest = self.touching(front, d, wanted);
            self.lemma_touching(front, d, wanted);
            assert forall|x: int| #[trigger] t.contains(x) implies ids.contains(x) && (
            self.buttons[x][d] > 0) == wanted by {
                let j = choose|j: int| 0 <= j < t.len() && t[j] == x;
                if j < rest.len() {
                    assert(rest.contains(x));
                    let i = choose|i: int| 0 <= i < front.len() && front[i] == x;
                    assert(ids[i] == x);
                } else {
                    assert(ids[ids.len() - 1] == x);
                }
            }
            if self.valid_ids(ids) {
                assert(self.valid_ids(front));
                assert forall|j: int| 0 <= j < t.len() implies 0 <= #[trigger] t[j]
                    < self.buttons.len() by {
                    if j < rest.len() {
                        assert(rest[j] == t[j]);
                    }
                }
            }
            if ascending(ids) {
                assert(ascending(front));
                assert forall|i: int, j: int| 0 <= i < j < t.len() implies t[i] < t[j] by {
                    if j < rest.len() {
                        assert(rest[i] < rest[j]);
                    } else {
                        assert(rest.contains(rest[i]));
                        let q = choose|q: int| 0 <= q < front.len() && front[q] == rest[i];
                        assert(ids[q] < ids[ids.len() - 1]);
                    }
                }
            }
        }
    }

    /// Each button either adds to a dimension or does not.
    pub proof fn lemma_touching_lens(self, ids: Seq<int>, d: int)
        ensures
            self.touching(ids, d, true).len() + self.touching(ids, d, false).len() == ids.len(),
        decreases ids.len(),
    {
        if ids.len() > 0 {
            self.lemma_touching_lens(ids.drop_last(), d);
        }
    }

    /// The dimension to branch on is short of the target; there is none only if no
    /// dimension is short.
    pub proof fn lemma_pick_upto(self, current: Seq<nat>, ids: Seq<int>, n: nat)
        ensures
            match self.pick_upto(current, ids, n) {
                Some(d) => 0 <= d < n && current[d] < self.target[d] && forall|e: int|
                    0 <= e < n && current[e] < self.target[e] ==> self.frequency(ids, d)
                        < self.frequency(ids, e) || (self.frequency(ids, d) == self.frequency(ids, e)
                        && d <= e),
                None => forall|e: int| 0 <= e < n ==> current[e] >= self.target[e],
            },
        decreases n,
    {
        if n > 0 {
            self.lemma_pick_upto(current, ids, (n - 1) as nat);
        }
    }

    /// The search presses no more often than the number of buttons times the largest
    /// component of the target.
    pub proof fn lemma_search_bound(self, current: Seq<nat>, ids: Seq<int>, limit: nat)
        requires
            forall|d: int| 0 <= d < self.target.len() ==> self.target[d] <= limit,
        ensures
            match self.search(current, ids) {
                Some(n) => n <= ids.len() * limit,
                None => true,
            },
        decreases ids.len(), 0int, 0int,
    {
        if ids.len() > 0 {
            match self.pick(current, ids) {
                None => {},
                Some(d) => {
                    self.lemma_pick_upto(current, ids, self.target.len());
                    let active = self.touching(ids, d, true);
                    let inactive = self.touching(ids, d, false);
                    if !(inactive.len() >= ids.len() || self.pruned(current, active, d)) {
                        let needed = self.space(current, d);
                        let options = compositions(self.caps(current, active), needed);
                        assert forall|j: int| 0 <= j < options.len() implies total(
                            #[trigger] options[j],
                        ) == needed by {
                            crate::compositions::lemma_compositions_complete(
                                self.caps(current, active),
                                needed,
                                options[j],
                            );
                            assert(options.contains(options[j]));
                        }
                        self.lemma_best_bound(current, active, inactive, d, options, limit, needed);
                        assert(needed + inactive.len() * limit <= ids.len() * limit)
                            by (nonlinear_arith)
                            requires
                                needed <= limit,
                                inactive.len() < ids.len(),
                        ;
                    }
                },
            }
        }
    }

    /// The best result over distributions that each hand out `needed` is no more than `needed`
    /// and what the search may add.
    proof fn lemma_best_bound(
        self,
        current: Seq<nat>,
        active: Seq<int>,
        inactive: Seq<int>,
        d: int,
        options: Seq<Seq<nat>>,
        limit: nat,
        needed: nat,
    )
        requires
            forall|d: int| 0 <= d < self.target.len() ==> self.target[d] <= limit,
            forall|j: int| 0 <= j < options.len() ==> total(#[trigger] options[j]) == needed,
        ensures
            match self.best(current, active, inactive, d, options) {
                Some(n) => n <= needed + inactive.len() * limit,
                None => true,
            },
        decreases inactive.len(), 2int, options.len(),
    {
        if options.len() > 0 {
            let front = options.drop_last();
            assert forall|j: int| 0 <= j < front.len() implies total(#[trigger] front[j])
                == needed by {
                assert(front[j] == options[j]);
            }
            self.lemma_best_bound(current, active, inactive, d, front, limit, needed);
            let counts = options.last();
            assert(total(options[options.len() - 1]) == needed);
            if self.lands(current, active, counts, d) {
                self.lemma_search_bound(self.moved(current, active, counts), inactive, limit);
            }
            let before = self.best(current, active, inactive, d, front);
            let here = self.outcome(current, active, inactive, d, counts);
            assert(self.best(current, active, inactive, d, options) == fewer(before, here));
        }
    }
}

} // verus!
