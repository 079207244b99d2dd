//! Why a breadth-first search finds a goal by the least number of
//! crossings: its frontier holds the states level by level.

use crate::cannibals::frontier::Pending;
use crate::cannibals::frontier::Strategy;
use crate::cannibals::search::Phase;
use crate::cannibals::search::SearchModel;
use crate::cannibals::search_laws::is_safe_walk;
use crate::cannibals::search_laws::reaches_goal;
use crate::cannibals::world_state::Configuration;
use vstd::prelude::*;

verus! {

impl SearchModel {
    /// No entry of the frontier has a path cost below `k`.
    pub open spec fn level_at_least(self, k: int) -> bool {
        forall|i: int| 0 <= i < self.pending.len() ==> (#[trigger] self.pending[i]).path_cost >= k
    }

    /// The path costs in the frontier do not fall from one entry to a later
    /// one, and rise by one at most.
    pub open spec fn costs_in_order(self) -> bool {
        forall|i: int, j: int|
            0 <= i <= j < self.pending.len() ==> (#[trigger] self.pending[i]).path_cost <= (
            #[trigger] self.pending[j]).path_cost <= self.pending[i].path_cost + 1
    }

    /// `c` has been met, and no entry for it has a path cost above `k`.
    pub open spec fn met_within(self, c: Configuration, k: int) -> bool {
        &&& self.visited.contains(c)
        &&& forall|i: int|
            0 <= i < self.pending.len() && (#[trigger] self.pending[i]).configuration() == c
                ==> self.pending[i].path_cost <= k
    }

    /// Where a safe walk ends behind a configuration that has left the
    /// frontier, and the frontier has not come past that level, its end has
    /// been met by no more crossings than the walk makes.
    pub open spec fn walks_are_met(self) -> bool {
        forall|path: Seq<Configuration>|
            #![trigger is_safe_walk(self.origin(), path)]
            is_safe_walk(self.origin(), path) && path.len() >= 2 && self.level_at_least(
                path.len() - 2,
            ) && self.visited.contains(path[path.len() - 2]) && !self.waits(path[path.len() - 2])
                ==> self.met_within(path.last(), path.len() - 1)
    }

    /// What holds, beyond `inv`, of a running search whose frontier is
    /// first in, first out.
    pub open spec fn is_level_order(self) -> bool {
        self.phase == Phase::Running ==> self.costs_in_order() && self.walks_are_met()
    }

    /// What offering successors does to the frontier and to the set of the
    /// configurations met: the old entries stay in front, the new ones cost
    /// one crossing more than the parent, and the configurations that are
    /// newly met are those of the new entries.
    pub proof fn lemma_expanded_shape(self, parent: Pending, n: nat)
        ensures
            self.expanded(parent, n).pending.len() >= self.pending.len(),
            forall|i: int|
                0 <= i < self.pending.len() ==> #[trigger] self.expanded(parent, n).pending[i]
                    == self.pending[i],
            forall|i: int|
                self.pending.len() <= i < self.expanded(parent, n).pending.len() ==> {
                    let entry = #[trigger] self.expanded(parent, n).pending[i];
                    &&& entry.path_cost == parent.path_cost + 1
                    &&& !self.visited.contains(entry.configuration())
                    &&& self.expanded(parent, n).visited.contains(entry.configuration())
                },
            forall|c: Configuration|
                self.visited.contains(c) ==> #[trigger] self.expanded(parent, n).visited.contains(
                    c,
                ),
            forall|c: Configuration| #[trigger]
                self.expanded(parent, n).visited.contains(c) && !self.visited.contains(c)
                    ==> self.expanded(parent, n).waits(c),
        decreases n,
    {
        if n > 0 {
            let before = self.expanded(parent, (n - 1) as nat);
            self.lemma_expanded_shape(parent, (n - 1) as nat);
            let next = parent.configuration().successors()[n - 1];
            let then = before.offered(parent, next);
            assert(then == self.expanded(parent, n));
            if next.is_failure() || before.visited.contains(next) {
            } else {
                assert(then.pending == before.pending.push(parent.child(next)));
                assert forall|i: int| 0 <= i < self.pending.len() implies #[trigger] then.pending[i]
                    == self.pending[i] by {
                    assert(then.pending[i] == before.pending[i]);
                }
                assert forall|i: int| self.pending.len() <= i < then.pending.len() implies {
                    let entry = #[trigger] then.pending[i];
                    &&& entry.path_cost == parent.path_cost + 1
                    &&& !self.visited.contains(entry.configuration())
                    &&& then.visited.contains(entry.configuration())
                } by {
                    if i < before.pending.len() {
                        assert(then.pending[i] == before.pending[i]);
                        assert(before.visited.contains(before.pending[i].configuration()));
                    } else {
                        assert(then.pending[i] == parent.child(next));
                        assert(parent.child(next).configuration() == next);
                    }
                }
                assert forall|c: Configuration| #[trigger]
                    then.visited.contains(c) && !self.visited.contains(c) implies then.waits(
                    c,
                ) by {
                    if c == next {
                        assert(then.pending[then.pending.len() - 1].configuration() == c);
                    } else {
                        assert(before.waits(c));
                        let i = choose|i: int|
                            0 <= i < before.pending.len() && (
                            #[trigger] before.pending[i]).configuration() == c;
                        assert(then.pending[i] == before.pending[i]);
                    }
                }
            }
        }
    }

    /// A walk that is cut short by one crossing is a safe walk still.
    pub proof fn lemma_shorter_walk(root: Configuration, path: Seq<Configuration>)
        requires
            is_safe_walk(root, path),
            path.len() >= 2,
        ensures
            is_safe_walk(root, path.drop_last()),
            path[path.len() - 2].leads_to(path.last()),
            !path.last().is_failure(),
    {
        let front = path.drop_last();
        assert forall|i: int| 0 <= i < front.len() - 1 implies (#[trigger] front[i]).leads_to(
            front[i + 1],
        ) by {
            assert(front[i] == path[i]);
            assert(front[i + 1] == path[i + 1]);
            assert(path[i].leads_to(path[i + 1]));
        }
        assert forall|i: int| 1 <= i < front.len() implies !(#[trigger] front[i]).is_failure() by {
            assert(front[i] == path[i]);
        }
        assert(path[path.len() - 2].leads_to(path[path.len() - 2 + 1]));
        assert(!path[path.len() - 1].is_failure());
    }

    /// The end of a safe walk behind a configuration that has left the
    /// frontier has been met.
    proof fn lemma_end_is_met(self, path: Seq<Configuration>)
        requires
            self.inv(),
            self.phase == Phase::Running,
            is_safe_walk(self.origin(), path),
            path.len() >= 2,
            self.visited.contains(path[path.len() - 2]),
            !self.waits(path[path.len() - 2]),
        ensures
            self.visited.contains(path.last()),
    {
        Self::lemma_shorter_walk(self.origin(), path);
        let from = path[path.len() - 2];
        assert(self.is_closed(from));
        let j = choose|j: int| 0 <= j < from.successors().len() && from.successors()[j] == path.last();
        assert(!from.successors()[j].is_failure());
    }

    /// While the frontier has not come past the level of a safe walk, the
    /// end of the walk has been met by no more crossings than the walk makes.
    pub proof fn lemma_walk_is_met(self, path: Seq<Configuration>)
        requires
            self.inv(),
            self.phase == Phase::Running,
            self.walks_are_met(),
            is_safe_walk(self.origin(), path),
            self.level_at_least(path.len() - 1),
        ensures
            self.met_within(path.last(), path.len() - 1),
        decreases path.len(),
    {
        if path.len() == 1 {
            assert forall|i: int|
                0 <= i < self.pending.len() && (#[trigger] self.pending[i]).configuration()
                    == path.last() implies self.pending[i].path_cost <= 0 by {
                assert(self.descends(self.pending[i]));
                self.lemma_descendant(self.pending[i]);
            }
        } else {
            let front = path.drop_last();
            Self::lemma_shorter_walk(self.origin(), path);
            self.lemma_walk_is_met(front);
            assert(front.last() == path[path.len() - 2]);
            if self.waits(front.last()) {
                let i = choose|i: int|
                    0 <= i < self.pending.len() && (#[trigger] self.pending[i]).configuration()
                        == front.last();
                assert(self.pending[i].path_cost <= front.len() - 1);
                assert(self.pending[i].path_cost >= path.len() - 1);
            }
        }
    }

    /// The start of a breadth-first search puts its frontier in level order.
    pub proof fn lemma_level_order_started(self)
        requires
            self.inv(),
            self.phase == Phase::Idle,
        ensures
            self.started().is_level_order(),
    {
        let begun = SearchModel {
            phase: Phase::Running,
            visited: self.visited.insert(self.origin()),
            visited_states: self.visited_states + 1,
            ..self
        };
        let n = self.root.configuration().successors().len();
        let then = self.started();
        begun.lemma_expanded_shape(self.root, n);
        begun.lemma_expanded_frame(self.root, n);
        self.lemma_started();
        assert(then.costs_in_order());
        assert forall|path: Seq<Configuration>|
            #![trigger is_safe_walk(then.origin(), path)]
            is_safe_walk(then.origin(), path) && path.len() >= 2 && then.level_at_least(
                path.len() - 2,
            ) && then.visited.contains(path[path.len() - 2]) && !then.waits(
                path[path.len() - 2],
            ) implies then.met_within(path.last(), path.len() - 1) by {
            then.lemma_end_is_met(path);
        }
    }

    /// A step of a breadth-first search keeps its frontier in level order.
    pub proof fn lemma_level_order_advanced(self)
        requires
            self.inv(),
            self.strategy == Strategy::BreadthFirst,
            self.is_level_order(),
        ensures
            self.advanced().is_level_order(),
    {
        let then = self.advanced();
        if self.phase == Phase::Running && self.pending.len() > 0 && then.phase == Phase::Running {
            let taken = self.pending[0];
            let rest = SearchModel { pending: self.pending.remove(0), ..self };
            let n = taken.configuration().successors().len();
            assert(self.descends(taken));
            self.lemma_descendant(taken);
            assert(then == rest.scheduled(taken));
            rest.lemma_expanded_shape(taken, n);
            rest.lemma_expanded_frame(taken, n);
            self.lemma_advanced();
            let level = taken.path_cost;
            assert forall|i: int| 0 <= i < then.pending.len() implies level <= (
            #[trigger] then.pending[i]).path_cost <= level + 1 by {
                if i < rest.pending.len() {
                    assert(then.pending[i] == rest.pending[i]);
                    assert(rest.pending[i] == self.pending[i + 1]);
                    assert(self.pending[0].path_cost <= self.pending[i + 1].path_cost);
                }
            }
            assert forall|i: int, j: int| 0 <= i <= j < then.pending.len() implies (
            #[trigger] then.pending[i]).path_cost <= (#[trigger] then.pending[j]).path_cost
                <= then.pending[i].path_cost + 1 by {
                if j < rest.pending.len() {
                    assert(then.pending[i] == rest.pending[i]);
                    assert(then.pending[j] == rest.pending[j]);
                    assert(rest.pending[i] == self.pending[i + 1]);
                    assert(rest.pending[j] == self.pending[j + 1]);
                    assert(self.pending[i + 1].path_cost <= self.pending[j + 1].path_cost);
                }
            }
            assert forall|path: Seq<Configuration>|
                #![trigger is_safe_walk(then.origin(), path)]
                is_safe_walk(then.origin(), path) && path.len() >= 2 && then.level_at_least(
                    path.len() - 2,
                ) && then.visited.contains(path[path.len() - 2]) && !then.waits(
                    path[path.len() - 2],
                ) implies then.met_within(path.last(), path.len() - 1) by {
                self.lemma_level_order_walk(path);
            }
        }
    }

    /// What `lemma_level_order_advanced` has to show of one walk.
    proof fn lemma_level_order_walk(self, path: Seq<Configuration>)
        requires
            self.inv(),
            self.strategy == Strategy::BreadthFirst,
            self.is_level_order(),
            self.phase == Phase::Running,
            self.pending.len() > 0,
            self.advanced().phase == Phase::Running,
            is_safe_walk(self.origin(), path),
            path.len() >= 2,
            self.advanced().level_at_least(path.len() - 2),
            self.advanced().visited.contains(path[path.len() - 2]),
            !self.advanced().waits(path[path.len() - 2]),
        ensures
            self.advanced().met_within(path.last(), path.len() - 1),
    {
        let then = self.advanced();
        let taken = self.pending[0];
        let rest = SearchModel { pending: self.pending.remove(0), ..self };
        let n = taken.configuration().successors().len();
        assert(self.descends(taken));
        self.lemma_descendant(taken);
        assert(then == rest.scheduled(taken));
        rest.lemma_expanded_shape(taken, n);
        rest.lemma_expanded_frame(taken, n);
        self.lemma_advanced();
        let level = taken.path_cost as int;
        let k = path.len() - 1;
        let from = path[path.len() - 2];
        let end = path.last();
        assert(then.origin() == self.origin());
        then.lemma_end_is_met(path);
        assert forall|i: int| 0 <= i < then.pending.len() implies level <= (
        #[trigger] then.pending[i]).path_cost <= level + 1 by {
            if i < rest.pending.len() {
                assert(then.pending[i] == rest.pending[i]);
                assert(rest.pending[i] == self.pending[i + 1]);
                assert(self.pending[0].path_cost <= self.pending[i + 1].path_cost);
            }
        }
        if level <= k - 1 {
        } else {
            assert forall|i: int| 0 <= i < self.pending.len() implies (
            #[trigger] self.pending[i]).path_cost >= k by {
                assert(self.pending[0].path_cost <= self.pending[i].path_cost);
            }
            assert(self.level_at_least(k - 1));
            let front = path.drop_last();
            Self::lemma_shorter_walk(self.origin(), path);
            if from == taken.configuration() {
                self.lemma_walk_is_met(front);
                assert(front.last() == from);
                assert(self.pending[0].path_cost <= k - 1);
                assert(false);
            } else {
                if !self.visited.contains(from) {
                    assert(then.waits(from));
                    assert(false);
                }
                if self.waits(from) {
                    let i = choose|i: int|
                        0 <= i < self.pending.len() && (#[trigger] self.pending[i]).configuration()
                            == from;
                    assert(i > 0);
                    assert(rest.pending[i - 1] == self.pending[i]);
                    assert(then.pending[i - 1] == rest.pending[i - 1]);
                    assert(then.waits(from));
                    assert(false);
                }
                assert(self.met_within(end, k));
                assert forall|i: int|
                    0 <= i < then.pending.len() && (#[trigger] then.pending[i]).configuration()
                        == end implies then.pending[i].path_cost <= k by {
                    if i < rest.pending.len() {
                        assert(then.pending[i] == rest.pending[i]);
                        assert(rest.pending[i] == self.pending[i + 1]);
                    }
                }
            }
        }
    }

    /// Any number of steps keeps the frontier of a breadth-first search in
    /// level order.
    pub proof fn lemma_level_order_after(self, n: nat)
        requires
            self.inv(),
            self.strategy == Strategy::BreadthFirst,
            self.is_level_order(),
        ensures
            self.after(n).is_level_order(),
            self.after(n).inv(),
        decreases n,
    {
        self.lemma_after(n);
        if n > 0 {
            self.lemma_level_order_after((n - 1) as nat);
            self.lemma_after_frame((n - 1) as nat);
            self.after((n - 1) as nat).lemma_level_order_advanced();
        }
    }

    /// While a breadth-first search runs, the entry at the front of its
    /// frontier was reached by no more crossings than any path from the root
    /// to a goal makes.
    pub proof fn lemma_front_is_nearest(self, path: Seq<Configuration>)
        requires
            self.inv(),
            self.is_level_order(),
            self.phase == Phase::Running,
            self.pending.len() > 0,
            reaches_goal(self.origin(), path),
        ensures
            self.pending[0].path_cost <= path.len() - 1,
    {
        let k = path.len() - 1;
        if self.pending[0].path_cost > k {
            assert forall|i: int| 0 <= i < self.pending.len() implies (
            #[trigger] self.pending[i]).path_cost >= k by {
                assert(self.pending[0].path_cost <= self.pending[i].path_cost);
            }
            assert(self.level_at_least(k));
            self.lemma_walk_is_met(path);
            let end = path.last();
            assert(self.met_within(end, k));
            if self.waits(end) {
                let i = choose|i: int|
                    0 <= i < self.pending.len() && (#[trigger] self.pending[i]).configuration()
                        == end;
                assert(self.pending[0].path_cost <= self.pending[i].path_cost);
                assert(false);
            }
            assert(self.visited.contains(end));
            assert(self.is_closed(end));
            assert(false);
        }
    }

    /// The goal state that a breadth-first search takes from its frontier
    /// was reached by no more crossings than any path from the root to a
    /// goal makes.
    pub proof fn lemma_first_goal_is_nearest(self, path: Seq<Configuration>)
        requires
            self.inv(),
            self.strategy == Strategy::BreadthFirst,
            self.is_level_order(),
            self.phase == Phase::Running,
            self.advanced().phase == Phase::Succeeded,
            reaches_goal(self.origin(), path),
        ensures
            self.advanced().winner is Some,
            self.advanced().winner->Some_0.path_cost <= path.len() - 1,
    {
        assert(self.pending.len() > 0);
        assert(self.advanced().winner == Some(self.pending[0])) by {
            let rest = SearchModel { pending: self.pending.remove(0), ..self };
            let taken = self.pending[0];
            if !taken.configuration().is_failure() && !taken.configuration().is_goal() {
                rest.lemma_expanded_frame(taken, taken.configuration().successors().len());
            }
        }
        self.lemma_front_is_nearest(path);
    }

    /// A breadth-first search that succeeds has found a goal by the least
    /// number of crossings: no path from the root to a goal makes fewer than
    /// the winner's path cost.
    pub proof fn lemma_breadth_first_is_shortest(self, n: nat, path: Seq<Configuration>)
        requires
            self.inv(),
            self.phase == Phase::Idle,
            self.strategy == Strategy::BreadthFirst,
            self.started().after(n).phase == Phase::Succeeded,
            reaches_goal(self.origin(), path),
        ensures
            self.started().after(n).winner is Some,
            self.started().after(n).winner->Some_0.path_cost <= path.len() - 1,
        decreases n,
    {
        let begun = self.started();
        self.lemma_started();
        self.lemma_level_order_started();
        self.lemma_after_frame(0);
        let n0 = self.root.configuration().successors().len();
        let marked = SearchModel {
            phase: Phase::Running,
            visited: self.visited.insert(self.origin()),
            visited_states: self.visited_states + 1,
            ..self
        };
        marked.lemma_expanded_frame(self.root, n0);
        assert(begun.phase == Phase::Running);
        if n > 0 {
            let before = begun.after((n - 1) as nat);
            begun.lemma_level_order_after((n - 1) as nat);
            begun.lemma_after_frame((n - 1) as nat);
            if before.phase == Phase::Succeeded {
                self.lemma_breadth_first_is_shortest((n - 1) as nat, path);
            } else {
                before.lemma_first_goal_is_nearest(path);
            }
        }
    }
}

} // verus!
