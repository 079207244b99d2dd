//! What holds of every search: the facts that the driver keeps true from
//! step to step, and what follows from them once the search has ended.

use crate::cannibals::frontier::Pending;
use crate::cannibals::search::Phase;
use crate::cannibals::search::SearchModel;
use crate::cannibals::world_state::is_route;
use crate::cannibals::world_state::Configuration;
use vstd::prelude::*;

verus! {

/// `path` is a walk from `root` that the search may take: it starts at
/// `root`, each of its configurations leads to the next by one crossing, and
/// none after the first is a failure.
pub open spec fn is_safe_walk(root: Configuration, path: Seq<Configuration>) -> bool {
    &&& path.len() >= 1
    &&& path[0] == root
    &&& forall|i: int| 0 <= i < path.len() - 1 ==> (#[trigger] path[i]).leads_to(path[i + 1])
    &&& forall|i: int| 1 <= i < path.len() ==> !(#[trigger] path[i]).is_failure()
}

/// `path` leads from `root` to a goal: it is a safe walk from `root` of at
/// least one crossing, and its last configuration is a goal other than
/// `root` itself.
pub open spec fn reaches_goal(root: Configuration, path: Seq<Configuration>) -> bool {
    &&& is_safe_walk(root, path)
    &&& path.len() >= 2
    &&& path.last().is_goal()
    &&& path.last() != root
}

impl SearchModel {
    /// The configuration that the search starts from.
    pub open spec fn origin(self) -> Configuration {
        self.root.configuration()
    }

    /// The root has a legal route, a description for each configuration of
    /// it, and no path cost.
    pub open spec fn root_is_sound(self) -> bool {
        &&& is_route(self.root.route)
        &&& self.root.steps.len() == self.root.route.len()
        &&& self.root.path_cost == 0
    }

    /// `entry` was reached from the root: its route continues the root's by
    /// as many crossings as its path cost says, through configurations that
    /// are no failures and have been met, and its steps describe them.
    #[verifier::opaque]
    pub open spec fn descends(self, entry: Pending) -> bool {
        let base = self.root.route.len() as int;
        &&& entry.route.len() > base
        &&& entry.route.take(base) == self.root.route
        &&& entry.steps.len() == entry.route.len()
        &&& entry.steps.take(base) == self.root.steps
        &&& forall|i: int|
            base <= i < entry.route.len() ==> #[trigger] entry.steps[i] == entry.route[i
                - 1].crossing_label(entry.route[i])
        &&& entry.path_cost == entry.route.len() - base
        &&& is_route(entry.route)
        &&& forall|i: int| base <= i < entry.route.len() ==> !(#[trigger] entry.route[i]).is_failure()
        &&& entry.configuration() != self.origin()
        &&& self.visited.contains(entry.configuration())
    }

    /// An entry for `c` waits in the frontier.
    pub open spec fn waits(self, c: Configuration) -> bool {
        exists|i: int| 0 <= i < self.pending.len() && (#[trigger] self.pending[i]).configuration() == c
    }

    /// Every successor of `c` is a failure or has been met.
    pub open spec fn is_explored(self, c: Configuration) -> bool {
        forall|j: int|
            0 <= j < c.successors().len() ==> (#[trigger] c.successors()[j]).is_failure()
                || self.visited.contains(c.successors()[j])
    }

    /// `c` has been dealt with: it is explored, and it is no goal unless it
    /// is the configuration that the search started from.
    pub open spec fn is_closed(self, c: Configuration) -> bool {
        self.is_explored(c) && (c == self.origin() || !c.is_goal())
    }

    /// What holds of the set of configurations met, in every phase.
    pub open spec fn visited_is_sound(self) -> bool {
        &&& self.visited.finite()
        &&& self.visited.len() == self.visited_states
        &&& forall|c: Configuration| #[trigger] self.visited.contains(c) ==> c.is_valid()
    }

    /// What holds of a search between its steps.
    pub open spec fn inv(self) -> bool {
        &&& self.root_is_sound()
        &&& self.visited_is_sound()
        &&& match self.phase {
            Phase::Idle => {
                &&& self.pending.len() == 0
                &&& self.visited == Set::<Configuration>::empty()
                &&& self.winner is None
            },
            Phase::Succeeded => {
                &&& self.winner matches Some(entry)
                &&& self.descends(entry)
                &&& entry.configuration().is_goal()
            },
            _ => {
                &&& self.winner is None
                &&& self.visited.contains(self.origin())
                &&& forall|i: int|
                    0 <= i < self.pending.len() ==> self.descends(#[trigger] self.pending[i])
                &&& forall|c: Configuration| #[trigger]
                    self.visited.contains(c) ==> self.waits(c) || self.is_closed(c)
                &&& self.phase == Phase::Exhausted ==> self.pending.len() == 0
            },
        }
    }

    /// What holds of a search while the first `n` successors of `parent`
    /// have been offered to it.
    pub open spec fn inv_expanding(self, parent: Pending, n: nat) -> bool {
        &&& self.root_is_sound()
        &&& self.visited_is_sound()
        &&& self.phase == Phase::Running
        &&& self.winner is None
        &&& self.visited.contains(self.origin())
        &&& self.visited.contains(parent.configuration())
        &&& parent == self.root || self.descends(parent)
        &&& parent.configuration() == self.origin() || !parent.configuration().is_goal()
        &&& n <= parent.configuration().successors().len()
        &&& forall|i: int| 0 <= i < self.pending.len() ==> self.descends(#[trigger] self.pending[i])
        &&& forall|c: Configuration| #[trigger]
            self.visited.contains(c) ==> c == parent.configuration() || self.waits(c)
                || self.is_closed(c)
        &&& forall|j: int|
            0 <= j < n ==> (#[trigger] parent.configuration().successors()[j]).is_failure()
                || self.visited.contains(parent.configuration().successors()[j])
    }

    /// An entry that was reached from the root is still so in a search
    /// with the same root that has met no less.
    pub proof fn lemma_descends_carries(self, later: SearchModel, entry: Pending)
        requires
            self.descends(entry),
            later.root == self.root,
            forall|c: Configuration| self.visited.contains(c) ==> later.visited.contains(c),
        ensures
            later.descends(entry),
    {
        reveal(SearchModel::descends);
    }

    /// The state of an entry that was reached from the root is valid, no
    /// failure, not the root's, and has been met.
    pub proof fn lemma_descendant(self, entry: Pending)
        requires
            self.descends(entry),
        ensures
            entry.route.len() > self.root.route.len(),
            entry.configuration().is_valid(),
            !entry.configuration().is_failure(),
            entry.configuration() != self.origin(),
            self.visited.contains(entry.configuration()),
    {
        reveal(SearchModel::descends);
        assert(entry.route[entry.route.len() - 1].is_valid());
        assert(!entry.route[entry.route.len() - 1].is_failure());
    }

    /// Offering successors changes neither the root nor the strategy, the
    /// phase or the winner.
    pub proof fn lemma_expanded_frame(self, parent: Pending, n: nat)
        ensures
            self.expanded(parent, n).root == self.root,
            self.expanded(parent, n).strategy == self.strategy,
            self.expanded(parent, n).phase == self.phase,
            self.expanded(parent, n).winner == self.winner,
        decreases n,
    {
        if n > 0 {
            self.lemma_expanded_frame(parent, (n - 1) as nat);
        }
    }

    /// The start and the steps change neither the root nor the strategy, and
    /// a search that has begun is idle no more.
    pub proof fn lemma_after_frame(self, n: nat)
        ensures
            self.started().root == self.root,
            self.started().strategy == self.strategy,
            self.started().phase != Phase::Idle,
            self.after(n).root == self.root,
            self.after(n).strategy == self.strategy,
            self.phase != Phase::Idle ==> self.after(n).phase != Phase::Idle,
        decreases n,
    {
        let begun = SearchModel {
            phase: Phase::Running,
            visited: self.visited.insert(self.origin()),
            visited_states: self.visited_states + 1,
            ..self
        };
        begun.lemma_expanded_frame(self.root, self.root.configuration().successors().len());
        if n > 0 {
            self.lemma_after_frame((n - 1) as nat);
            let before = self.after((n - 1) as nat);
            if before.phase == Phase::Running && before.pending.len() > 0 {
                let place = before.strategy.next_index(before.pending);
                let taken = before.pending[place];
                let rest = SearchModel { pending: before.pending.remove(place), ..before };
                rest.lemma_expanded_frame(taken, taken.configuration().successors().len());
            }
        }
    }

    /// Offering one more successor keeps what holds during an expansion.
    pub proof fn lemma_offered(self, parent: Pending, n: nat)
        requires
            self.inv_expanding(parent, n),
            n < parent.configuration().successors().len(),
        ensures
            self.offered(parent, parent.configuration().successors()[n as int]).inv_expanding(
                parent,
                n + 1,
            ),
    {
        reveal(SearchModel::descends);
        let from = parent.configuration();
        let next = from.successors()[n as int];
        let then = self.offered(parent, next);
        assert(parent.route.len() > 0 && from.is_valid()) by {
            if parent == self.root {
            } else {
                assert(self.descends(parent));
            }
            assert(parent.route[parent.route.len() - 1].is_valid());
        }
        from.lemma_successor(n as int);
        if next.is_failure() || self.visited.contains(next) {
            assert(then == self);
            assert forall|j: int| 0 <= j < n + 1 implies (#[trigger] from.successors()[j]).is_failure()
                || then.visited.contains(from.successors()[j]) by {}
        } else {
            let entry = parent.child(next);
            let base = self.root.route.len() as int;
            assert(then.pending == self.pending.push(entry));
            assert(then.visited == self.visited.insert(next));
            assert(from.leads_to(next));
            assert(then.descends(entry)) by {
                assert(entry.route.take(base) =~= self.root.route);
                assert(entry.steps.take(base) =~= self.root.steps);
                assert(is_route(entry.route)) by {
                    assert forall|i: int| 0 <= i < entry.route.len() implies (
                    #[trigger] entry.route[i]).is_valid() by {
                        if i < parent.route.len() {
                            assert(entry.route[i] == parent.route[i]);
                        }
                    }
                    assert forall|i: int| 0 <= i < entry.route.len() - 1 implies (
                    #[trigger] entry.route[i]).leads_to(entry.route[i + 1]) by {
                        if i < parent.route.len() - 1 {
                            assert(entry.route[i] == parent.route[i]);
                            assert(entry.route[i + 1] == parent.route[i + 1]);
                        }
                    }
                }
                assert forall|i: int| base <= i < entry.route.len() implies !(
                #[trigger] entry.route[i]).is_failure() by {
                    if i < parent.route.len() {
                        assert(entry.route[i] == parent.route[i]);
                    }
                }
                assert forall|i: int| base <= i < entry.route.len() implies #[trigger] entry.steps[i]
                    == entry.route[i - 1].crossing_label(entry.route[i]) by {
                    if i < parent.route.len() {
                        assert(entry.steps[i] == parent.steps[i]);
                        assert(entry.route[i] == parent.route[i]);
                        assert(entry.route[i - 1] == parent.route[i - 1]);
                    }
                }
            }
            assert forall|i: int| 0 <= i < then.pending.len() implies then.descends(
                #[trigger] then.pending[i],
            ) by {
                if i < self.pending.len() {
                    assert(then.pending[i] == self.pending[i]);
                    assert(self.descends(self.pending[i]));
                }
            }
            assert forall|c: Configuration| #[trigger] then.visited.contains(c) implies c
                == parent.configuration() || then.waits(c) || then.is_closed(c) by {
                if c == next {
                    assert(then.pending[then.pending.len() - 1].configuration() == c);
                } else {
                    assert(self.visited.contains(c));
                    if c != parent.configuration() {
                        if self.waits(c) {
                            let i = choose|i: int|
                                0 <= i < self.pending.len() && (
                                #[trigger] self.pending[i]).configuration() == c;
                            assert(then.pending[i] == self.pending[i]);
                        } else {
                            assert(self.is_closed(c));
                            assert(then.is_explored(c));
                        }
                    }
                }
            }
            assert forall|j: int| 0 <= j < n + 1 implies (#[trigger] from.successors()[j]).is_failure()
                || then.visited.contains(from.successors()[j]) by {}
            if parent != self.root {
                assert(then.descends(parent));
            }
        }
    }

    /// Offering the first `n` successors keeps what holds during an
    /// expansion.
    pub proof fn lemma_expanded(self, parent: Pending, n: nat)
        requires
            self.inv_expanding(parent, 0),
            n <= parent.configuration().successors().len(),
        ensures
            self.expanded(parent, n).inv_expanding(parent, n),
        decreases n,
    {
        if n > 0 {
            self.lemma_expanded(parent, (n - 1) as nat);
            self.expanded(parent, (n - 1) as nat).lemma_offered(parent, (n - 1) as nat);
        }
    }

    /// Scheduling all the successors of a state that left the frontier
    /// gives a search between two steps.
    pub proof fn lemma_scheduled(self, parent: Pending)
        requires
            self.inv_expanding(parent, 0),
        ensures
            self.scheduled(parent).inv(),
    {
        let n = parent.configuration().successors().len();
        self.lemma_expanded(parent, n);
        let then = self.scheduled(parent);
        assert(then.is_closed(parent.configuration()));
    }

    /// The start keeps what holds between the steps.
    pub proof fn lemma_started(self)
        requires
            self.inv(),
        ensures
            self.started().inv(),
    {
        if self.phase == Phase::Idle {
            let begun = SearchModel {
                phase: Phase::Running,
                visited: self.visited.insert(self.origin()),
                visited_states: self.visited_states + 1,
                ..self
            };
            assert(self.root.route[self.root.route.len() - 1].is_valid());
            assert(begun.inv_expanding(self.root, 0));
            begun.lemma_scheduled(self.root);
        }
    }

    /// A step keeps what holds between the steps.
    pub proof fn lemma_advanced(self)
        requires
            self.inv(),
        ensures
            self.advanced().inv(),
    {
        if self.phase == Phase::Running && self.pending.len() > 0 {
            self.strategy.lemma_next_index(self.pending);
            let place = self.strategy.next_index(self.pending);
            let taken = self.pending[place];
            let rest = SearchModel { pending: self.pending.remove(place), ..self };
            assert(self.descends(taken));
            self.lemma_descendant(taken);
            self.lemma_descends_carries(rest, taken);
            if taken.configuration().is_goal() {
                let won = SearchModel { phase: Phase::Succeeded, winner: Some(taken), ..rest };
                self.lemma_descends_carries(won, taken);
            } else {
                self.lemma_taken(place);
                rest.lemma_scheduled(taken);
            }
        }
    }

    /// Taking an entry that is no goal from the frontier begins its expansion.
    proof fn lemma_taken(self, place: int)
        requires
            self.inv(),
            self.phase == Phase::Running,
            0 <= place < self.pending.len(),
            !self.pending[place].configuration().is_goal(),
        ensures
            (SearchModel { pending: self.pending.remove(place), ..self }).inv_expanding(
                self.pending[place],
                0,
            ),
    {
        let taken = self.pending[place];
        let rest = SearchModel { pending: self.pending.remove(place), ..self };
        assert(self.descends(taken));
        self.lemma_descendant(taken);
        self.lemma_descends_carries(rest, taken);
        assert forall|i: int| 0 <= i < rest.pending.len() implies rest.descends(
            #[trigger] rest.pending[i],
        ) by {
            if i < place {
                assert(rest.pending[i] == self.pending[i]);
            } else {
                assert(rest.pending[i] == self.pending[i + 1]);
            }
            assert(self.descends(rest.pending[i]));
            self.lemma_descends_carries(rest, rest.pending[i]);
        }
        assert forall|c: Configuration| #[trigger] rest.visited.contains(c) implies c
            == taken.configuration() || rest.waits(c) || rest.is_closed(c) by {
            assert(self.visited.contains(c));
            if c != taken.configuration() && self.waits(c) {
                let i = choose|i: int|
                    0 <= i < self.pending.len() && (#[trigger] self.pending[i]).configuration()
                        == c;
                if i < place {
                    assert(rest.pending[i] == self.pending[i]);
                } else {
                    assert(rest.pending[i - 1] == self.pending[i]);
                }
            }
        }
    }

    /// Any number of steps keeps what holds between the steps.
    pub proof fn lemma_after(self, n: nat)
        requires
            self.inv(),
        ensures
            self.after(n).inv(),
        decreases n,
    {
        if n > 0 {
            self.lemma_after((n - 1) as nat);
            self.after((n - 1) as nat).lemma_advanced();
        }
    }

    /// A search that has ended stays as it is.
    pub proof fn lemma_settled_stays(self, n: nat)
        requires
            self.is_settled(),
        ensures
            self.after(n) == self,
        decreases n,
    {
        if n > 0 {
            self.lemma_settled_stays((n - 1) as nat);
        }
    }

    /// Steps add up.
    pub proof fn lemma_after_after(self, a: nat, b: nat)
        ensures
            self.after(a).after(b) == self.after(a + b),
        decreases b,
    {
        if b > 0 {
            self.lemma_after_after(a, (b - 1) as nat);
        }
    }

    /// A search ends in one way only: however many steps are made once
    /// it has ended, the state is the same.
    pub proof fn lemma_one_outcome(self, a: nat, b: nat)
        requires
            self.after(a).is_settled(),
            self.after(b).is_settled(),
        ensures
            self.after(a) == self.after(b),
    {
        if a <= b {
            self.lemma_after_after(a, (b - a) as nat);
            self.after(a).lemma_settled_stays((b - a) as nat);
        } else {
            self.lemma_after_after(b, (a - b) as nat);
            self.after(b).lemma_settled_stays((a - b) as nat);
        }
    }

    /// When the frontier is exhausted, no path leads from the root to a goal.
    pub proof fn lemma_exhausted(self, path: Seq<Configuration>)
        requires
            self.inv(),
            self.phase == Phase::Exhausted,
        ensures
            !reaches_goal(self.origin(), path),
    {
        if reaches_goal(self.origin(), path) {
            self.lemma_path_is_met(path, path.len() - 1);
            assert(self.is_closed(path.last()));
        }
    }

    /// When the frontier is exhausted, whatever a path from the root
    /// reaches without a failure has been met.
    proof fn lemma_path_is_met(self, path: Seq<Configuration>, k: int)
        requires
            self.inv(),
            self.phase == Phase::Exhausted,
            reaches_goal(self.origin(), path),
            0 <= k < path.len(),
        ensures
            self.visited.contains(path[k]),
        decreases k,
    {
        if k > 0 {
            self.lemma_path_is_met(path, k - 1);
            let from = path[k - 1];
            assert(self.visited.contains(from));
            assert(!self.waits(from));
            assert(self.is_closed(from));
            assert(from.leads_to(path[k]));
            let j = choose|j: int| 0 <= j < from.successors().len() && from.successors()[j] == path[k];
            assert(!from.successors()[j].is_failure());
        }
    }

    /// When the search has succeeded, the route of the winner leads from
    /// the root to a goal.
    pub proof fn lemma_succeeded(self)
        requires
            self.inv(),
            self.phase == Phase::Succeeded,
        ensures
            self.winner is Some,
            self.descends(self.winner->Some_0),
            reaches_goal(
                self.origin(),
                self.winner->Some_0.route.skip(self.root.route.len() - 1),
            ),
    {
        reveal(SearchModel::descends);
        let entry = self.winner->Some_0;
        let base = self.root.route.len() as int;
        let path = entry.route.skip(base - 1);
        assert(path[0] == entry.route[base - 1]);
        assert(entry.route.take(base)[base - 1] == self.root.route[base - 1]);
        assert forall|i: int| 0 <= i < path.len() - 1 implies (#[trigger] path[i]).leads_to(
            path[i + 1],
        ) by {
            assert(path[i] == entry.route[i + base - 1]);
            assert(path[i + 1] == entry.route[i + base - 1 + 1]);
            assert(entry.route[i + base - 1].leads_to(entry.route[i + base - 1 + 1]));
        }
        assert forall|i: int| 1 <= i < path.len() implies !(#[trigger] path[i]).is_failure() by {
            assert(path[i] == entry.route[i + base - 1]);
        }
        assert(path.last() == entry.route.last());
    }
}

} // verus!
