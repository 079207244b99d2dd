//! The frontier of a search: the states that wait to be explored, and the
//! four policies that say which of them is explored next.

use crate::cannibals::world_state::share;
use crate::cannibals::world_state::Configuration;
use crate::cannibals::world_state::WorldState;
use std::collections::VecDeque;
use std::rc::Rc;
use vstd::prelude::*;

verus! {

/// The policy by which a frontier hands out its entries.
#[derive(Debug, Clone, Copy, PartialEq, Eq, Structural)]
pub enum Strategy {
    /// First in, first out.
    BreadthFirst,
    /// Last in, first out.
    DepthFirst,
    /// The entry closest to the goal by its heuristic; of several, the one
    /// that came first.
    GreedyBestFirst,
    /// The entry with the least sum of heuristic and path cost; of several,
    /// the one with the least heuristic; of several again, the one that
    /// came first.
    AStar,
}

/// An entry of the frontier as the search sees it: the route to a state,
/// the description of each of its steps, and the number of crossings that
/// the search has made to reach it.
pub struct Pending {
    pub route: Seq<Configuration>,
    pub steps: Seq<Seq<char>>,
    pub path_cost: nat,
}

impl Pending {
    /// The configuration at the end of the route.
    pub open spec fn configuration(self) -> Configuration {
        self.route.last()
    }

    /// The heuristic of the configuration at the end of the route.
    pub open spec fn heuristic(self) -> nat {
        self.configuration().heuristic()
    }

    /// Heuristic plus path cost.
    pub open spec fn total_cost(self) -> nat {
        self.heuristic() + self.path_cost
    }

    /// The entry for the state that one more crossing, to `next`, leads to.
    pub open spec fn child(self, next: Configuration) -> Pending {
        Pending {
            route: self.route.push(next),
            steps: self.steps.push(self.configuration().crossing_label(next)),
            path_cost: self.path_cost + 1,
        }
    }
}

impl Strategy {
    /// `a` is to be explored before `b`, whichever of them came first.
    pub open spec fn prefers(self, a: Pending, b: Pending) -> bool {
        match self {
            Strategy::BreadthFirst => false,
            Strategy::DepthFirst => false,
            Strategy::GreedyBestFirst => a.heuristic() < b.heuristic(),
            Strategy::AStar => a.total_cost() < b.total_cost() || (a.total_cost() == b.total_cost()
                && a.heuristic() < b.heuristic()),
        }
    }

    /// The place of the first entry that no other entry is preferred to.
    pub open spec fn first_best(self, pending: Seq<Pending>) -> int
        decreases pending.len(),
    {
        if pending.len() <= 1 {
            0
        } else {
            let best = self.first_best(pending.drop_last());
            if self.prefers(pending.last(), pending[best]) {
                pending.len() - 1
            } else {
                best
            }
        }
    }

    /// The place of the entry that is explored next, in a frontier that
    /// holds `pending` in the order of their arrival.
    pub open spec fn next_index(self, pending: Seq<Pending>) -> int {
        match self {
            Strategy::BreadthFirst => 0,
            Strategy::DepthFirst => pending.len() - 1,
            Strategy::GreedyBestFirst => self.first_best(pending),
            Strategy::AStar => self.first_best(pending),
        }
    }

    /// No entry is preferred to the one at `first_best`, and that one is
    /// preferred to every entry that came before it.
    pub proof fn lemma_first_best(self, pending: Seq<Pending>)
        requires
            pending.len() > 0,
        ensures
            0 <= self.first_best(pending) < pending.len(),
            forall|j: int|
                0 <= j < pending.len() ==> !self.prefers(
                    #[trigger] pending[j],
                    pending[self.first_best(pending)],
                ),
            forall|j: int|
                0 <= j < self.first_best(pending) ==> self.prefers(
                    pending[self.first_best(pending)],
                    #[trigger] pending[j],
                ),
        decreases pending.len(),
    {
        if pending.len() > 1 {
            let front = pending.drop_last();
            self.lemma_first_best(front);
            let best = self.first_best(front);
            assert(pending[best] == front[best]);
            assert forall|j: int| 0 <= j < pending.len() implies !self.prefers(
                #[trigger] pending[j],
                pending[self.first_best(pending)],
            ) by {
                if j < pending.len() - 1 {
                    assert(pending[j] == front[j]);
                }
            }
            assert forall|j: int| 0 <= j < self.first_best(pending) implies self.prefers(
                pending[self.first_best(pending)],
                #[trigger] pending[j],
            ) by {
                assert(pending[j] == front[j]);
            }
        }
    }

    /// The entry that is explored next has a place in the frontier.
    pub proof fn lemma_next_index(self, pending: Seq<Pending>)
        requires
            pending.len() > 0,
        ensures
            0 <= self.next_index(pending) < pending.len(),
    {
        self.lemma_first_best(pending);
    }
}

/// An entry of the frontier: a state, shared with the states that came
/// from it, and the path cost by which the frontier may order it.
#[derive(Debug)]
pub struct WorldStateHeapWrapper {
    world_state: Rc<WorldState>,
    path_cost: u32,
}

impl View for WorldStateHeapWrapper {
    type V = Pending;

    closed spec fn view(&self) -> Pending {
        Pending {
            route: self.world_state.route(),
            steps: self.world_state.steps(),
            path_cost: self.path_cost as nat,
        }
    }
}

impl WorldStateHeapWrapper {
    /// The state that the entry holds.
    pub closed spec fn state(&self) -> WorldState {
        *self.world_state
    }

    /// The view of an entry is made of its state and its path cost.
    pub proof fn lemma_view(&self)
        ensures
            self@.route == self.state().route(),
            self@.steps == self.state().steps(),
            self@.configuration() == self.state()@,
            self@.path_cost <= u32::MAX,
    {
        self.state().lemma_route_shape();
    }

    /// An entry for `world_state` with no path cost: such entries are
    /// ordered by their heuristic alone.
    pub fn new(world_state: Rc<WorldState>) -> (entry: Self)
        ensures
            entry.state() == *world_state,
            entry@ == (Pending {
                route: world_state.route(),
                steps: world_state.steps(),
                path_cost: 0,
            }),
    {
        Self { world_state, path_cost: 0 }
    }

    /// An entry for `world_state`, reached by `path_cost` crossings.
    pub fn with_path_cost(world_state: Rc<WorldState>, path_cost: u32) -> (entry: Self)
        ensures
            entry.state() == *world_state,
            entry@ == (Pending {
                route: world_state.route(),
                steps: world_state.steps(),
                path_cost: path_cost as nat,
            }),
    {
        Self { world_state, path_cost }
    }

    /// A handle to the state that the entry holds.
    pub fn get_world_state(&self) -> (world_state: Rc<WorldState>)
        ensures
            *world_state == self.state(),
    {
        share(&self.world_state)
    }

    /// The number of crossings by which the state was reached.
    pub fn path_cost(&self) -> (cost: u32)
        ensures
            cost == self@.path_cost,
    {
        self.path_cost
    }

    /// The heuristic of the state.
    pub fn heuristic(&self) -> (estimate: u8)
        ensures
            estimate == self@.heuristic(),
    {
        proof {
            self.lemma_view();
        }
        self.world_state.get_heuristic()
    }

    /// Heuristic plus path cost.
    pub fn total_cost(&self) -> (cost: u64)
        ensures
            cost == self@.total_cost(),
    {
        proof {
            self.lemma_view();
        }
        self.world_state.get_heuristic() as u64 + self.path_cost as u64
    }

    /// Whether `strategy` explores this entry before `other`, whichever of
    /// them came first.
    pub fn is_preferred_to(&self, other: &WorldStateHeapWrapper, strategy: Strategy) -> (preferred:
        bool)
        ensures
            preferred == strategy.prefers(self@, other@),
    {
        match strategy {
            Strategy::BreadthFirst => false,
            Strategy::DepthFirst => false,
            Strategy::GreedyBestFirst => self.heuristic() < other.heuristic(),
            Strategy::AStar => {
                let mine = self.total_cost();
                let theirs = other.total_cost();
                mine < theirs || (mine == theirs && self.heuristic() < other.heuristic())
            },
        }
    }
}

/// The states that wait to be explored, in the order of their arrival.
pub struct Frontier {
    strategy: Strategy,
    entries: VecDeque<WorldStateHeapWrapper>,
}

impl View for Frontier {
    type V = Seq<Pending>;

    closed spec fn view(&self) -> Seq<Pending> {
        self.entries@.map_values(|entry: WorldStateHeapWrapper| entry@)
    }
}

impl Frontier {
    /// The policy of the frontier.
    pub closed spec fn strategy(&self) -> Strategy {
        self.strategy
    }

    /// An empty frontier that hands out its entries by `strategy`.
    pub fn new(strategy: Strategy) -> (frontier: Self)
        ensures
            frontier.strategy() == strategy,
            frontier@ == Seq::<Pending>::empty(),
    {
        let frontier = Self { strategy, entries: VecDeque::new() };
        assert(frontier@ =~= Seq::<Pending>::empty());
        frontier
    }

    /// The policy of the frontier.
    pub fn policy(&self) -> (strategy: Strategy)
        ensures
            strategy == self.strategy(),
    {
        self.strategy
    }

    /// Whether no entry waits.
    pub fn is_empty(&self) -> (empty: bool)
        ensures
            empty == (self@.len() == 0),
    {
        self.entries.len() == 0
    }

    /// The number of entries that wait.
    pub fn len(&self) -> (count: usize)
        ensures
            count == self@.len(),
    {
        self.entries.len()
    }

    /// Adds `entry` behind the entries that wait. Nothing is dropped and
    /// nothing is merged, whatever the frontier holds already.
    pub fn push(&mut self, entry: WorldStateHeapWrapper)
        ensures
            final(self).strategy() == old(self).strategy(),
            final(self)@ == old(self)@.push(entry@),
    {
        self.entries.push_back(entry);
        assert(self@ =~= old(self)@.push(entry@));
    }

    /// The place of the entry that is handed out next.
    fn next_place(&self) -> (place: usize)
        requires
            self@.len() > 0,
        ensures
            place == self.strategy().next_index(self@),
            place < self@.len(),
    {
        proof {
            self.strategy.lemma_next_index(self@);
        }
        match self.strategy {
            Strategy::BreadthFirst => 0,
            Strategy::DepthFirst => self.entries.len() - 1,
            _ => {
                let mut best: usize = 0;
                let mut i: usize = 1;
                assert(self@.take(1).drop_last() =~= Seq::<Pending>::empty());
                while i < self.entries.len()
                    invariant
                        1 <= i <= self.entries.len(),
                        self.entries.len() == self@.len(),
                        best < i,
                        best == self.strategy.first_best(self@.take(i as int)),
                    decreases self.entries.len() - i,
                {
                    proof {
                        let now = self@.take(i as int + 1);
                        assert(now.drop_last() =~= self@.take(i as int));
                        assert(now.last() == self.entries@[i as int]@);
                        assert(now[best as int] == self.entries@[best as int]@);
                    }
                    if self.entries[i].is_preferred_to(&self.entries[best], self.strategy) {
                        best = i;
                    }
                    i = i + 1;
                }
                assert(self@.take(i as int) =~= self@);
                best
            },
        }
    }

    /// Takes out the entry that the policy explores next: the first that
    /// came of a breadth-first frontier, the last that came of a
    /// depth-first one, and of the two others the first of the entries that
    /// no other entry is preferred to. The other entries stay as they are.
    /// Of an empty frontier there is nothing to take.
    pub fn pop(&mut self) -> (taken: Option<WorldStateHeapWrapper>)
        ensures
            final(self).strategy() == old(self).strategy(),
            match taken {
                Some(entry) => {
                    let place = old(self).strategy().next_index(old(self)@);
                    &&& 0 <= place < old(self)@.len()
                    &&& entry@ == old(self)@[place]
                    &&& final(self)@ == old(self)@.remove(place)
                },
                None => old(self)@.len() == 0 && final(self)@ == old(self)@,
            },
    {
        if self.entries.len() == 0 {
            return None;
        }
        let place = self.next_place();
        let taken = self.entries.remove(place);
        assert(self@ =~= old(self)@.remove(place as int));
        taken
    }
}

} // verus!
