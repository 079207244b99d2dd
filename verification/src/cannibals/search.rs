//! The search driver: it takes states from the frontier, tests them, and
//! schedules their successors, until it meets the goal or has nothing left.

use crate::cannibals::frontier::Frontier;
use crate::cannibals::frontier::Pending;
use crate::cannibals::frontier::Strategy;
use crate::cannibals::frontier::WorldStateHeapWrapper;
use crate::cannibals::notation::parse_configuration;
use crate::cannibals::notation::root_label;
use crate::cannibals::search_laws::reaches_goal;
use crate::cannibals::side_state::SideState;
use crate::cannibals::visited::VisitedSet;
use crate::cannibals::visited::CONFIGURATIONS;
use crate::cannibals::world_state::is_route;
use crate::cannibals::world_state::BoatSide;
use crate::cannibals::world_state::Configuration;
use crate::cannibals::world_state::WorldState;
use crate::cannibals::world_state::WorldStateErrorView;
use crate::cannibals::world_state::WorldStateError;
use std::rc::Rc;
use vstd::prelude::*;

verus! {

/// Where a search stands.
#[derive(Debug, Clone, Copy, PartialEq, Eq, Structural)]
pub enum Phase {
    /// Nothing has been done yet.
    Idle,
    /// States wait in the frontier, or it has not been found empty yet.
    Running,
    /// A goal state was taken from the frontier.
    Succeeded,
    /// The frontier was found empty.
    Exhausted,
}

/// A search as a state machine: what it holds, and how it goes on.
pub struct SearchModel {
    pub strategy: Strategy,
    pub phase: Phase,
    /// The entry of the state that the search starts from.
    pub root: Pending,
    /// The frontier, in the order of arrival.
    pub pending: Seq<Pending>,
    /// The configurations that have been scheduled, and the root's.
    pub visited: Set<Configuration>,
    /// How many configurations have been put into `visited`.
    pub visited_states: nat,
    /// The entry of the goal state, once it was met.
    pub winner: Option<Pending>,
}

impl SearchModel {
    /// A search that has not begun.
    pub open spec fn idle(root: Pending, strategy: Strategy) -> SearchModel {
        SearchModel {
            strategy,
            phase: Phase::Idle,
            root,
            pending: Seq::empty(),
            visited: Set::empty(),
            visited_states: 0,
            winner: None,
        }
    }

    /// The search after `next`, a successor of `parent`, was offered to it:
    /// a failure state is dropped, and so is a configuration met before;
    /// another one is marked as met and joins the frontier.
    pub open spec fn offered(self, parent: Pending, next: Configuration) -> SearchModel {
        if next.is_failure() || self.visited.contains(next) {
            self
        } else {
            SearchModel {
                pending: self.pending.push(parent.child(next)),
                visited: self.visited.insert(next),
                visited_states: self.visited_states + 1,
                ..self
            }
        }
    }

    /// The search after the first `n` successors of `parent` were offered
    /// to it, one after the other.
    pub open spec fn expanded(self, parent: Pending, n: nat) -> SearchModel
        decreases n,
    {
        if n == 0 {
            self
        } else {
            self.expanded(parent, (n - 1) as nat).offered(
                parent,
                parent.configuration().successors()[n - 1],
            )
        }
    }

    /// The search after all the successors of `parent` were offered to it.
    pub open spec fn scheduled(self, parent: Pending) -> SearchModel {
        self.expanded(parent, parent.configuration().successors().len())
    }

    /// The start: the root is marked as met and its successors are
    /// scheduled. The root itself is not tested. A search that has begun
    /// stays as it is.
    pub open spec fn started(self) -> SearchModel {
        if self.phase == Phase::Idle {
            (SearchModel {
                phase: Phase::Running,
                visited: self.visited.insert(self.root.configuration()),
                visited_states: self.visited_states + 1,
                ..self
            }).scheduled(self.root)
        } else {
            self
        }
    }

    /// One step of a running search. An empty frontier ends it as
    /// exhausted. Else the strategy's next entry leaves the frontier: a
    /// failure state is dropped, a goal state ends the search as succeeded,
    /// the successors of any other state are scheduled. A search that is not
    /// running stays as it is.
    pub open spec fn advanced(self) -> SearchModel {
        if self.phase != Phase::Running {
            self
        } else if self.pending.len() == 0 {
            SearchModel { phase: Phase::Exhausted, ..self }
        } else {
            let place = self.strategy.next_index(self.pending);
            let taken = self.pending[place];
            let rest = SearchModel { pending: self.pending.remove(place), ..self };
            if taken.configuration().is_failure() {
                rest
            } else if taken.configuration().is_goal() {
                SearchModel { phase: Phase::Succeeded, winner: Some(taken), ..rest }
            } else {
                rest.scheduled(taken)
            }
        }
    }

    /// The search `n` steps later.
    pub open spec fn after(self, n: nat) -> SearchModel
        decreases n,
    {
        if n == 0 {
            self
        } else {
            self.after((n - 1) as nat).advanced()
        }
    }

    /// The search has ended.
    pub open spec fn is_settled(self) -> bool {
        self.phase == Phase::Succeeded || self.phase == Phase::Exhausted
    }

    /// No entry of the frontier has a path cost above the number of
    /// configurations met.
    pub open spec fn costs_bounded(self) -> bool {
        forall|i: int|
            0 <= i < self.pending.len() ==> (#[trigger] self.pending[i]).path_cost
                <= self.visited_states
    }
}

/// The entry of a state from which a search starts.
pub open spec fn root_entry(initial: &WorldState) -> Pending {
    Pending { route: initial.route(), steps: initial.steps(), path_cost: 0 }
}

/// The driver of one search. It owns the frontier and the set of the
/// configurations met.
pub struct SearchDriver {
    strategy: Strategy,
    phase: Phase,
    root: WorldStateHeapWrapper,
    frontier: Frontier,
    visited: VisitedSet,
    winner: Option<WorldStateHeapWrapper>,
}

impl View for SearchDriver {
    type V = SearchModel;

    closed spec fn view(&self) -> SearchModel {
        SearchModel {
            strategy: self.strategy,
            phase: self.phase,
            root: self.root@,
            pending: self.frontier@,
            visited: self.visited@,
            visited_states: self.visited.count(),
            winner: match self.winner {
                Some(entry) => Some(entry@),
                None => None,
            },
        }
    }
}

impl SearchDriver {
    /// What the driver keeps true of itself: its frontier follows its
    /// strategy, and the path costs in it are bounded.
    pub closed spec fn wf(&self) -> bool {
        &&& self.frontier.strategy() == self.strategy
        &&& self@.costs_bounded()
        &&& self.root@.path_cost == 0
        &&& self.phase == Phase::Idle ==> self.visited@ == Set::<Configuration>::empty()
    }

    /// What is left to do at most: it gets less with each step of a running
    /// search.
    pub closed spec fn fuel(&self) -> nat {
        (2 * (CONFIGURATIONS - self.visited.count()) + self.frontier@.len()) as nat
    }

    /// A driver for a search from `initial` by `strategy`, not yet begun.
    pub fn new(initial: WorldState, strategy: Strategy) -> (driver: Self)
        ensures
            driver.wf(),
            driver@ == SearchModel::idle(root_entry(&initial), strategy),
    {
        Self {
            strategy,
            phase: Phase::Idle,
            root: WorldStateHeapWrapper::new(Rc::new(initial)),
            frontier: Frontier::new(strategy),
            visited: VisitedSet::new(),
            winner: None,
        }
    }

    /// Where the search stands.
    pub fn phase(&self) -> (phase: Phase)
        ensures
            phase == self@.phase,
    {
        self.phase
    }

    /// The number of configurations met so far.
    pub fn visited_states(&self) -> (count: usize)
        ensures
            count == self@.visited_states,
    {
        self.visited.len()
    }

    /// The goal state, once the search has succeeded.
    pub fn solution(&self) -> (found: Option<Rc<WorldState>>)
        ensures
            match found {
                Some(state) => self@.winner matches Some(entry) && entry.route == state.route()
                    && entry.steps == state.steps(),
                None => self@.winner is None,
            },
    {
        match &self.winner {
            Some(entry) => {
                proof {
                    entry.lemma_view();
                }
                Some(entry.get_world_state())
            },
            None => None,
        }
    }

    /// Offers each successor of `parent` to the search.
    fn schedule(&mut self, parent: &WorldStateHeapWrapper)
        requires
            old(self).wf(),
            old(self)@.phase != Phase::Idle,
            parent@.path_cost <= old(self)@.visited_states,
        ensures
            final(self).wf(),
            final(self)@ == old(self)@.scheduled(parent@),
            final(self).fuel() <= old(self).fuel(),
    {
        let state = parent.get_world_state();
        let children = state.get_child_states();
        let cost = parent.path_cost();
        proof {
            parent.lemma_view();
            self.visited.lemma_members();
        }
        let mut i: usize = 0;
        while i < children.len()
            invariant
                i <= children.len(),
                children@.len() == parent@.configuration().successors().len(),
                forall|j: int|
                    0 <= j < children@.len() ==> match #[trigger] children@[j] {
                        Ok(child) => child.is_child_of(&*state, j),
                        Err(_) => false,
                    },
                *state == parent.state(),
                cost == parent@.path_cost,
                cost <= self@.visited_states,
                self.phase != Phase::Idle,
                self.wf(),
                self@ == old(self)@.expanded(parent@, i as nat),
                self.fuel() <= old(self).fuel(),
                self.visited.count() <= CONFIGURATIONS,
            decreases children.len() - i,
        {
            proof {
                parent.lemma_view();
            }
            match &children[i] {
                Ok(child) => {
                    let ghost before = self@;
                    assert(child.is_child_of(&*state, i as int));
                    assert(child@ == parent@.configuration().successors()[i as int]);
                    if !child.is_game_over() && !self.visited.contains(child) {
                        self.visited.insert(child);
                        proof {
                            self.visited.lemma_members();
                        }
                        let entry = WorldStateHeapWrapper::with_path_cost(
                            Rc::new(child.clone()),
                            cost + 1,
                        );
                        assert(entry@ == parent@.child(child@));
                        self.frontier.push(entry);
                        assert(self@ == before.offered(parent@, child@));
                    } else {
                        assert(self@ == before.offered(parent@, child@));
                    }
                },
                Err(_) => {},
            }
            i = i + 1;
        }
    }

    /// Begins the search: marks the root as met and schedules its
    /// successors. A search that has begun stays as it is.
    pub fn start(&mut self)
        requires
            old(self).wf(),
        ensures
            final(self).wf(),
            final(self)@ == old(self)@.started(),
            final(self)@.phase != Phase::Idle,
            old(self)@.phase == Phase::Idle ==> final(self)@.phase == Phase::Running,
    {
        proof {
            old(self)@.lemma_after_frame(0);
            if self.phase == Phase::Idle {
                let marked = SearchModel {
                    phase: Phase::Running,
                    visited: self@.visited.insert(self@.origin()),
                    visited_states: self@.visited_states + 1,
                    ..self@
                };
                marked.lemma_expanded_frame(
                    self@.root,
                    self@.root.configuration().successors().len(),
                );
            }
        }
        if self.phase == Phase::Idle {
            self.phase = Phase::Running;
            let root = WorldStateHeapWrapper::new(self.root.get_world_state());
            proof {
                self.root.lemma_view();
                root.lemma_view();
                assert(root@ == self.root@);
            }
            let state = root.get_world_state();
            self.visited.insert(&*state);
            self.schedule(&root);
        }
    }

    /// Makes one step of a running search; see `SearchModel::advanced`. A
    /// search that is not running stays as it is.
    pub fn step(&mut self)
        requires
            old(self).wf(),
        ensures
            final(self).wf(),
            final(self)@ == old(self)@.advanced(),
            old(self)@.phase != Phase::Idle ==> final(self)@.phase != Phase::Idle,
            final(self).fuel() <= old(self).fuel(),
            old(self)@.phase == Phase::Running && final(self)@.phase == Phase::Running
                ==> final(self).fuel() < old(self).fuel(),
    {
        if self.phase != Phase::Running {
            return ;
        }
        proof {
            self.visited.lemma_members();
            old(self)@.lemma_after_frame(1);
            assert(old(self)@.after(1) == old(self)@.advanced()) by {
                assert(old(self)@.after(0) == old(self)@);
            }
        }
        match self.frontier.pop() {
            None => {
                self.phase = Phase::Exhausted;
            },
            Some(taken) => {
                let state = taken.get_world_state();
                proof {
                    taken.lemma_view();
                }
                if state.is_game_over() {
                } else if state.is_solution() {
                    self.phase = Phase::Succeeded;
                    self.winner = Some(taken);
                } else {
                    let ghost rest = self.fuel();
                    assert(rest < old(self).fuel());
                    self.schedule(&taken);
                }
            },
        }
        proof {
            self.visited.lemma_members();
        }
    }

    /// Makes steps until the search has ended. A search that has not begun
    /// stays as it is.
    pub fn run(&mut self)
        requires
            old(self).wf(),
        ensures
            final(self).wf(),
            exists|n: nat| final(self)@ == old(self)@.after(n),
            old(self)@.phase != Phase::Idle ==> final(self)@.is_settled(),
    {
        let ghost mut steps: nat = 0;
        while self.phase == Phase::Running
            invariant
                self.wf(),
                self@ == old(self)@.after(steps),
                old(self)@.phase != Phase::Idle ==> self@.phase != Phase::Idle,
            decreases
                    self.fuel(),
                    (if self.phase == Phase::Running {
                        1nat
                    } else {
                        0nat
                    }),
        {
            self.step();
            proof {
                steps = steps + 1;
                old(self)@.lemma_after_frame(steps);
            }
        }
    }
}

/// How a search from `root` by `strategy` ends: the state of the search
/// once it has stopped, however many steps that takes.
pub open spec fn outcome(root: Pending, strategy: Strategy) -> SearchModel {
    let begun = SearchModel::idle(root, strategy).started();
    begun.after(choose|n: nat| begun.after(n).is_settled())
}

/// `state` was reached from `root` and solves the puzzle: its route
/// continues the root's, each crossing after the root is described by its
/// step, and from the root on the route leads to a goal.
pub open spec fn continues(root: Pending, state: &WorldState) -> bool {
    let base = root.route.len() as int;
    &&& state.route().len() > base
    &&& state.route().take(base) == root.route
    &&& state.steps().len() == state.route().len()
    &&& state.steps().take(base) == root.steps
    &&& forall|i: int|
        base <= i < state.route().len() ==> #[trigger] state.steps()[i] == state.route()[i
            - 1].crossing_label(state.route()[i])
    &&& is_route(state.route())
    &&& reaches_goal(root.configuration(), state.route().skip(base - 1))
}

/// What a search has to say in the end.
#[derive(Debug)]
pub struct SearchReport {
    /// The goal state with its history, or nothing where no path leads to
    /// a goal.
    pub solution: Option<Rc<WorldState>>,
    /// The number of configurations that the search has met, the first
    /// one included.
    pub visited_states: usize,
}

impl SearchReport {
    /// The report is that of the search from `root` by `strategy`: it holds
    /// what that search ends with. A solution is a state that was reached
    /// from the root and solves the puzzle; there is none only where no path
    /// leads from the root to a goal. The solution of a breadth-first search
    /// makes no more crossings from the root than any path to a goal.
    pub open spec fn is_report_of(self, root: Pending, strategy: Strategy) -> bool {
        let end = outcome(root, strategy);
        &&& end.is_settled()
        &&& end.inv()
        &&& self.visited_states == end.visited_states
        &&& self.visited_states == end.visited.len()
        &&& match self.solution {
            Some(state) => {
                &&& end.winner == Some(
                    Pending {
                        route: state.route(),
                        steps: state.steps(),
                        path_cost: (state.route().len() - root.route.len()) as nat,
                    },
                )
                &&& continues(root, &*state)
                &&& strategy == Strategy::BreadthFirst ==> forall|path: Seq<Configuration>|
                    reaches_goal(root.configuration(), path) ==> state.route().len()
                        - root.route.len() <= path.len() - 1
            },
            None => {
                &&& end.winner is None
                &&& forall|path: Seq<Configuration>| !reaches_goal(root.configuration(), path)
            },
        }
    }

    /// The steps that lead to the solution, the description of the first
    /// state before them.
    pub fn steps(&self) -> (steps: Option<Vec<String>>)
        ensures
            match steps {
                Some(list) => self.solution matches Some(state) && list.deep_view()
                    == state.steps(),
                None => self.solution is None,
            },
    {
        match &self.solution {
            Some(state) => Some(state.get_step_by_step_vec()),
            None => None,
        }
    }

    /// The number of crossings in the history of the solution.
    pub fn number_of_moves(&self) -> (moves: Option<usize>)
        ensures
            match moves {
                Some(count) => self.solution matches Some(state) && count == state.route().len()
                    - 1,
                None => self.solution is None,
            },
    {
        match &self.solution {
            Some(state) => {
                let steps = state.get_step_by_step_vec();
                proof {
                    state.lemma_route_shape();
                    assert(steps.deep_view().len() == steps.len());
                }
                Some(steps.len() - 1)
            },
            None => None,
        }
    }
}

/// Searches from `initial` by `strategy` until a goal state leaves the
/// frontier or the frontier is empty.
pub fn search(initial: WorldState, strategy: Strategy) -> (report: SearchReport)
    ensures
        report.is_report_of(root_entry(&initial), strategy),
{
    let ghost root = root_entry(&initial);
    proof {
        use_type_invariant(&initial);
        initial.lemma_history();
        initial.lemma_route_shape();
    }
    let mut driver = SearchDriver::new(initial, strategy);
    let ghost idle = driver@;
    driver.start();
    let ghost begun = driver@;
    driver.run();
    let ghost end = driver@;
    let solution = driver.solution();
    let visited_states = driver.visited_states();
    proof {
        idle.lemma_after_frame(0);
        let n = choose|n: nat| end == begun.after(n);
        begun.lemma_after_frame(n);
        let m = choose|m: nat| begun.after(m).is_settled();
        begun.lemma_one_outcome(n, m);
        assert(outcome(root, strategy) == end);
        assert(idle.inv());
        idle.lemma_started();
        begun.lemma_after(n);
        assert(end.root == root);
        if end.phase == Phase::Exhausted {
            assert forall|path: Seq<Configuration>| !reaches_goal(
                root.configuration(),
                path,
            ) by {
                end.lemma_exhausted(path);
            }
        } else {
            end.lemma_succeeded();
            reveal(SearchModel::descends);
            if strategy == Strategy::BreadthFirst {
                assert forall|path: Seq<Configuration>|
                    reaches_goal(root.configuration(), path) implies end.winner->Some_0.path_cost
                    <= path.len() - 1 by {
                    idle.lemma_breadth_first_is_shortest(n, path);
                }
            }
        }
    }
    SearchReport { solution, visited_states }
}

/// The entry of a state that was read from text: it has no history and is
/// described as the root state.
pub open spec fn fresh_entry(configuration: Configuration) -> Pending {
    Pending { route: seq![configuration], steps: seq![root_label()], path_cost: 0 }
}

/// Reads an initial state from `text` and searches from it by `strategy`.
/// A text that spells no valid state is refused before any search begins.
pub fn solve(text: &str, strategy: Strategy) -> (solved: Result<SearchReport, WorldStateError>)
    ensures
        match solved {
            Ok(report) => parse_configuration(text@) matches Ok(configuration)
                && report.is_report_of(fresh_entry(configuration), strategy),
            Err(error) => parse_configuration(text@) == Err::<Configuration, WorldStateErrorView>(
                error@,
            ),
        },
{
    match WorldState::try_from(text) {
        Ok(initial) => Ok(search(initial, strategy)),
        Err(error) => Err(error),
    }
}

/// The configuration of the puzzle as it is told: everybody and the boat
/// on the right bank.
pub open spec fn classic_configuration() -> Configuration {
    Configuration {
        left_state: SideState { cannibals: 0, missionaries: 0 },
        right_state: SideState { cannibals: 3, missionaries: 3 },
        boat_side: BoatSide::RightSide,
    }
}

/// The puzzle as it is told, as a state without a history.
pub fn classic_state() -> (initial: WorldState)
    ensures
        root_entry(&initial) == fresh_entry(classic_configuration()),
{
    let made = WorldState::new(
        SideState::new(0, 0),
        SideState::new(3, 3),
        BoatSide::RightSide,
        "root state".to_string(),
    );
    match made {
        Ok(initial) => initial,
        Err(_) => vstd::pervasive::unreached(),
    }
}

/// Solves the puzzle as it is told, breadth first.
pub fn run_bfs() -> (report: SearchReport)
    ensures
        report.is_report_of(fresh_entry(classic_configuration()), Strategy::BreadthFirst),
{
    search(classic_state(), Strategy::BreadthFirst)
}

/// Solves the puzzle as it is told, depth first.
pub fn run_dfs() -> (report: SearchReport)
    ensures
        report.is_report_of(fresh_entry(classic_configuration()), Strategy::DepthFirst),
{
    search(classic_state(), Strategy::DepthFirst)
}

/// Solves the puzzle as it is told, by the heuristic alone.
pub fn run_greedy_best_first() -> (report: SearchReport)
    ensures
        report.is_report_of(fresh_entry(classic_configuration()), Strategy::GreedyBestFirst),
{
    search(classic_state(), Strategy::GreedyBestFirst)
}

/// Solves the puzzle as it is told, by heuristic plus path cost.
pub fn run_a_star() -> (report: SearchReport)
    ensures
        report.is_report_of(fresh_entry(classic_configuration()), Strategy::AStar),
{
    search(classic_state(), Strategy::AStar)
}

} // verus!
