//! The states of the world: who stands on which bank, where the boat is, and
//! how the state was reached.

use crate::cannibals::side_state::SideState;
use crate::cannibals::text::decimal;
use crate::cannibals::text::join;
use crate::cannibals::text::join_texts;
use crate::cannibals::text::render_count;
use std::rc::Rc;
use vstd::prelude::*;
use vstd::string::*;

verus! {

/// How many cannibals the world holds.
pub const TOTAL_CANNIBALS: u8 = 3;

/// How many missionaries the world holds.
pub const TOTAL_MISSIONARIES: u8 = 3;

/// The bank at which the boat lies.
#[derive(Debug, Clone, Copy, PartialEq, Eq, Structural)]
pub enum BoatSide {
    RightSide,
    LeftSide,
}

impl BoatSide {
    /// The bank across the river.
    pub open spec fn opposite(self) -> BoatSide {
        match self {
            BoatSide::RightSide => BoatSide::LeftSide,
            BoatSide::LeftSide => BoatSide::RightSide,
        }
    }

    /// The word for this bank.
    pub open spec fn word(self) -> Seq<char> {
        match self {
            BoatSide::RightSide => "right"@,
            BoatSide::LeftSide => "left"@,
        }
    }

    /// The bank across the river.
    pub fn other_side(self) -> (side: BoatSide)
        ensures
            side == self.opposite(),
    {
        match self {
            BoatSide::RightSide => BoatSide::LeftSide,
            BoatSide::LeftSide => BoatSide::RightSide,
        }
    }

    /// The word for this bank: `"right"` or `"left"`.
    pub fn name(self) -> (word: &'static str)
        ensures
            word@ == self.word(),
    {
        match self {
            BoatSide::RightSide => "right",
            BoatSide::LeftSide => "left",
        }
    }
}

/// What went wrong when a state was built or read.
#[non_exhaustive]
#[derive(Debug, PartialEq)]
pub enum WorldStateError {
    /// The missionaries on the two banks do not add up; holds their number.
    ImpossibleNumberOfMissionaries(u8),
    /// The cannibals on the two banks do not add up; holds their number.
    ImpossibleNumberOfCannibals(u8),
    /// The text of a state could not be read; holds the reason.
    ParseFromStringError(String),
}

/// What a state is made or read as: the state, or the reason why not.
pub type WorldStateResult = Result<WorldState, WorldStateError>;

/// A `WorldStateError` with its text as a sequence of characters.
pub enum WorldStateErrorView {
    ImpossibleNumberOfMissionaries(u8),
    ImpossibleNumberOfCannibals(u8),
    ParseFromStringError(Seq<char>),
}

impl View for WorldStateError {
    type V = WorldStateErrorView;

    open spec fn view(&self) -> WorldStateErrorView {
        match self {
            WorldStateError::ImpossibleNumberOfMissionaries(n) => {
                WorldStateErrorView::ImpossibleNumberOfMissionaries(*n)
            },
            WorldStateError::ImpossibleNumberOfCannibals(n) => {
                WorldStateErrorView::ImpossibleNumberOfCannibals(*n)
            },
            WorldStateError::ParseFromStringError(reason) => {
                WorldStateErrorView::ParseFromStringError(reason@)
            },
        }
    }
}

impl WorldStateErrorView {
    /// The sentence that says what kind of error this is.
    pub open spec fn message(self) -> Seq<char> {
        match self {
            WorldStateErrorView::ImpossibleNumberOfMissionaries(_) => {
                "Impossible number of missionaries"@
            },
            WorldStateErrorView::ImpossibleNumberOfCannibals(_) => {
                "Impossible number of cannibals"@
            },
            WorldStateErrorView::ParseFromStringError(_) => {
                "Error when trying to parse from WorldState string"@
            },
        }
    }
}

impl WorldStateError {
    /// The sentence that says what kind of error this is.
    pub fn message(&self) -> (text: String)
        ensures
            text@ == self@.message(),
    {
        match self {
            WorldStateError::ImpossibleNumberOfMissionaries(_) => {
                "Impossible number of missionaries".to_string()
            },
            WorldStateError::ImpossibleNumberOfCannibals(_) => {
                "Impossible number of cannibals".to_string()
            },
            WorldStateError::ParseFromStringError(_) => {
                "Error when trying to parse from WorldState string".to_string()
            },
        }
    }
}

/// A total as an error reports it: the number itself, or 255 where it is larger.
pub open spec fn reported(total: int) -> u8 {
    if total > u8::MAX {
        u8::MAX
    } else {
        total as u8
    }
}

/// The words that describe one crossing of the boat.
pub open spec fn move_label(cannibals: u8, missionaries: u8, destination: BoatSide) -> Seq<char> {
    "send "@ + decimal(cannibals as nat) + " cannibals and "@ + decimal(missionaries as nat)
        + " missionaries to the "@ + destination.word() + " side"@
}

/// The distance between two counts.
pub open spec fn gap(a: u8, b: u8) -> u8 {
    if a >= b {
        (a - b) as u8
    } else {
        (b - a) as u8
    }
}

/// One configuration of the world: a state without its history.
pub struct Configuration {
    pub left_state: SideState,
    pub right_state: SideState,
    pub boat_side: BoatSide,
}

impl Configuration {
    /// The cannibals of both banks.
    pub open spec fn total_cannibals(self) -> int {
        self.left_state.cannibals + self.right_state.cannibals
    }

    /// The missionaries of both banks.
    pub open spec fn total_missionaries(self) -> int {
        self.left_state.missionaries + self.right_state.missionaries
    }

    /// Nobody is missing and nobody was added.
    pub open spec fn is_valid(self) -> bool {
        &&& self.total_cannibals() == TOTAL_CANNIBALS
        &&& self.total_missionaries() == TOTAL_MISSIONARIES
    }

    /// The configuration itself where it is valid, else the error that says
    /// which total is wrong: the cannibals are counted first.
    pub open spec fn validated(self) -> Result<Configuration, WorldStateErrorView> {
        if self.total_cannibals() != TOTAL_CANNIBALS {
            Err(WorldStateErrorView::ImpossibleNumberOfCannibals(reported(self.total_cannibals())))
        } else if self.total_missionaries() != TOTAL_MISSIONARIES {
            Err(
                WorldStateErrorView::ImpossibleNumberOfMissionaries(
                    reported(self.total_missionaries()),
                ),
            )
        } else {
            Ok(self)
        }
    }

    /// All the missionaries stand on the left bank.
    pub open spec fn is_goal(self) -> bool {
        self.left_state.missionaries == TOTAL_MISSIONARIES
    }

    /// On one of the banks the missionaries are outnumbered.
    pub open spec fn is_failure(self) -> bool {
        self.left_state.outnumbered() || self.right_state.outnumbered()
    }

    /// The number of missionaries that still have to reach the left bank.
    pub open spec fn heuristic(self) -> nat {
        if self.left_state.missionaries >= TOTAL_MISSIONARIES {
            0
        } else {
            (TOTAL_MISSIONARIES - self.left_state.missionaries) as nat
        }
    }

    /// The bank at which the boat lies.
    pub open spec fn departure_side(self) -> SideState {
        match self.boat_side {
            BoatSide::LeftSide => self.left_state,
            BoatSide::RightSide => self.right_state,
        }
    }

    /// The boat loads that can leave, in the order in which they are tried.
    pub open spec fn loads(self) -> Seq<(u8, u8)> {
        self.departure_side().send_combinations()
    }

    /// The configuration after the boat has crossed with `load`, which is
    /// `(cannibals, missionaries)`.
    pub open spec fn after(self, load: (u8, u8)) -> Configuration {
        match self.boat_side {
            BoatSide::LeftSide => Configuration {
                left_state: SideState {
                    cannibals: (self.left_state.cannibals - load.0) as u8,
                    missionaries: (self.left_state.missionaries - load.1) as u8,
                },
                right_state: SideState {
                    cannibals: (self.right_state.cannibals + load.0) as u8,
                    missionaries: (self.right_state.missionaries + load.1) as u8,
                },
                boat_side: BoatSide::RightSide,
            },
            BoatSide::RightSide => Configuration {
                left_state: SideState {
                    cannibals: (self.left_state.cannibals + load.0) as u8,
                    missionaries: (self.left_state.missionaries + load.1) as u8,
                },
                right_state: SideState {
                    cannibals: (self.right_state.cannibals - load.0) as u8,
                    missionaries: (self.right_state.missionaries - load.1) as u8,
                },
                boat_side: BoatSide::LeftSide,
            },
        }
    }

    /// The configurations that one crossing leads to, one for each boat load.
    pub open spec fn successors(self) -> Seq<Configuration> {
        Seq::new(self.loads().len(), |i: int| self.after(self.loads()[i]))
    }

    /// One crossing leads from this configuration to `next`.
    pub open spec fn leads_to(self, next: Configuration) -> bool {
        exists|i: int| 0 <= i < self.successors().len() && self.successors()[i] == next
    }

    /// The words that describe the crossing from this configuration to `next`.
    pub open spec fn crossing_label(self, next: Configuration) -> Seq<char> {
        move_label(
            gap(self.left_state.cannibals, next.left_state.cannibals),
            gap(self.left_state.missionaries, next.left_state.missionaries),
            next.boat_side,
        )
    }

    /// A configuration passes the check exactly where the cannibals of its
    /// two banks are three and the missionaries are three; what passes is
    /// the configuration itself.
    pub proof fn lemma_validated(self)
        ensures
            self.validated() is Ok <==> self.is_valid(),
            self.is_valid() <==> (self.left_state.cannibals + self.right_state.cannibals == 3
                && self.left_state.missionaries + self.right_state.missionaries == 3),
            self.validated() is Ok ==> self.validated()->Ok_0 == self,
    {
    }

    /// A configuration with all the missionaries on the left bank and none
    /// on the right one is a goal, wherever the boat and the cannibals are.
    /// A valid configuration is a goal exactly where no missionary is on
    /// the right bank, and a valid goal is no failure.
    pub proof fn lemma_goal(self)
        ensures
            self.left_state.missionaries == TOTAL_MISSIONARIES && self.right_state.missionaries
                == 0 ==> self.is_goal(),
            self.is_valid() ==> (self.is_goal() <==> self.right_state.missionaries == 0),
            self.is_valid() && self.is_goal() ==> !self.is_failure() && self.heuristic() == 0,
    {
    }

    /// A crossing moves the boat to the other bank, takes from the bank it
    /// leaves exactly what it brings to the other, and so keeps a valid
    /// configuration valid.
    pub proof fn lemma_successor(self, i: int)
        requires
            self.is_valid(),
            0 <= i < self.successors().len(),
        ensures
            self.successors()[i].boat_side == self.boat_side.opposite(),
            self.successors()[i].is_valid(),
            self.successors()[i] == self.after(self.loads()[i]),
            self.departure_side().can_send(self.loads()[i].0, self.loads()[i].1),
            self.crossing_label(self.successors()[i]) == move_label(
                self.loads()[i].0,
                self.loads()[i].1,
                self.boat_side.opposite(),
            ),
    {
        self.departure_side().lemma_send_combinations_sound(i);
    }
}

/// A legal history: valid configurations, each reached from the one before
/// it by one crossing.
pub open spec fn is_route(route: Seq<Configuration>) -> bool {
    &&& route.len() > 0
    &&& forall|i: int| 0 <= i < route.len() ==> (#[trigger] route[i]).is_valid()
    &&& forall|i: int| 0 <= i < route.len() - 1 ==> (#[trigger] route[i]).leads_to(route[i + 1])
}

/// The descriptions along a route: the label of its first configuration,
/// then the words for each crossing.
pub open spec fn steps_along(label: Seq<char>, route: Seq<Configuration>) -> Seq<Seq<char>> {
    Seq::new(
        route.len(),
        |i: int|
            if i == 0 {
                label
            } else {
                route[i - 1].crossing_label(route[i])
            },
    )
}

/// A state of the world. It is valid by construction, and it remembers the
/// state it came from and the crossing that led to it.
#[derive(Debug)]
pub struct WorldState {
    left_state: SideState,
    right_state: SideState,
    boat_side: BoatSide,
    parent: Option<Rc<WorldState>>,
    description: String,
}

impl View for WorldState {
    type V = Configuration;

    closed spec fn view(&self) -> Configuration {
        Configuration {
            left_state: self.left_state,
            right_state: self.right_state,
            boat_side: self.boat_side,
        }
    }
}

/// Calls `Rc::clone`, which makes another pointer to the same
/// allocation. What is taken on trust: the handle that comes back points to
/// the very state that `state` points to.
#[verifier::external_body]
pub(crate) fn share(state: &Rc<WorldState>) -> (handle: Rc<WorldState>)
    ensures
        handle == *state,
{
    Rc::clone(state)
}

impl WorldState {
    /// What every state satisfies: its configuration is valid, and so is
    /// its history, each state of which led to the next by the crossing that
    /// the next one describes.
    #[verifier::type_invariant]
    pub closed spec fn well_formed(&self) -> bool
        decreases self,
    {
        &&& self@.is_valid()
        &&& match self.parent {
            Some(parent) => {
                &&& parent.well_formed()
                &&& parent@.leads_to(self@)
                &&& self.description@ == parent@.crossing_label(self@)
            },
            None => true,
        }
    }

    /// The configurations from the first state of the history to this one.
    pub closed spec fn route(&self) -> Seq<Configuration>
        decreases self,
    {
        match self.parent {
            Some(parent) => parent.route().push(self@),
            None => seq![self@],
        }
    }

    /// The descriptions from the first state of the history to this one.
    pub closed spec fn steps(&self) -> Seq<Seq<char>>
        decreases self,
    {
        match self.parent {
            Some(parent) => parent.steps().push(self.description@),
            None => seq![self.description@],
        }
    }

    /// The route ends in this state, and has one description for each of
    /// its configurations.
    pub proof fn lemma_route_shape(&self)
        ensures
            self.route().len() > 0,
            self.route().last() == self@,
            self.steps().len() == self.route().len(),
        decreases self,
    {
        match self.parent {
            Some(parent) => {
                parent.lemma_route_shape();
            },
            None => {},
        }
    }

    /// The history of a well-formed state is a legal route, described by the
    /// label of its first state and the words for each crossing.
    pub proof fn lemma_history(&self)
        requires
            self.well_formed(),
        ensures
            self@.is_valid(),
            is_route(self.route()),
            self.steps() == steps_along(self.steps()[0], self.route()),
        decreases self,
    {
        self.lemma_route_shape();
        match self.parent {
            Some(parent) => {
                parent.lemma_history();
                parent.lemma_route_shape();
                let route = self.route();
                assert forall|i: int| 0 <= i < route.len() - 1 implies (#[trigger] route[i]).leads_to(
                    route[i + 1],
                ) by {
                    if i < route.len() - 2 {
                        assert(route[i] == parent.route()[i]);
                        assert(route[i + 1] == parent.route()[i + 1]);
                    }
                }
                assert(self.steps() =~= steps_along(self.steps()[0], self.route()));
            },
            None => {
                assert(self.steps() =~= steps_along(self.steps()[0], self.route()));
            },
        }
    }

    /// A state without a history, described by `backtrack`. The counts must
    /// add up to the world's totals: the cannibals are checked first, and the
    /// error holds the total that was found (255 for a larger one).
    pub fn new(
        left_state: SideState,
        right_state: SideState,
        boat_side: BoatSide,
        backtrack: String,
    ) -> (made: Result<Self, WorldStateError>)
        ensures
            match made {
                Ok(state) => {
                    &&& (Configuration { left_state, right_state, boat_side }).validated() == Ok::<
                        Configuration,
                        WorldStateErrorView,
                    >(state@)
                    &&& state.route() == seq![state@]
                    &&& state.steps() == seq![backtrack@]
                    &&& state.well_formed()
                },
                Err(error) => (Configuration { left_state, right_state, boat_side }).validated()
                    == Err::<Configuration, WorldStateErrorView>(error@),
            },
    {
        Self::assemble(left_state, right_state, boat_side, None, backtrack)
    }

    /// Checks the totals and builds the state, with or without a parent.
    fn assemble(
        left_state: SideState,
        right_state: SideState,
        boat_side: BoatSide,
        parent: Option<Rc<WorldState>>,
        description: String,
    ) -> (made: Result<Self, WorldStateError>)
        requires
            match parent {
                Some(from) => {
                    &&& from.well_formed()
                    &&& from@.leads_to(Configuration { left_state, right_state, boat_side })
                    &&& description@ == from@.crossing_label(
                        Configuration { left_state, right_state, boat_side },
                    )
                },
                None => true,
            },
        ensures
            match made {
                Ok(state) => {
                    &&& (Configuration { left_state, right_state, boat_side }).validated() == Ok::<
                        Configuration,
                        WorldStateErrorView,
                    >(state@)
                    &&& state.well_formed()
                    &&& match parent {
                        Some(from) => {
                            &&& state.route() == from.route().push(state@)
                            &&& state.steps() == from.steps().push(description@)
                        },
                        None => {
                            &&& state.route() == seq![state@]
                            &&& state.steps() == seq![description@]
                        },
                    }
                },
                Err(error) => (Configuration { left_state, right_state, boat_side }).validated()
                    == Err::<Configuration, WorldStateErrorView>(error@),
            },
    {
        let total_cannibals: u16 = left_state.cannibals as u16 + right_state.cannibals as u16;
        let total_missionaries: u16 = left_state.missionaries as u16
            + right_state.missionaries as u16;
        if total_cannibals != TOTAL_CANNIBALS as u16 {
            Err(WorldStateError::ImpossibleNumberOfCannibals(saturate(total_cannibals)))
        } else if total_missionaries != TOTAL_MISSIONARIES as u16 {
            Err(WorldStateError::ImpossibleNumberOfMissionaries(saturate(total_missionaries)))
        } else {
            Ok(WorldState { left_state, right_state, boat_side, parent, description })
        }
    }

    /// The people on the left bank. With those on the right bank they
    /// are three cannibals and three missionaries, whatever the state.
    pub fn left_state(&self) -> (side: SideState)
        ensures
            side == self@.left_state,
            self@.is_valid(),
    {
        proof {
            use_type_invariant(self);
        }
        self.left_state
    }

    /// The people on the right bank. With those on the left bank they
    /// are three cannibals and three missionaries, whatever the state.
    pub fn right_state(&self) -> (side: SideState)
        ensures
            side == self@.right_state,
            self@.is_valid(),
    {
        proof {
            use_type_invariant(self);
        }
        self.right_state
    }

    /// The bank at which the boat lies.
    pub fn boat_side(&self) -> (side: BoatSide)
        ensures
            side == self@.boat_side,
    {
        self.boat_side
    }

    /// Whether all the missionaries have reached the left bank.
    pub fn is_solution(&self) -> (solved: bool)
        ensures
            solved == self@.is_goal(),
    {
        self.left_state.missionaries == TOTAL_MISSIONARIES
    }

    /// Whether the missionaries are outnumbered on one of the banks.
    pub fn is_game_over(&self) -> (lost: bool)
        ensures
            lost == self@.is_failure(),
    {
        self.left_state.cannibal_can_eat_missionary()
            || self.right_state.cannibal_can_eat_missionary()
    }

    /// How far this state is from the goal: the number of missionaries that
    /// are not yet on the left bank. The lower, the closer.
    pub fn get_heuristic(&self) -> (estimate: u8)
        ensures
            estimate == self@.heuristic(),
            estimate == TOTAL_MISSIONARIES - self@.left_state.missionaries,
    {
        proof {
            use_type_invariant(self);
        }
        TOTAL_MISSIONARIES - self.left_state.missionaries
    }

    /// This state was made by the `i`-th crossing that leaves `parent`,
    /// with `parent`'s history behind it.
    pub open spec fn is_child_of(&self, parent: &WorldState, i: int) -> bool {
        &&& 0 <= i < parent@.successors().len()
        &&& self@ == parent@.successors()[i]
        &&& self@.boat_side == parent@.boat_side.opposite()
        &&& self.route() == parent.route().push(self@)
        &&& self.steps() == parent.steps().push(parent@.crossing_label(self@))
        &&& self.well_formed()
    }

    /// This state is what the `i`-th crossing that leaves `parent` leads to,
    /// taken by itself: it has no history, and is described by the crossing.
    pub open spec fn is_son_of(&self, parent: &WorldState, i: int) -> bool {
        &&& 0 <= i < parent@.successors().len()
        &&& self@ == parent@.successors()[i]
        &&& self@.boat_side == parent@.boat_side.opposite()
        &&& self.route() == seq![self@]
        &&& self.steps() == seq![parent@.crossing_label(self@)]
        &&& self.well_formed()
    }

    /// The state after the boat has crossed with `load`, behind `parent`
    /// (which is this state) or by itself.
    fn cross(&self, load: (u8, u8), parent: Option<Rc<WorldState>>, Ghost(i): Ghost<int>) -> (made:
        Result<WorldState, WorldStateError>)
        requires
            0 <= i < self@.successors().len(),
            load == self@.loads()[i],
            parent matches Some(from) ==> *from == *self,
        ensures
            match made {
                Ok(state) => match parent {
                    Some(_) => state.is_child_of(self, i),
                    None => state.is_son_of(self, i),
                },
                Err(_) => false,
            },
    {
        proof {
            use_type_invariant(self);
            self@.lemma_successor(i);
        }
        let (cannibals, missionaries) = load;
        let destination = self.boat_side.other_side();
        let description = describe_move(cannibals, missionaries, destination);
        match self.boat_side {
            BoatSide::LeftSide => Self::assemble(
                SideState::new(
                    self.left_state.cannibals - cannibals,
                    self.left_state.missionaries - missionaries,
                ),
                SideState::new(
                    self.right_state.cannibals + cannibals,
                    self.right_state.missionaries + missionaries,
                ),
                destination,
                parent,
                description,
            ),
            BoatSide::RightSide => Self::assemble(
                SideState::new(
                    self.left_state.cannibals + cannibals,
                    self.left_state.missionaries + missionaries,
                ),
                SideState::new(
                    self.right_state.cannibals - cannibals,
                    self.right_state.missionaries - missionaries,
                ),
                destination,
                parent,
                description,
            ),
        }
    }

    /// The boat loads that can leave this state.
    fn loads(&self) -> (loads: Vec<(u8, u8)>)
        ensures
            loads@ == self@.loads(),
    {
        match self.boat_side {
            BoatSide::LeftSide => self.left_state.get_all_send_combinations(),
            BoatSide::RightSide => self.right_state.get_all_send_combinations(),
        }
    }

    /// All the states that one crossing leads to, one for each boat load
    /// that can leave, in the order of the loads. Each is checked like any
    /// new state; each remembers this state and the crossing that made it.
    /// The boat of each lies at the other bank.
    pub fn get_child_states(&self) -> (children: Vec<Result<WorldState, WorldStateError>>)
        ensures
            children@.len() == self@.successors().len(),
            forall|i: int|
                0 <= i < children@.len() ==> match #[trigger] children@[i] {
                    Ok(child) => child.is_child_of(self, i),
                    Err(_) => false,
                },
    {
        let loads = self.loads();
        let parent = Rc::new(self.clone());
        let mut children: Vec<Result<WorldState, WorldStateError>> = Vec::new();
        let mut i: usize = 0;
        while i < loads.len()
            invariant
                i <= loads.len(),
                loads@ == self@.loads(),
                *parent == *self,
                children@.len() == i,
                forall|j: int|
                    0 <= j < i ==> match #[trigger] children@[j] {
                        Ok(child) => child.is_child_of(self, j),
                        Err(_) => false,
                    },
            decreases loads.len() - i,
        {
            let child = self.cross(loads[i], Some(share(&parent)), Ghost(i as int));
            children.push(child);
            i = i + 1;
        }
        children
    }

    /// The states that one crossing leads to, as `get_child_states` orders
    /// them, each taken by itself: without a history.
    pub fn get_son_states(&self) -> (sons: Vec<Result<WorldState, WorldStateError>>)
        ensures
            sons@.len() == self@.successors().len(),
            forall|i: int|
                0 <= i < sons@.len() ==> match #[trigger] sons@[i] {
                    Ok(son) => son.is_son_of(self, i),
                    Err(_) => false,
                },
    {
        let loads = self.loads();
        let mut sons: Vec<Result<WorldState, WorldStateError>> = Vec::new();
        let mut i: usize = 0;
        while i < loads.len()
            invariant
                i <= loads.len(),
                loads@ == self@.loads(),
                sons@.len() == i,
                forall|j: int|
                    0 <= j < i ==> match #[trigger] sons@[j] {
                        Ok(son) => son.is_son_of(self, j),
                        Err(_) => false,
                    },
            decreases loads.len() - i,
        {
            let son = self.cross(loads[i], None, Ghost(i as int));
            sons.push(son);
            i = i + 1;
        }
        sons
    }

    /// How this state was reached, step by step: the description of the
    /// first state of its history, then the words for each crossing, in the
    /// order in which they were made. The history is walked from this state
    /// back to its first one, and what was collected is then turned round.
    pub fn get_step_by_step_vec(&self) -> (steps: Vec<String>)
        ensures
            steps.deep_view() == self.steps(),
    {
        let mut collected: Vec<String> = Vec::new();
        let mut current: &WorldState = self;
        let ghost all = self.steps();
        proof {
            self.lemma_route_shape();
            assert(all.take(all.len() as int) =~= all);
        }
        loop
            invariant_except_break
                current.steps() == all.take(all.len() - collected.len()),
            invariant
                all == self.steps(),
                collected.len() <= all.len(),
                forall|j: int|
                    0 <= j < collected.len() ==> (#[trigger] collected@[j])@ == all[all.len() - 1
                        - j],
            ensures
                collected.len() == all.len(),
            decreases current,
        {
            proof {
                current.lemma_route_shape();
                assert(current.steps().last() == current.description@);
                assert(current.steps().len() == all.len() - collected.len());
                assert(current.steps().last() == all[all.len() - collected.len() - 1]);
            }
            collected.push(current.description.clone());
            match &current.parent {
                Some(parent) => {
                    proof {
                        parent.lemma_route_shape();
                        assert(parent.steps() =~= all.take(all.len() - collected.len()));
                    }
                    current = parent;
                },
                None => {
                    break ;
                },
            }
        }
        let mut steps: Vec<String> = Vec::new();
        while collected.len() > 0
            invariant
                steps.len() + collected.len() == all.len(),
                forall|j: int|
                    0 <= j < collected.len() ==> (#[trigger] collected@[j])@ == all[all.len() - 1
                        - j],
                forall|j: int| 0 <= j < steps.len() ==> (#[trigger] steps@[j])@ == all[j],
            decreases collected.len(),
        {
            let step = collected.pop().unwrap();
            steps.push(step);
        }
        assert(steps.deep_view() =~= all);
        steps
    }

    /// How this state was reached, as one line: the steps of
    /// `get_step_by_step_vec` with a bar between each two of them.
    pub fn get_step_by_step(&self) -> (line: String)
        ensures
            line@ == join(self.steps(), seq!['|']),
    {
        proof {
            reveal_strlit("|");
            assert("|"@ =~= seq!['|']);
        }
        let steps = self.get_step_by_step_vec();
        join_texts(&steps, "|")
    }

    /// The words that describe the crossing from `parent` to this state.
    pub fn describe_move_from(&self, parent: &WorldState) -> (text: String)
        ensures
            text@ == parent@.crossing_label(self@),
    {
        describe_move(
            distance(parent.left_state.cannibals, self.left_state.cannibals),
            distance(parent.left_state.missionaries, self.left_state.missionaries),
            self.boat_side,
        )
    }
}

impl Clone for WorldState {
    /// A copy of the state, which shares its history with the state it
    /// was made from.
    fn clone(&self) -> (copy: Self)
        ensures
            copy == *self,
    {
        proof {
            use_type_invariant(self);
        }
        let parent = match &self.parent {
            Some(from) => Some(share(from)),
            None => None,
        };
        WorldState {
            left_state: self.left_state,
            right_state: self.right_state,
            boat_side: self.boat_side,
            parent,
            description: self.description.clone(),
        }
    }
}

/// The distance between two counts.
fn distance(a: u8, b: u8) -> (d: u8)
    ensures
        d == gap(a, b),
{
    if a >= b {
        a - b
    } else {
        b - a
    }
}

/// The words for a crossing: how many of each kind the boat takes, and to
/// which bank.
pub fn describe_move(cannibals: u8, missionaries: u8, destination: BoatSide) -> (text: String)
    ensures
        text@ == move_label(cannibals, missionaries, destination),
{
    let mut text = String::new();
    text.append("send ");
    text.append(render_count(cannibals).as_str());
    text.append(" cannibals and ");
    text.append(render_count(missionaries).as_str());
    text.append(" missionaries to the ");
    text.append(destination.name());
    text.append(" side");
    assert(text@ =~= move_label(cannibals, missionaries, destination));
    text
}

/// The total as an error reports it.
fn saturate(total: u16) -> (shown: u8)
    ensures
        shown == reported(total as int),
{
    if total > u8::MAX as u16 {
        u8::MAX
    } else {
        total as u8
    }
}

} // verus!
