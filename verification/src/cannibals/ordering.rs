//! Equality and order of states and of frontier entries.

use crate::cannibals::frontier::Pending;
use crate::cannibals::frontier::Strategy;
use crate::cannibals::frontier::WorldStateHeapWrapper;
use crate::cannibals::world_state::WorldState;
use std::cmp::Ordering;
use vstd::prelude::*;
use vstd::std_specs::cmp::PartialEqSpecImpl;
use vstd::std_specs::cmp::PartialOrdSpecImpl;

verus! {

/// How two numbers stand to each other.
pub open spec fn order_of(a: nat, b: nat) -> Ordering {
    if a < b {
        Ordering::Less
    } else if a > b {
        Ordering::Greater
    } else {
        Ordering::Equal
    }
}

/// How two entries stand to each other: by heuristic plus path cost, and
/// where that is the same, by heuristic.
pub open spec fn entry_order(a: Pending, b: Pending) -> Ordering {
    if a.total_cost() != b.total_cost() {
        order_of(a.total_cost(), b.total_cost())
    } else {
        order_of(a.heuristic(), b.heuristic())
    }
}

/// A frontier that runs by heuristic plus path cost prefers an entry to
/// another exactly where the first is the lesser one; entries without a path
/// cost stand to each other as their heuristics do, which is how a frontier
/// that runs by the heuristic alone prefers them.
pub proof fn lemma_entry_order(a: Pending, b: Pending)
    ensures
        Strategy::AStar.prefers(a, b) <==> entry_order(a, b) == Ordering::Less,
        a.path_cost == 0 && b.path_cost == 0 ==> entry_order(a, b) == order_of(
            a.heuristic(),
            b.heuristic(),
        ),
        a.path_cost == 0 && b.path_cost == 0 ==> (Strategy::GreedyBestFirst.prefers(a, b)
            <==> entry_order(a, b) == Ordering::Less),
{
}

impl PartialEq for WorldState {
    /// Two states are equal where their configurations are, whatever
    /// their histories.
    fn eq(&self, other: &Self) -> (same: bool) {
        self.left_state() == other.left_state() && self.right_state() == other.right_state()
            && self.boat_side() == other.boat_side()
    }
}

impl PartialEqSpecImpl for WorldState {
    open spec fn obeys_eq_spec() -> bool {
        true
    }

    open spec fn eq_spec(&self, other: &Self) -> bool {
        self@ == other@
    }
}

impl PartialOrd for WorldState {
    /// States are ordered by their heuristics: the lesser is the closer to
    /// the goal.
    fn partial_cmp(&self, other: &Self) -> (order: Option<Ordering>) {
        let mine = self.get_heuristic();
        let theirs = other.get_heuristic();
        if mine == theirs {
            Some(Ordering::Equal)
        } else if mine > theirs {
            Some(Ordering::Greater)
        } else {
            Some(Ordering::Less)
        }
    }
}

impl PartialOrdSpecImpl for WorldState {
    open spec fn obeys_partial_cmp_spec() -> bool {
        true
    }

    open spec fn partial_cmp_spec(&self, other: &Self) -> Option<Ordering> {
        Some(order_of(self@.heuristic(), other@.heuristic()))
    }
}

impl PartialEq for WorldStateHeapWrapper {
    /// Two entries are equal where neither comes before the other.
    fn eq(&self, other: &Self) -> (same: bool) {
        self.total_cost() == other.total_cost() && self.heuristic() == other.heuristic()
    }
}

impl PartialEqSpecImpl for WorldStateHeapWrapper {
    open spec fn obeys_eq_spec() -> bool {
        true
    }

    open spec fn eq_spec(&self, other: &Self) -> bool {
        entry_order(self@, other@) == Ordering::Equal
    }
}

impl PartialOrd for WorldStateHeapWrapper {
    /// Entries are ordered by heuristic plus path cost, and where that is
    /// the same, by heuristic.
    fn partial_cmp(&self, other: &Self) -> (order: Option<Ordering>) {
        let mine = self.total_cost();
        let theirs = other.total_cost();
        if mine > theirs {
            Some(Ordering::Greater)
        } else if mine < theirs {
            Some(Ordering::Less)
        } else {
            let my_heuristic = self.heuristic();
            let their_heuristic = other.heuristic();
            if my_heuristic > their_heuristic {
                Some(Ordering::Greater)
            } else if my_heuristic == their_heuristic {
                Some(Ordering::Equal)
            } else {
                Some(Ordering::Less)
            }
        }
    }
}

impl PartialOrdSpecImpl for WorldStateHeapWrapper {
    open spec fn obeys_partial_cmp_spec() -> bool {
        true
    }

    open spec fn partial_cmp_spec(&self, other: &Self) -> Option<Ordering> {
        Some(entry_order(self@, other@))
    }
}

} // verus!
