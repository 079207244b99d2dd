//! The states that a search has met: a table with one mark for each
//! configuration that the world can be in.

use crate::cannibals::world_state::BoatSide;
use crate::cannibals::world_state::Configuration;
use crate::cannibals::world_state::WorldState;
use vstd::array::*;
use vstd::prelude::*;

verus! {

/// The number of valid configurations: four counts of cannibals on the left
/// bank, four of missionaries, two banks for the boat.
pub const CONFIGURATIONS: usize = 32;

impl Configuration {
    /// The place of the configuration in the table of marks. Valid
    /// configurations have places of their own, all below 32.
    pub open spec fn slot(self) -> int {
        self.left_state.cannibals * 8 + self.left_state.missionaries * 2 + match self.boat_side {
            BoatSide::RightSide => 0int,
            BoatSide::LeftSide => 1int,
        }
    }

    /// Two valid configurations with the same place are the same, and the
    /// place of a valid configuration is in the table.
    pub proof fn lemma_slot(self, other: Configuration)
        requires
            self.is_valid(),
            other.is_valid(),
        ensures
            0 <= self.slot() < CONFIGURATIONS,
            self.slot() == other.slot() ==> self == other,
    {
    }
}

/// The number of marks in a table.
pub open spec fn marks(table: Seq<bool>) -> nat
    decreases table.len(),
{
    if table.len() == 0 {
        0
    } else {
        marks(table.drop_last()) + if table.last() {
            1nat
        } else {
            0nat
        }
    }
}

/// A table holds no more marks than it has places.
pub proof fn lemma_marks_bound(table: Seq<bool>)
    ensures
        marks(table) <= table.len(),
    decreases table.len(),
{
    if table.len() > 0 {
        lemma_marks_bound(table.drop_last());
    }
}

/// A mark at a place that had none is one mark more.
pub proof fn lemma_marks_grow(table: Seq<bool>, place: int)
    requires
        0 <= place < table.len(),
        !table[place],
    ensures
        marks(table.update(place, true)) == marks(table) + 1,
    decreases table.len(),
{
    let marked = table.update(place, true);
    if place == table.len() - 1 {
        assert(marked.drop_last() =~= table.drop_last());
    } else {
        lemma_marks_grow(table.drop_last(), place);
        assert(marked.drop_last() =~= table.drop_last().update(place, true));
    }
}

/// The configurations that a search has met.
pub struct VisitedSet {
    table: [bool; 32],
}

impl View for VisitedSet {
    type V = Set<Configuration>;

    closed spec fn view(&self) -> Set<Configuration> {
        Set::new(|c: Configuration| c.is_valid() && self.table@[c.slot()])
    }
}

impl VisitedSet {
    /// The number of configurations in the set.
    pub closed spec fn count(&self) -> nat {
        marks(self.table@)
    }

    /// Only valid configurations are in the set, and no more of them than
    /// there are.
    pub proof fn lemma_members(&self)
        ensures
            self.count() <= CONFIGURATIONS,
            forall|c: Configuration| #[trigger] self@.contains(c) ==> c.is_valid(),
    {
        lemma_marks_bound(self.table@);
    }

    /// A set that holds nothing.
    pub fn new() -> (visited: Self)
        ensures
            visited@ == Set::<Configuration>::empty(),
            visited.count() == 0,
    {
        let visited = Self { table: [false; 32] };
        assert(visited@ =~= Set::<Configuration>::empty());
        assert(marks(visited.table@) == 0) by {
            lemma_no_marks(visited.table@);
        }
        visited
    }

    /// The place of the state's configuration in the table.
    fn place_of(state: &WorldState) -> (place: usize)
        ensures
            place == state@.slot(),
            place < CONFIGURATIONS,
            state@.is_valid(),
    {
        proof {
            use_type_invariant(state);
            state.lemma_history();
        }
        let boat: usize = match state.boat_side() {
            BoatSide::RightSide => 0,
            BoatSide::LeftSide => 1,
        };
        state.left_state().cannibals as usize * 8 + state.left_state().missionaries as usize * 2
            + boat
    }

    /// Whether the configuration of `state` is in the set.
    pub fn contains(&self, state: &WorldState) -> (met: bool)
        ensures
            met == self@.contains(state@),
    {
        let place = Self::place_of(state);
        self.table[place]
    }

    /// Puts the configuration of `state` into the set, and says whether it
    /// was new to it.
    pub fn insert(&mut self, state: &WorldState) -> (fresh: bool)
        ensures
            final(self)@ == old(self)@.insert(state@),
            fresh == !old(self)@.contains(state@),
            final(self).count() == old(self).count() + if fresh {
                1nat
            } else {
                0nat
            },
    {
        let place = Self::place_of(state);
        if self.table[place] {
            assert(self@ =~= old(self)@.insert(state@));
            return false;
        }
        proof {
            lemma_marks_grow(self.table@, place as int);
        }
        self.table[place] = true;
        assert(self.table@ == old(self).table@.update(place as int, true));
        assert(self@ =~= old(self)@.insert(state@)) by {
            assert forall|c: Configuration| self@.contains(c) <==> old(self)@.insert(
                state@,
            ).contains(c) by {
                if c.is_valid() {
                    c.lemma_slot(state@);
                }
            }
        }
        true
    }

    /// The number of configurations in the set.
    pub fn len(&self) -> (count: usize)
        ensures
            count == self.count(),
            count <= CONFIGURATIONS,
    {
        let mut count: usize = 0;
        let mut i: usize = 0;
        assert(self.table@.take(0) =~= Seq::<bool>::empty());
        while i < 32
            invariant
                i <= 32,
                self.table@.len() == 32,
                count == marks(self.table@.take(i as int)),
                count <= i,
            decreases 32 - i,
        {
            assert(self.table@.take(i as int + 1).drop_last() =~= self.table@.take(i as int));
            if self.table[i] {
                count = count + 1;
            }
            i = i + 1;
        }
        assert(self.table@.take(32) =~= self.table@);
        count
    }
}

/// A table without a mark counts none.
proof fn lemma_no_marks(table: Seq<bool>)
    requires
        forall|i: int| 0 <= i < table.len() ==> !table[i],
    ensures
        marks(table) == 0,
    decreases table.len(),
{
    if table.len() > 0 {
        lemma_no_marks(table.drop_last());
    }
}

} // verus!
