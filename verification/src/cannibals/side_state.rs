//! One bank of the river, and the loads a boat can take away from it.

use vstd::prelude::*;

verus! {

/// How many people the boat carries at most.
pub const BOAT_CAPACITY: u8 = 2;

/// The people standing on one bank.
#[derive(Debug, Clone, Copy, PartialEq, Eq, Structural)]
pub struct SideState {
    pub cannibals: u8,
    pub missionaries: u8,
}

impl SideState {
    /// The missionaries on this bank are outnumbered, and there is at least one of them.
    pub open spec fn outnumbered(self) -> bool {
        self.cannibals > self.missionaries && self.missionaries > 0
    }

    /// A boat load of `cannibals` and `missionaries` can leave this bank: it
    /// holds somebody, fits the boat, and takes nobody who is not here.
    pub open spec fn can_send(self, cannibals: u8, missionaries: u8) -> bool {
        &&& 1 <= cannibals + missionaries <= BOAT_CAPACITY
        &&& cannibals <= self.cannibals
        &&& missionaries <= self.missionaries
    }

    /// The boat loads that can leave this bank, each as `(cannibals,
    /// missionaries)`, in the order in which they are tried.
    pub open spec fn send_combinations(self) -> Seq<(u8, u8)> {
        let c = self.cannibals;
        let m = self.missionaries;
        if c >= 2 && m >= 2 {
            seq![(2u8, 0u8), (0u8, 2u8), (1u8, 1u8), (1u8, 0u8), (0u8, 1u8)]
        } else if c >= 2 && m == 1 {
            seq![(2u8, 0u8), (0u8, 1u8), (1u8, 1u8), (1u8, 0u8)]
        } else if c >= 2 {
            seq![(2u8, 0u8), (1u8, 0u8)]
        } else if c == 1 && m >= 2 {
            seq![(0u8, 2u8), (0u8, 1u8), (1u8, 1u8), (1u8, 0u8)]
        } else if c == 1 && m == 1 {
            seq![(1u8, 0u8), (0u8, 1u8), (1u8, 1u8)]
        } else if c == 1 {
            seq![(1u8, 0u8)]
        } else if m >= 2 {
            seq![(0u8, 2u8), (0u8, 1u8)]
        } else if m == 1 {
            seq![(0u8, 1u8)]
        } else {
            seq![]
        }
    }

    /// A bank holding the given numbers of cannibals and missionaries.
    pub fn new(cannibals: u8, missionaries: u8) -> (side: Self)
        ensures
            side.cannibals == cannibals,
            side.missionaries == missionaries,
    {
        Self { cannibals, missionaries }
    }

    /// Whether the cannibals on this bank overwhelm the missionaries.
    pub fn cannibal_can_eat_missionary(&self) -> (eaten: bool)
        ensures
            eaten == self.outnumbered(),
    {
        self.cannibals > self.missionaries && self.missionaries > 0
    }

    /// All the boat loads that can leave this bank, as `(number_of_cannibals,
    /// number_of_missionaries)`. An empty bank sends nothing.
    pub fn get_all_send_combinations(&self) -> (combinations: Vec<(u8, u8)>)
        ensures
            combinations@ == self.send_combinations(),
    {
        let c = self.cannibals;
        let m = self.missionaries;
        let combinations: Vec<(u8, u8)> = if c >= 2 && m >= 2 {
            vec![(2u8, 0u8), (0u8, 2u8), (1u8, 1u8), (1u8, 0u8), (0u8, 1u8)]
        } else if c >= 2 && m == 1 {
            vec![(2u8, 0u8), (0u8, 1u8), (1u8, 1u8), (1u8, 0u8)]
        } else if c >= 2 {
            vec![(2u8, 0u8), (1u8, 0u8)]
        } else if c == 1 && m >= 2 {
            vec![(0u8, 2u8), (0u8, 1u8), (1u8, 1u8), (1u8, 0u8)]
        } else if c == 1 && m == 1 {
            vec![(1u8, 0u8), (0u8, 1u8), (1u8, 1u8)]
        } else if c == 1 {
            vec![(1u8, 0u8)]
        } else if m >= 2 {
            vec![(0u8, 2u8), (0u8, 1u8)]
        } else if m == 1 {
            vec![(0u8, 1u8)]
        } else {
            Vec::new()
        };
        assert(combinations@ =~= self.send_combinations());
        combinations
    }

    /// The table of boat loads holds exactly the loads that can leave the
    /// bank: every entry can be sent, and every load that can be sent is an
    /// entry.
    pub proof fn lemma_send_combinations_exact(self, cannibals: u8, missionaries: u8)
        ensures
            self.send_combinations().contains((cannibals, missionaries)) <==> self.can_send(
                cannibals,
                missionaries,
            ),
    {
        let table = self.send_combinations();
        let load = (cannibals, missionaries);
        if table.contains(load) {
            let i = choose|i: int| 0 <= i < table.len() && table[i] == load;
            self.lemma_send_combinations_sound(i);
        }
        if self.can_send(cannibals, missionaries) {
            let i = if load == (2u8, 0u8) {
                0int
            } else if load == (0u8, 2u8) {
                if self.cannibals >= 2 {
                    1int
                } else {
                    0int
                }
            } else if load == (1u8, 1u8) {
                2int
            } else if load == (1u8, 0u8) {
                if self.cannibals >= 2 && self.missionaries == 0 {
                    1int
                } else if self.cannibals == 1 && self.missionaries <= 1 {
                    0int
                } else {
                    3int
                }
            } else {
                if self.cannibals >= 2 && self.missionaries >= 2 {
                    4int
                } else if self.cannibals == 0 && self.missionaries == 1 {
                    0int
                } else {
                    1int
                }
            };
            assert(0 <= i < table.len() && table[i] == load);
        }
    }

    /// No boat load stands twice in the table.
    pub proof fn lemma_send_combinations_distinct(self)
        ensures
            self.send_combinations().no_duplicates(),
    {
    }

    /// Every entry of the table can be sent from this bank.
    pub proof fn lemma_send_combinations_sound(self, i: int)
        requires
            0 <= i < self.send_combinations().len(),
        ensures
            self.can_send(self.send_combinations()[i].0, self.send_combinations()[i].1),
    {
    }
}

} // verus!
