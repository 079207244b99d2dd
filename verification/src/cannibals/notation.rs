//! States as text: the canonical key of a state, and the reading of an
//! initial state from a line of five words.

use crate::cannibals::side_state::SideState;
use crate::cannibals::text::chars_of;
use crate::cannibals::text::decimal;
use crate::cannibals::text::is_plain_numeral;
use crate::cannibals::text::is_word;
use crate::cannibals::text::join_texts;
use crate::cannibals::text::join_words;
use crate::cannibals::text::lemma_decimal;
use crate::cannibals::text::lemma_digits;
use crate::cannibals::text::lemma_plain_numeral;
use crate::cannibals::text::lemma_trim_word;
use crate::cannibals::text::lemma_words_are_words;
use crate::cannibals::text::lemma_words_of_joined;
use crate::cannibals::text::normalize;
use crate::cannibals::text::parse_count;
use crate::cannibals::text::read_count;
use crate::cannibals::text::render_count;
use crate::cannibals::text::spells;
use crate::cannibals::text::split_words;
use crate::cannibals::text::texts_of;
use crate::cannibals::text::trim;
use crate::cannibals::text::trimmed;
use crate::cannibals::text::unsigned_part;
use crate::cannibals::text::words;
use crate::cannibals::world_state::BoatSide;
use crate::cannibals::world_state::Configuration;
use crate::cannibals::world_state::WorldState;
use crate::cannibals::world_state::WorldStateError;
use crate::cannibals::world_state::WorldStateErrorView;
use vstd::prelude::*;
use vstd::std_specs::convert::FromSpecImpl;
use vstd::std_specs::convert::TryFromSpecImpl;
use vstd::string::*;

verus! {

/// The description that a state read from text gets.
pub open spec fn root_label() -> Seq<char> {
    "root state"@
}

/// The bank that `text` names, white space at its ends apart.
pub open spec fn parse_side(text: Seq<char>) -> Option<BoatSide> {
    if trim(text) == "right"@ {
        Some(BoatSide::RightSide)
    } else if trim(text) == "left"@ {
        Some(BoatSide::LeftSide)
    } else {
        None
    }
}

/// What went wrong with a text that names no bank.
pub open spec fn side_error() -> WorldStateErrorView {
    WorldStateErrorView::ParseFromStringError("Invalid Value For BoatSide"@)
}

/// What went wrong with a text of fewer than five words.
pub open spec fn length_error() -> WorldStateErrorView {
    WorldStateErrorView::ParseFromStringError("Non sufficient number of args"@)
}

/// What went wrong with a word that spells no count.
pub open spec fn count_error() -> WorldStateErrorView {
    WorldStateErrorView::ParseFromStringError(
        "Error while trying to parse a number from string"@,
    )
}

/// The configuration that `text` spells: the cannibals and the
/// missionaries of the left bank, those of the right bank, and the bank of
/// the boat, as five words; further words are not read. Else the first error
/// met: too few words, a word that spells no count, a word that names no
/// bank, a wrong total.
pub open spec fn parse_configuration(text: Seq<char>) -> Result<
    Configuration,
    WorldStateErrorView,
> {
    let found = words(text);
    if found.len() < 5 {
        Err(length_error())
    } else if parse_count(found[0]) is None || parse_count(found[1]) is None || parse_count(
        found[2],
    ) is None || parse_count(found[3]) is None {
        Err(count_error())
    } else if parse_side(found[4]) is None {
        Err(side_error())
    } else {
        (Configuration {
            left_state: SideState {
                cannibals: parse_count(found[0])->Some_0,
                missionaries: parse_count(found[1])->Some_0,
            },
            right_state: SideState {
                cannibals: parse_count(found[2])->Some_0,
                missionaries: parse_count(found[3])->Some_0,
            },
            boat_side: parse_side(found[4])->Some_0,
        }).validated()
    }
}

/// A text that spells a state in the plainest way but for its white space:
/// it is read without an error, it has five words and no more, and each
/// count is written without a sign and without a zero before another digit.
pub open spec fn is_well_formed_text(text: Seq<char>) -> bool {
    &&& parse_configuration(text) is Ok
    &&& words(text).len() == 5
    &&& forall|i: int| 0 <= i < 4 ==> is_plain_numeral(#[trigger] words(text)[i])
}

impl Configuration {
    /// The five words of the canonical key.
    pub open spec fn key_words(self) -> Seq<Seq<char>> {
        seq![
            decimal(self.left_state.cannibals as nat),
            decimal(self.left_state.missionaries as nat),
            decimal(self.right_state.cannibals as nat),
            decimal(self.right_state.missionaries as nat),
            self.boat_side.word(),
        ]
    }

    /// The canonical key: the four counts in decimal and the bank of the
    /// boat, with one blank between each two.
    pub open spec fn key(self) -> Seq<char> {
        join_words(self.key_words())
    }

    /// The words of a canonical key are words, and spell what they were
    /// written for.
    pub proof fn lemma_key_words(self)
        ensures
            self.key_words().len() == 5,
            forall|i: int| 0 <= i < 5 ==> is_word(#[trigger] self.key_words()[i]),
            words(self.key()) == self.key_words(),
            parse_count(self.key_words()[0]) == Some(self.left_state.cannibals),
            parse_count(self.key_words()[1]) == Some(self.left_state.missionaries),
            parse_count(self.key_words()[2]) == Some(self.right_state.cannibals),
            parse_count(self.key_words()[3]) == Some(self.right_state.missionaries),
            parse_side(self.key_words()[4]) == Some(self.boat_side),
    {
        lemma_decimal(self.left_state.cannibals as nat);
        lemma_decimal(self.left_state.missionaries as nat);
        lemma_decimal(self.right_state.cannibals as nat);
        lemma_decimal(self.right_state.missionaries as nat);
        lemma_side_words();
        lemma_trim_word(self.boat_side.word());
        lemma_words_of_joined(self.key_words());
    }

    /// Reading a canonical key gives back the configuration it was written
    /// for, or the error that says why that configuration is not valid.
    pub proof fn lemma_key_reads_back(self)
        ensures
            parse_configuration(self.key()) == self.validated(),
    {
        self.lemma_key_words();
    }

    /// Two configurations with the same canonical key are the same.
    pub proof fn lemma_key_is_unique(self, other: Configuration)
        requires
            self.key() == other.key(),
        ensures
            self == other,
    {
        self.lemma_key_words();
        other.lemma_key_words();
    }
}

/// The two words for the banks are words, and differ.
pub proof fn lemma_side_words()
    ensures
        is_word("right"@),
        is_word("left"@),
        "right"@ != "left"@,
{
    reveal_strlit("right");
    reveal_strlit("left");
}

/// Writing down what was read from a well-formed text gives the text
/// with its white space normalised.
pub proof fn lemma_key_of_parsed(text: Seq<char>)
    requires
        is_well_formed_text(text),
    ensures
        parse_configuration(text)->Ok_0.key() == normalize(text),
{
    let found = words(text);
    let read = parse_configuration(text)->Ok_0;
    lemma_words_are_words(text);
    assert forall|i: int| 0 <= i < 4 implies decimal((parse_count(found[i])->Some_0) as nat)
        == #[trigger] found[i] by {
        assert(is_plain_numeral(found[i]));
        lemma_plain_numeral(found[i]);
        assert(is_word(found[i]));
        assert(unsigned_part(found[i]) == found[i]) by {
            lemma_digits(found[i][0], 0);
        }
    }
    assert(is_word(found[4]));
    lemma_trim_word(found[4]);
    assert(read.key_words() =~= found);
}

impl WorldState {
    /// The canonical key of the state: what tells it from every other
    /// state, whatever its history.
    pub fn canonical_key(&self) -> (key: String)
        ensures
            key@ == self@.key(),
    {
        let mut parts: Vec<String> = Vec::new();
        parts.push(render_count(self.left_state().cannibals));
        parts.push(render_count(self.left_state().missionaries));
        parts.push(render_count(self.right_state().cannibals));
        parts.push(render_count(self.right_state().missionaries));
        parts.push(self.boat_side().name().to_string());
        proof {
            reveal_strlit(" ");
            assert(" "@ =~= seq![' ']);
            assert(parts.deep_view() =~= self@.key_words());
        }
        join_texts(&parts, " ")
    }
}

/// The bank that the characters name, white space at their ends apart.
pub fn read_side(chars: &Vec<char>) -> (side: Option<BoatSide>)
    ensures
        side == parse_side(chars@),
{
    let kept = trimmed(chars);
    if spells(&kept, "right") {
        Some(BoatSide::RightSide)
    } else if spells(&kept, "left") {
        Some(BoatSide::LeftSide)
    } else {
        None
    }
}

impl TryFrom<&str> for BoatSide {
    type Error = WorldStateError;

    /// The bank that `value` names: `"right"` or `"left"`, white space at
    /// the ends apart.
    fn try_from(value: &str) -> (read: Result<Self, WorldStateError>)
        ensures
            match read {
                Ok(side) => parse_side(value@) == Some(side),
                Err(error) => parse_side(value@) is None && error@ == side_error(),
            },
    {
        let chars = chars_of(value);
        match read_side(&chars) {
            Some(side) => Ok(side),
            None => Err(
                WorldStateError::ParseFromStringError("Invalid Value For BoatSide".to_string()),
            ),
        }
    }
}

impl TryFromSpecImpl<&str> for BoatSide {
    open spec fn obeys_try_from_spec() -> bool {
        false
    }

    open spec fn try_from_spec(value: &str) -> Result<Self, WorldStateError> {
        arbitrary()
    }
}

impl From<BoatSide> for String {
    /// The word for the bank.
    fn from(side: BoatSide) -> (word: String)
        ensures
            word@ == side.word(),
    {
        side.name().to_string()
    }
}

impl FromSpecImpl<BoatSide> for String {
    open spec fn obeys_from_spec() -> bool {
        false
    }

    open spec fn from_spec(side: BoatSide) -> String {
        arbitrary()
    }
}

impl TryFrom<&str> for WorldState {
    type Error = WorldStateError;

    /// Reads an initial state: `"cannibals_left missionaries_left
    /// cannibals_right missionaries_right left|right"`. So `"1 1 2 2 right"`
    /// has one of each on the left bank, two of each and the boat on the
    /// right one. The state has no history and is described as the root state.
    fn try_from(value: &str) -> (read: Result<Self, WorldStateError>)
        ensures
            match read {
                Ok(state) => {
                    &&& parse_configuration(value@) == Ok::<Configuration, WorldStateErrorView>(
                        state@,
                    )
                    &&& state.route() == seq![state@]
                    &&& state.steps() == seq![root_label()]
                    &&& state.well_formed()
                },
                Err(error) => parse_configuration(value@) == Err::<
                    Configuration,
                    WorldStateErrorView,
                >(error@),
            },
    {
        let found = split_words(value);
        if found.len() < 5 {
            return Err(
                WorldStateError::ParseFromStringError("Non sufficient number of args".to_string()),
            );
        }
        proof {
            assert forall|i: int| 0 <= i < 5 implies (#[trigger] found@[i])@ == words(value@)[i] by {
                assert(texts_of(found@)[i] == found@[i]@);
            }
        }
        let left_cannibals = read_count(&found[0]);
        let left_missionaries = read_count(&found[1]);
        let right_cannibals = read_count(&found[2]);
        let right_missionaries = read_count(&found[3]);
        match (left_cannibals, left_missionaries, right_cannibals, right_missionaries) {
            (Some(lc), Some(lm), Some(rc), Some(rm)) => {
                match read_side(&found[4]) {
                    Some(side) => WorldState::new(
                        SideState::new(lc, lm),
                        SideState::new(rc, rm),
                        side,
                        "root state".to_string(),
                    ),
                    None => Err(
                        WorldStateError::ParseFromStringError(
                            "Invalid Value For BoatSide".to_string(),
                        ),
                    ),
                }
            },
            _ => Err(
                WorldStateError::ParseFromStringError(
                    "Error while trying to parse a number from string".to_string(),
                ),
            ),
        }
    }
}

impl TryFromSpecImpl<&str> for WorldState {
    open spec fn obeys_try_from_spec() -> bool {
        false
    }

    open spec fn try_from_spec(value: &str) -> Result<Self, WorldStateError> {
        arbitrary()
    }
}

impl From<&WorldState> for String {
    /// The canonical key of the state.
    fn from(state: &WorldState) -> (key: String)
        ensures
            key@ == state@.key(),
    {
        state.canonical_key()
    }
}

impl FromSpecImpl<&WorldState> for String {
    open spec fn obeys_from_spec() -> bool {
        false
    }

    open spec fn from_spec(state: &WorldState) -> String {
        arbitrary()
    }
}

impl From<WorldState> for String {
    /// The canonical key of the state.
    fn from(state: WorldState) -> (key: String)
        ensures
            key@ == state@.key(),
    {
        state.canonical_key()
    }
}

impl FromSpecImpl<WorldState> for String {
    open spec fn obeys_from_spec() -> bool {
        false
    }

    open spec fn from_spec(state: WorldState) -> String {
        arbitrary()
    }
}

} // verus!
