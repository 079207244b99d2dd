use algoritmos_rust::cannibals::text::chars_of;
use algoritmos_rust::cannibals::text::is_whitespace;
use algoritmos_rust::cannibals::text::join_texts;
use algoritmos_rust::cannibals::text::read_count;
use algoritmos_rust::cannibals::text::render_count;
use algoritmos_rust::cannibals::text::spells;
use algoritmos_rust::cannibals::text::split_words;
use algoritmos_rust::cannibals::text::trimmed;
use algoritmos_rust::BoatSide;
use algoritmos_rust::WorldState;
use algoritmos_rust::WorldStateError;
use algoritmos_rust::WorldStateResult;

fn chars(text: &str) -> Vec<char> {
    text.chars().collect()
}

fn parse_error(reason: &str) -> WorldStateError {
    WorldStateError::ParseFromStringError(reason.to_string())
}

#[test]
fn a_key_is_five_words_with_single_blanks() {
    let state: WorldStateResult = "1 2 2 1 right".try_into();
    let state = state.unwrap();
    assert_eq!(state.canonical_key(), "1 2 2 1 right");
    let by_reference: String = (&state).into();
    assert_eq!(by_reference, "1 2 2 1 right");
    let by_value: String = state.into();
    assert_eq!(by_value, "1 2 2 1 right");
}

#[test]
fn reading_a_key_gives_the_state_back() {
    for text in [
        "0 0 3 3 right",
        "0 0 3 3 left",
        "3 3 0 0 left",
        "1 2 2 1 right",
        "2 1 1 2 left",
        "3 0 0 3 right",
    ] {
        let state: WorldStateResult = text.try_into();
        let state = state.unwrap();
        let again: WorldStateResult = state.canonical_key().as_str().try_into();
        let again = again.unwrap();
        assert!(state == again);
        assert_eq!(again.canonical_key(), text);
    }
}

#[test]
fn writing_what_was_read_normalises_the_white_space() {
    let cases = [
        ("0 0 3 3 right", "0 0 3 3 right"),
        ("  0 0 3 3 right", "0 0 3 3 right"),
        ("0 0 3 3 right\n", "0 0 3 3 right"),
        ("0\t0  3   3\u{a0}right", "0 0 3 3 right"),
        ("\u{2003}3 0\r\n0 3\u{3000}left ", "3 0 0 3 left"),
    ];
    for (text, normal) in cases {
        let state: WorldStateResult = text.try_into();
        assert_eq!(state.unwrap().canonical_key(), normal);
    }
}

#[test]
fn signs_zeros_and_further_words_are_read_but_not_written() {
    let state: WorldStateResult = "+0 00 03 +3 right and more".try_into();
    assert_eq!(state.unwrap().canonical_key(), "0 0 3 3 right");
}

#[test]
fn a_state_read_from_text_is_the_root_state() {
    let state: WorldStateResult = "0 0 3 3 right".try_into();
    let state = state.unwrap();
    assert_eq!(state.get_step_by_step_vec(), vec!["root state".to_string()]);
    assert_eq!(state.get_step_by_step(), "root state");
}

#[test]
fn too_few_words_are_refused() {
    for text in ["", "   ", "0 0 3 3", "right", "0 0 3 right"] {
        let state: WorldStateResult = text.try_into();
        assert_eq!(
            state.unwrap_err(),
            parse_error("Non sufficient number of args")
        );
    }
}

#[test]
fn a_word_that_is_no_count_is_refused() {
    for text in [
        "a 0 3 3 right",
        "0 -0 3 3 right",
        "0 0 3.0 3 right",
        "0 0 3 256 right",
        "0 0 3 + right",
        "0 0 ++3 3 right",
        "0 0 3 3x right",
        "right 0 0 3 3",
    ] {
        let state: WorldStateResult = text.try_into();
        assert_eq!(
            state.unwrap_err(),
            parse_error("Error while trying to parse a number from string")
        );
    }
}

#[test]
fn a_word_that_names_no_bank_is_refused() {
    for text in ["0 0 3 3 middle", "0 0 3 3 Right", "0 0 3 3 3", "0 0 3 3 rightleft"] {
        let state: WorldStateResult = text.try_into();
        assert_eq!(state.unwrap_err(), parse_error("Invalid Value For BoatSide"));
    }
}

#[test]
fn wrong_totals_are_refused_when_the_state_is_made() {
    let state: WorldStateResult = "0 0 2 3 right".try_into();
    assert_eq!(
        state.unwrap_err(),
        WorldStateError::ImpossibleNumberOfCannibals(2)
    );
    let state: WorldStateResult = "0 1 3 3 left".try_into();
    assert_eq!(
        state.unwrap_err(),
        WorldStateError::ImpossibleNumberOfMissionaries(4)
    );
    let state: WorldStateResult = "200 0 100 3 left".try_into();
    assert_eq!(
        state.unwrap_err(),
        WorldStateError::ImpossibleNumberOfCannibals(255)
    );
    let state: WorldStateResult = "0 255 3 255 left".try_into();
    assert_eq!(
        state.unwrap_err(),
        WorldStateError::ImpossibleNumberOfMissionaries(255)
    );
}

#[test]
fn errors_are_met_in_the_order_of_the_words() {
    let state: WorldStateResult = "x 0 9 9 nowhere".try_into();
    assert_eq!(
        state.unwrap_err(),
        parse_error("Error while trying to parse a number from string")
    );
    let state: WorldStateResult = "9 9 9 9 nowhere".try_into();
    assert_eq!(state.unwrap_err(), parse_error("Invalid Value For BoatSide"));
    let state: WorldStateResult = "9 9 9 9 left".try_into();
    assert_eq!(
        state.unwrap_err(),
        WorldStateError::ImpossibleNumberOfCannibals(18)
    );
}

#[test]
fn errors_say_what_kind_they_are() {
    assert_eq!(
        WorldStateError::ImpossibleNumberOfMissionaries(2).message(),
        "Impossible number of missionaries"
    );
    assert_eq!(
        WorldStateError::ImpossibleNumberOfCannibals(5).message(),
        "Impossible number of cannibals"
    );
    assert_eq!(
        parse_error("Invalid Value For BoatSide").message(),
        "Error when trying to parse from WorldState string"
    );
}

#[test]
fn banks_are_read_and_written_by_their_words() {
    assert_eq!(BoatSide::try_from("right"), Ok(BoatSide::RightSide));
    assert_eq!(BoatSide::try_from("left"), Ok(BoatSide::LeftSide));
    assert_eq!(BoatSide::try_from("  left\n"), Ok(BoatSide::LeftSide));
    assert_eq!(
        BoatSide::try_from("le ft"),
        Err(parse_error("Invalid Value For BoatSide"))
    );
    assert_eq!(
        BoatSide::try_from(""),
        Err(parse_error("Invalid Value For BoatSide"))
    );
    let right: String = BoatSide::RightSide.into();
    assert_eq!(right, "right");
    let left: String = BoatSide::LeftSide.into();
    assert_eq!(left, "left");
    assert_eq!(BoatSide::RightSide.name(), "right");
    assert_eq!(BoatSide::LeftSide.other_side(), BoatSide::RightSide);
    assert_eq!(BoatSide::RightSide.other_side(), BoatSide::LeftSide);
}

#[test]
fn counts_are_written_in_decimal() {
    assert_eq!(render_count(0), "0");
    assert_eq!(render_count(7), "7");
    assert_eq!(render_count(10), "10");
    assert_eq!(render_count(99), "99");
    assert_eq!(render_count(100), "100");
    assert_eq!(render_count(205), "205");
    assert_eq!(render_count(255), "255");
}

#[test]
fn counts_are_read_as_std_reads_them() {
    for text in [
        "0", "7", "007", "+7", "255", "256", "0255", "+", "", "-1", "1 ", " 1", "12a", "٣",
    ] {
        assert_eq!(read_count(&chars(text)), text.parse::<u8>().ok());
    }
    for n in 0..=255u8 {
        assert_eq!(read_count(&chars(&render_count(n))), Some(n));
    }
}

#[test]
fn white_space_is_what_std_calls_so() {
    for code in 0..0x3100u32 {
        if let Some(c) = char::from_u32(code) {
            assert_eq!(is_whitespace(c), c.is_whitespace());
        }
    }
}

#[test]
fn words_are_split_at_white_space() {
    for text in [
        "",
        " ",
        "a",
        " a",
        "a ",
        "one two",
        "  one \t two\nthree  ",
        "x\u{2028}y",
    ] {
        let found: Vec<String> = split_words(text)
            .into_iter()
            .map(|word| word.into_iter().collect())
            .collect();
        let expected: Vec<String> = text.split_whitespace().map(|w| w.to_string()).collect();
        assert_eq!(found, expected);
    }
}

#[test]
fn trimming_takes_the_white_space_at_the_ends() {
    for text in ["", "  ", "a", " a b \n", "\tleft", "right "] {
        let kept: String = trimmed(&chars(text)).into_iter().collect();
        assert_eq!(kept, text.trim());
    }
}

#[test]
fn texts_are_joined_with_the_separator_between_them() {
    let parts = vec!["a".to_string(), "bc".to_string(), "".to_string()];
    assert_eq!(join_texts(&parts, "|"), "a|bc|");
    assert_eq!(join_texts(&parts[..1].to_vec(), "|"), "a");
    assert_eq!(join_texts(&Vec::new(), "|"), "");
    assert_eq!(chars_of("añ b"), vec!['a', 'ñ', ' ', 'b']);
    assert!(spells(&chars("left"), "left"));
    assert!(!spells(&chars("left"), "lefty"));
    assert!(!spells(&chars("lift"), "left"));
}

#[test]
fn a_state_is_never_made_with_wrong_totals() {
    for lc in 0..=4u8 {
        for lm in 0..=4u8 {
            for rc in 0..=4u8 {
                for rm in 0..=4u8 {
                    let text = format!("{} {} {} {} left", lc, lm, rc, rm);
                    let state: WorldStateResult = text.as_str().try_into();
                    match state {
                        Ok(state) => {
                            assert_eq!(
                                state.left_state().cannibals + state.right_state().cannibals,
                                3
                            );
                            assert_eq!(
                                state.left_state().missionaries + state.right_state().missionaries,
                                3
                            );
                        }
                        Err(error) => {
                            if lc + rc != 3 {
                                assert_eq!(
                                    error,
                                    WorldStateError::ImpossibleNumberOfCannibals(lc + rc)
                                );
                            } else {
                                assert_eq!(
                                    error,
                                    WorldStateError::ImpossibleNumberOfMissionaries(lm + rm)
                                );
                            }
                        }
                    }
                }
            }
        }
    }
}

#[test]
fn a_state_compares_by_configuration_and_orders_by_heuristic() {
    let near: WorldState = WorldState::try_from("2 2 1 1 right").unwrap();
    let far: WorldState = WorldState::try_from("0 0 3 3 right").unwrap();
    let level: WorldState = WorldState::try_from("3 2 0 1 left").unwrap();
    assert!(near < far);
    assert!(far > near);
    assert_eq!(
        near.partial_cmp(&level),
        Some(std::cmp::Ordering::Equal)
    );
    assert!(near != level);
    let children = far.get_child_states();
    let child = children[2].as_ref().unwrap();
    let same = WorldState::try_from("1 1 2 2 left").unwrap();
    assert!(*child == same);
    assert_ne!(child.get_step_by_step(), same.get_step_by_step());
}
