use algoritmos_rust::BoatSide;
use algoritmos_rust::SideState;
use algoritmos_rust::WorldState;
use algoritmos_rust::WorldStateError;
use algoritmos_rust::WorldStateResult;

#[test]
fn world_state_world_state_new_returns_error_when_state_is_invalid() {
    let wrong_n_of_missionaries = WorldState::new(
        SideState::new(0, 0),
        SideState::new(3, 2),
        BoatSide::LeftSide,
        "root state".to_string(),
    )
    .unwrap_err();
    let wrong_n_of_cannibals = WorldState::new(
        SideState::new(2, 0),
        SideState::new(3, 1),
        BoatSide::RightSide,
        "root state".to_string(),
    )
    .unwrap_err();

    assert_eq!(
        wrong_n_of_missionaries,
        WorldStateError::ImpossibleNumberOfMissionaries(2)
    );
    assert_eq!(
        wrong_n_of_cannibals,
        WorldStateError::ImpossibleNumberOfCannibals(5)
    );
}

#[test]
fn world_state_world_new_state_creates_expected_state() {
    let world_state = WorldState::new(
        SideState::new(3, 0),
        SideState::new(0, 3),
        BoatSide::LeftSide,
        "root state".to_string(),
    )
    .unwrap();

    assert_eq!(world_state.left_state().cannibals, 3);
    assert_eq!(world_state.left_state().missionaries, 0);

    assert_eq!(world_state.right_state().cannibals, 0);
    assert_eq!(world_state.right_state().missionaries, 3);

    assert_eq!(world_state.boat_side(), BoatSide::LeftSide);
}

#[test]
fn world_state_world_is_solution_returns_expected_response() {
    let solution_world_state = WorldState::new(
        SideState::new(1, 3),
        SideState::new(2, 0),
        BoatSide::LeftSide,
        "root state".to_string(),
    )
    .unwrap();
    let non_solution_world_state = WorldState::new(
        SideState::new(1, 2),
        SideState::new(2, 1),
        BoatSide::LeftSide,
        "root state".to_string(),
    )
    .unwrap();

    assert_eq!(solution_world_state.is_solution(), true);
    assert_eq!(non_solution_world_state.is_solution(), false);
}

#[test]
fn world_state_world_is_game_over_returns_expected_response() {
    let world_game_over_states = vec![
        WorldState::new(
            SideState::new(1, 2),
            SideState::new(2, 1),
            BoatSide::LeftSide,
            "root state".to_string(),
        ),
        WorldState::new(
            SideState::new(0, 1),
            SideState::new(3, 2),
            BoatSide::LeftSide,
            "root state".to_string(),
        ),
        WorldState::new(
            SideState::new(2, 1),
            SideState::new(1, 2),
            BoatSide::LeftSide,
            "root state".to_string(),
        ),
    ];
    let world_non_game_over_states = vec![
        WorldState::new(
            SideState::new(0, 0),
            SideState::new(3, 3),
            BoatSide::RightSide,
            "root state".to_string(),
        ),
        WorldState::new(
            SideState::new(2, 2),
            SideState::new(1, 1),
            BoatSide::LeftSide,
            "root state".to_string(),
        ),
        WorldState::new(
            SideState::new(0, 3),
            SideState::new(3, 0),
            BoatSide::LeftSide,
            "root state".to_string(),
        ),
    ];

    world_game_over_states
        .into_iter()
        .for_each(|state_result| assert_eq!(state_result.unwrap().is_game_over(), true));

    world_non_game_over_states
        .into_iter()
        .for_each(|state_result| assert_eq!(state_result.unwrap().is_game_over(), false));
}

#[test]
fn world_state_world_tryfrom_str_trait_works_as_expected() {
    let cases = vec![
        ("3 0 0 3 left", 3, 0, 0, 3, BoatSide::LeftSide),
        ("1 2 2 1 right", 1, 2, 2, 1, BoatSide::RightSide),
        ("0 0 3 3 right", 0, 0, 3, 3, BoatSide::RightSide),
    ];

    for case in cases {
        let (world_state_str, l_c, l_m, r_c, r_m, b_s) = case;
        let world_state_result: Result<WorldState, WorldStateError> = world_state_str.try_into();
        if let Ok(ws) = world_state_result {
            assert_eq!(ws.left_state().cannibals, l_c);
            assert_eq!(ws.left_state().missionaries, l_m);
            assert_eq!(ws.right_state().cannibals, r_c);
            assert_eq!(ws.right_state().missionaries, r_m);
            assert_eq!(ws.boat_side(), b_s);
        } else {
            panic!("world state should not have failed")
        }
    }
}

#[test]
fn world_state_world_get_son_states_returns_expected_states() {
    let solution_world_state: WorldStateResult = "0 0 3 3 right".try_into();
    let w_s = solution_world_state.expect("error to create world state");

    let expected_son_state: Vec<WorldStateResult> = vec![
        "1 0 2 3 left".try_into(), // 1 cannibal
        "0 1 3 2 left".try_into(), // 1 missionary
        "2 0 1 3 left".try_into(), // 2 cannibals
        "0 2 3 1 left".try_into(), // 2 missionaries
        "1 1 2 2 left".try_into(), // 1 cannibal and 1 missionary
    ];

    let expected_son_state = expected_son_state
        .into_iter()
        .map(|world_state_result| {
            world_state_result.expect("Specified expected son state is in faulty state.")
        })
        .collect::<Vec<WorldState>>();

    let actual_son_states = w_s
        .get_child_states()
        .into_iter()
        .map(|state_result| state_result.expect("Get son states method generated faulty state."))
        .collect::<Vec<WorldState>>();

    let expected_states_count = expected_son_state.len();
    let actual_son_states_count = actual_son_states.len();
    let mut matching_states_count = 0;

    expected_son_state.into_iter().for_each(|expected_state| {
        assert!(
            actual_son_states.contains(&expected_state),
            "Expected state: [{}] was not generated",
            expected_state.canonical_key()
        );
        matching_states_count += 1;
    });

    assert_eq!(
        expected_states_count, actual_son_states_count,
        "Expected states count should be equal to the actual states count"
    );
    assert_eq!(
        actual_son_states_count, matching_states_count,
        "Actual states count should be equal to the matching states count"
    );
}
