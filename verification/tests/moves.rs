use algoritmos_rust::cannibals::world_state::describe_move;
use algoritmos_rust::BoatSide;
use algoritmos_rust::WorldState;

fn state(text: &str) -> WorldState {
    WorldState::try_from(text).unwrap()
}

#[test]
fn children_lie_at_the_other_bank_and_keep_the_totals() {
    for lc in 0..=3u8 {
        for lm in 0..=3u8 {
            for side in ["left", "right"] {
                let parent = state(&format!("{} {} {} {} {}", lc, lm, 3 - lc, 3 - lm, side));
                let loads = match parent.boat_side() {
                    BoatSide::LeftSide => parent.left_state().get_all_send_combinations(),
                    BoatSide::RightSide => parent.right_state().get_all_send_combinations(),
                };
                let children = parent.get_child_states();
                let sons = parent.get_son_states();
                assert_eq!(children.len(), loads.len());
                assert_eq!(sons.len(), loads.len());
                for (i, child) in children.into_iter().enumerate() {
                    let child = child.unwrap();
                    assert_ne!(child.boat_side(), parent.boat_side());
                    assert_eq!(child.boat_side(), parent.boat_side().other_side());
                    assert_eq!(child.left_state().cannibals + child.right_state().cannibals, 3);
                    assert_eq!(
                        child.left_state().missionaries + child.right_state().missionaries,
                        3
                    );
                    let (c, m) = loads[i];
                    let moved = match parent.boat_side() {
                        BoatSide::LeftSide => (
                            parent.left_state().cannibals - child.left_state().cannibals,
                            parent.left_state().missionaries - child.left_state().missionaries,
                        ),
                        BoatSide::RightSide => (
                            child.left_state().cannibals - parent.left_state().cannibals,
                            child.left_state().missionaries - parent.left_state().missionaries,
                        ),
                    };
                    assert_eq!(moved, (c, m));
                    let label = describe_move(c, m, child.boat_side());
                    assert_eq!(child.describe_move_from(&parent), label);
                    assert_eq!(
                        child.get_step_by_step_vec(),
                        vec!["root state".to_string(), label.clone()]
                    );
                    let son = sons[i].as_ref().unwrap();
                    assert!(*son == child);
                    assert_eq!(son.get_step_by_step_vec(), vec![label]);
                }
            }
        }
    }
}

#[test]
fn a_crossing_is_described_in_words() {
    assert_eq!(
        describe_move(1, 0, BoatSide::LeftSide),
        "send 1 cannibals and 0 missionaries to the left side"
    );
    assert_eq!(
        describe_move(0, 2, BoatSide::RightSide),
        "send 0 cannibals and 2 missionaries to the right side"
    );
    assert_eq!(
        describe_move(12, 255, BoatSide::RightSide),
        "send 12 cannibals and 255 missionaries to the right side"
    );
}

#[test]
fn the_history_grows_with_each_crossing() {
    let root = state("0 0 3 3 right");
    let first = root.get_child_states().remove(2).unwrap();
    assert_eq!(first.canonical_key(), "1 1 2 2 left");
    let second = first.get_child_states().remove(1).unwrap();
    assert_eq!(second.canonical_key(), "1 0 2 3 right");
    assert_eq!(
        second.get_step_by_step_vec(),
        vec![
            "root state".to_string(),
            "send 1 cannibals and 1 missionaries to the left side".to_string(),
            "send 0 cannibals and 1 missionaries to the right side".to_string(),
        ]
    );
    assert_eq!(
        second.get_step_by_step(),
        "root state|send 1 cannibals and 1 missionaries to the left side|send 0 cannibals and 1 missionaries to the right side"
    );
    assert_eq!(root.get_step_by_step(), "root state");
    let copy = second.clone();
    assert!(copy == second);
    assert_eq!(copy.get_step_by_step(), second.get_step_by_step());
}

#[test]
fn the_goal_is_all_missionaries_on_the_left_bank() {
    for lc in 0..=3u8 {
        for side in ["left", "right"] {
            let goal = state(&format!("{} 3 {} 0 {}", lc, 3 - lc, side));
            assert!(goal.is_solution());
            assert!(!goal.is_game_over());
            assert_eq!(goal.get_heuristic(), 0);
            for lm in 0..=2u8 {
                let other = state(&format!("{} {} {} {} {}", lc, lm, 3 - lc, 3 - lm, side));
                assert!(!other.is_solution());
                assert_eq!(other.get_heuristic(), 3 - lm);
            }
        }
    }
}

#[test]
fn the_heuristic_counts_the_missionaries_to_bring() {
    assert_eq!(state("0 0 3 3 right").get_heuristic(), 3);
    assert_eq!(state("1 1 2 2 right").get_heuristic(), 2);
    assert!(state("1 1 2 2 right").get_heuristic() < state("0 0 3 3 right").get_heuristic());
}
