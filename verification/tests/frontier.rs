use algoritmos_rust::Frontier;
use algoritmos_rust::Strategy;
use algoritmos_rust::WorldState;
use algoritmos_rust::WorldStateHeapWrapper;
use algoritmos_rust::WorldStateResult;
use std::cmp::Ordering;
use std::rc::Rc;

fn state(text: &str) -> Rc<WorldState> {
    let read: WorldStateResult = text.try_into();
    Rc::new(read.unwrap())
}

fn key(entry: &WorldStateHeapWrapper) -> String {
    entry.get_world_state().as_ref().into()
}

fn drain(frontier: &mut Frontier) -> Vec<String> {
    let mut keys = Vec::new();
    while let Some(entry) = frontier.pop() {
        keys.push(key(&entry));
    }
    keys
}

#[test]
fn test_world_state_heap_wrapper_maintains_expected_order() {
    let world_state_2: WorldStateResult = "1 1 2 2 right".try_into();
    let world_state_1: WorldStateResult = "0 0 3 3 right".try_into();
    let world_state_6: WorldStateResult = "0 3 3 0 right".try_into();
    let world_state_5: WorldStateResult = "2 3 1 0 right".try_into();
    let world_state_3: WorldStateResult = "2 2 1 1 right".try_into();
    let world_state_4: WorldStateResult = "0 3 3 0 right".try_into();
    let (
        world_state_1,
        world_state_2,
        world_state_3,
        world_state_4,
        world_state_5,
        world_state_6,
    ) = (
        world_state_1.unwrap(),
        world_state_2.unwrap(),
        world_state_3.unwrap(),
        world_state_4.unwrap(),
        world_state_5.unwrap(),
        world_state_6.unwrap(),
    );

    let mut heap = Frontier::new(Strategy::GreedyBestFirst);

    heap.push(WorldStateHeapWrapper::new(Rc::new(world_state_1)));
    heap.push(WorldStateHeapWrapper::new(Rc::new(world_state_2)));
    heap.push(WorldStateHeapWrapper::new(Rc::new(world_state_5)));
    heap.push(WorldStateHeapWrapper::new(Rc::new(world_state_3)));
    heap.push(WorldStateHeapWrapper::new(Rc::new(world_state_4)));
    heap.push(WorldStateHeapWrapper::new(Rc::new(world_state_6)));

    let expected_order_vec = vec![
        "2 3 1 0 right".to_string(),
        "0 3 3 0 right".to_string(),
        "0 3 3 0 right".to_string(),
        "2 2 1 1 right".to_string(),
        "1 1 2 2 right".to_string(),
        "0 0 3 3 right".to_string(),
    ];

    let mut popped = 0;
    expected_order_vec.into_iter().for_each(|expected| {
        if let Some(ws_wrapper) = heap.pop() {
            let actual: String = ws_wrapper.get_world_state().as_ref().into();
            println!("{}", actual);
            assert_eq!(expected, actual);
            popped += 1;
        }
    });
    assert_eq!(popped, 6);
    assert!(heap.is_empty());
}

#[test]
fn breadth_first_frontier_is_first_in_first_out() {
    let mut frontier = Frontier::new(Strategy::BreadthFirst);
    assert!(frontier.is_empty());
    assert!(frontier.pop().is_none());
    for text in ["0 0 3 3 right", "0 3 3 0 left", "1 1 2 2 right"] {
        frontier.push(WorldStateHeapWrapper::new(state(text)));
    }
    assert_eq!(frontier.len(), 3);
    assert!(!frontier.is_empty());
    assert_eq!(frontier.policy(), Strategy::BreadthFirst);
    assert_eq!(
        drain(&mut frontier),
        vec!["0 0 3 3 right", "0 3 3 0 left", "1 1 2 2 right"]
    );
    assert!(frontier.is_empty());
}

#[test]
fn depth_first_frontier_is_last_in_first_out() {
    let mut frontier = Frontier::new(Strategy::DepthFirst);
    for text in ["0 0 3 3 right", "0 3 3 0 left", "1 1 2 2 right"] {
        frontier.push(WorldStateHeapWrapper::new(state(text)));
    }
    assert_eq!(
        drain(&mut frontier),
        vec!["1 1 2 2 right", "0 3 3 0 left", "0 0 3 3 right"]
    );
}

#[test]
fn greedy_frontier_ignores_the_path_cost() {
    let mut frontier = Frontier::new(Strategy::GreedyBestFirst);
    frontier.push(WorldStateHeapWrapper::with_path_cost(state("1 1 2 2 right"), 0));
    frontier.push(WorldStateHeapWrapper::with_path_cost(state("2 2 1 1 right"), 9));
    frontier.push(WorldStateHeapWrapper::with_path_cost(state("3 2 0 1 left"), 1));
    assert_eq!(
        drain(&mut frontier),
        vec!["2 2 1 1 right", "3 2 0 1 left", "1 1 2 2 right"]
    );
}

#[test]
fn a_star_frontier_orders_by_cost_then_heuristic_then_arrival() {
    let mut frontier = Frontier::new(Strategy::AStar);
    // heuristic 2, cost 1: total 3
    frontier.push(WorldStateHeapWrapper::with_path_cost(state("1 1 2 2 right"), 1));
    // heuristic 1, cost 2: total 3, the lesser heuristic
    frontier.push(WorldStateHeapWrapper::with_path_cost(state("2 2 1 1 right"), 2));
    // heuristic 1, cost 2: total 3, came later
    frontier.push(WorldStateHeapWrapper::with_path_cost(state("3 2 0 1 left"), 2));
    // heuristic 3, cost 1: total 4
    frontier.push(WorldStateHeapWrapper::with_path_cost(state("0 0 3 3 right"), 1));
    // heuristic 0, cost 2: total 2
    frontier.push(WorldStateHeapWrapper::with_path_cost(state("0 3 3 0 left"), 2));
    assert_eq!(
        drain(&mut frontier),
        vec![
            "0 3 3 0 left",
            "2 2 1 1 right",
            "3 2 0 1 left",
            "1 1 2 2 right",
            "0 0 3 3 right"
        ]
    );
}

#[test]
fn a_frontier_keeps_entries_for_the_same_state() {
    for strategy in [
        Strategy::BreadthFirst,
        Strategy::DepthFirst,
        Strategy::GreedyBestFirst,
        Strategy::AStar,
    ] {
        let mut frontier = Frontier::new(strategy);
        frontier.push(WorldStateHeapWrapper::new(state("0 0 3 3 right")));
        frontier.push(WorldStateHeapWrapper::new(state("0 0 3 3 right")));
        assert_eq!(frontier.len(), 2);
        assert_eq!(drain(&mut frontier), vec!["0 0 3 3 right", "0 0 3 3 right"]);
    }
}

#[test]
fn entries_report_heuristic_and_costs() {
    let entry = WorldStateHeapWrapper::with_path_cost(state("1 1 2 2 right"), 4);
    assert_eq!(entry.heuristic(), 2);
    assert_eq!(entry.path_cost(), 4);
    assert_eq!(entry.total_cost(), 6);
    let plain = WorldStateHeapWrapper::new(state("0 0 3 3 right"));
    assert_eq!(plain.heuristic(), 3);
    assert_eq!(plain.path_cost(), 0);
    assert_eq!(plain.total_cost(), 3);
}

#[test]
fn entries_are_ordered_by_total_cost_then_heuristic() {
    let near = WorldStateHeapWrapper::new(state("2 2 1 1 right"));
    let far = WorldStateHeapWrapper::new(state("0 0 3 3 right"));
    let same = WorldStateHeapWrapper::new(state("3 2 0 1 left"));
    assert_eq!(near.partial_cmp(&far), Some(Ordering::Less));
    assert_eq!(far.partial_cmp(&near), Some(Ordering::Greater));
    assert_eq!(near.partial_cmp(&same), Some(Ordering::Equal));
    assert!(near == same);
    assert!(near != far);
    assert!(near < far);

    let costly = WorldStateHeapWrapper::with_path_cost(state("2 2 1 1 right"), 2);
    assert_eq!(costly.partial_cmp(&far), Some(Ordering::Less));
    let level = WorldStateHeapWrapper::with_path_cost(state("1 1 2 2 right"), 1);
    assert_eq!(costly.partial_cmp(&level), Some(Ordering::Less));
    assert_eq!(level.partial_cmp(&costly), Some(Ordering::Greater));
    assert!(costly != level);
}

#[test]
fn preference_follows_the_strategy() {
    let near = WorldStateHeapWrapper::with_path_cost(state("2 2 1 1 right"), 5);
    let far = WorldStateHeapWrapper::with_path_cost(state("0 0 3 3 right"), 0);
    assert!(!near.is_preferred_to(&far, Strategy::BreadthFirst));
    assert!(!near.is_preferred_to(&far, Strategy::DepthFirst));
    assert!(near.is_preferred_to(&far, Strategy::GreedyBestFirst));
    assert!(!far.is_preferred_to(&near, Strategy::GreedyBestFirst));
    assert!(!near.is_preferred_to(&far, Strategy::AStar));
    assert!(far.is_preferred_to(&near, Strategy::AStar));
}

#[test]
fn an_entry_shares_its_state() {
    let shared = state("0 0 3 3 right");
    let entry = WorldStateHeapWrapper::new(Rc::clone(&shared));
    assert_eq!(Rc::strong_count(&shared), 2);
    let handle = entry.get_world_state();
    assert!(Rc::ptr_eq(&handle, &shared));
    assert_eq!(Rc::strong_count(&shared), 3);
    assert_eq!(key(&entry), "0 0 3 3 right");
}
