use jug_search::bfs::BreadthFirstSearch;
use jug_search::jugs::State;
use jug_search::search::BreadthFirstSearch as PlainBreadthFirstSearch;
use jug_search::search::{Node, Search};

#[test]
fn back_trace_of_root_is_single_state() {
    let root = Node::from(State::Jugs(2, 2));
    assert_eq!(root.back_trace(), vec![State::Jugs(2, 2)]);
}

#[test]
fn back_trace_walks_chain_root_first() {
    let root = Node::from(State::Jugs(0, 0));
    let child = Node::new(State::Jugs(3, 0), root);
    let grandchild = Node::new(State::Jugs(0, 3), child);
    assert_eq!(
        grandchild.back_trace(),
        vec![State::Jugs(0, 0), State::Jugs(3, 0), State::Jugs(0, 3)]
    );
}

#[test]
fn finds_shortest_two_jug_solution() {
    let mut engine = BreadthFirstSearch::default();
    let node = engine.search(State::Jugs(0, 0)).expect("a goal is reachable");
    let path = node.back_trace();
    // the shortest solution takes four transitions, so five states
    assert_eq!(path.len(), 5);
    assert_eq!(path[0], State::Jugs(0, 0));
    let last = *path.last().unwrap();
    assert!(last.is_goal());
    // every consecutive pair is one legal transition
    for step in path.windows(2) {
        assert!(step[0].expand().contains(&step[1]));
    }
    // with this domain's enumeration order the path is fully determined
    assert_eq!(
        path,
        vec![
            State::Jugs(0, 0),
            State::Jugs(3, 0),
            State::Jugs(0, 3),
            State::Jugs(3, 3),
            State::Jugs(1, 5),
        ]
    );
}

#[test]
fn search_is_deterministic() {
    let mut first = BreadthFirstSearch::default();
    let mut second = BreadthFirstSearch::default();
    let from = State::Jugs(2, 4);
    let path_one = first.search(from).expect("a goal is reachable").back_trace();
    let path_two = second.search(from).expect("a goal is reachable").back_trace();
    assert_eq!(path_one, path_two);
}

#[test]
fn both_engines_agree() {
    let mut one = BreadthFirstSearch::default();
    let mut other = PlainBreadthFirstSearch::default();
    let from = State::Jugs(0, 0);
    assert_eq!(
        one.search(from).expect("a goal is reachable").back_trace(),
        other.search(from).expect("a goal is reachable").back_trace()
    );
}

#[test]
fn initial_state_is_not_checked_against_goal() {
    // even though (1, 1) is itself a goal, the engine expands it and
    // returns a child goal instead of short-circuiting
    let mut engine = BreadthFirstSearch::default();
    let path = engine
        .search(State::Jugs(1, 1))
        .expect("a goal is reachable")
        .back_trace();
    assert_eq!(path.len(), 2);
    assert_eq!(path[0], State::Jugs(1, 1));
    assert!(path[1].is_goal());
}
