use jug_search::jugs::Action;
use jug_search::jugs::Side::{L, R};
use jug_search::jugs::State;
use jug_search::jugs::{JUG_SIZE_L, JUG_SIZE_R};

#[test]
fn can_do_fill() {
    assert!(State::Jugs(1, 0).action_is_possible(&Action::Fill(L)));
    assert!(State::Jugs(1, 0).action_is_possible(&Action::Fill(R)));
    assert!(State::Jugs(0, 1).action_is_possible(&Action::Fill(L)));
    assert!(State::Jugs(0, 1).action_is_possible(&Action::Fill(R)));

    assert!(!State::Jugs(JUG_SIZE_L, 0).action_is_possible(&Action::Fill(L)));
    assert!(!State::Jugs(0, JUG_SIZE_R).action_is_possible(&Action::Fill(R)));
}

#[test]
fn can_do_empty() {
    assert!(State::Jugs(1, 0).action_is_possible(&Action::Empty(L)));
    assert!(State::Jugs(0, 1).action_is_possible(&Action::Empty(R)));

    assert!(!State::Jugs(0, 0).action_is_possible(&Action::Empty(L)));
    assert!(!State::Jugs(0, 0).action_is_possible(&Action::Empty(R)));
    assert!(!State::Jugs(0, 2).action_is_possible(&Action::Empty(L)));
    assert!(!State::Jugs(2, 0).action_is_possible(&Action::Empty(R)));
}

#[test]
fn can_do_pour() {
    assert!(State::Jugs(3, 0).action_is_possible(&Action::Pour(L, R)));
    assert!(State::Jugs(0, 5).action_is_possible(&Action::Pour(R, L)));
    assert!(State::Jugs(3, 4).action_is_possible(&Action::Pour(L, R)));
    assert!(State::Jugs(2, 5).action_is_possible(&Action::Pour(R, L)));

    assert!(!State::Jugs(0, 0).action_is_possible(&Action::Pour(L, R)));
    assert!(!State::Jugs(3, 5).action_is_possible(&Action::Pour(L, R)));
    assert!(!State::Jugs(0, 0).action_is_possible(&Action::Pour(R, L)));
    assert!(!State::Jugs(3, 5).action_is_possible(&Action::Pour(R, L)));
    assert!(!State::Jugs(0, 1).action_is_possible(&Action::Pour(L, R)));
    assert!(!State::Jugs(1, 0).action_is_possible(&Action::Pour(R, L)));
}

#[test]
fn after_fill() {
    assert_eq!(
        State::Jugs(1, 0).apply_action(&Action::Fill(L)),
        State::Jugs(JUG_SIZE_L, 0),
    );
    assert_eq!(
        State::Jugs(1, 0).apply_action(&Action::Fill(R)),
        State::Jugs(1, JUG_SIZE_R),
    );
    assert_eq!(
        State::Jugs(0, 1).apply_action(&Action::Fill(L)),
        State::Jugs(JUG_SIZE_L, 1),
    );
    assert_eq!(
        State::Jugs(0, 1).apply_action(&Action::Fill(R)),
        State::Jugs(0, JUG_SIZE_R),
    );
}

#[test]
fn after_empty() {
    assert_eq!(
        State::Jugs(1, 0).apply_action(&Action::Empty(L)),
        State::Jugs(0, 0),
    );
    assert_eq!(
        State::Jugs(0, 1).apply_action(&Action::Empty(R)),
        State::Jugs(0, 0),
    );
}

#[test]
fn after_pour() {
    assert_eq!(
        State::Jugs(3, 0).apply_action(&Action::Pour(L, R)),
        State::Jugs(0, 3)
    );
    assert_eq!(
        State::Jugs(0, 5).apply_action(&Action::Pour(R, L)),
        State::Jugs(3, 2)
    );
    assert_eq!(
        State::Jugs(3, 4).apply_action(&Action::Pour(L, R)),
        State::Jugs(2, 5)
    );
    assert_eq!(
        State::Jugs(2, 5).apply_action(&Action::Pour(R, L)),
        State::Jugs(3, 4)
    );
}

#[test]
fn goal_state() {
    assert!(State::Jugs(1, 0).is_goal());
    assert!(State::Jugs(0, 1).is_goal());
    assert!(State::Jugs(1, 2).is_goal());
    assert!(State::Jugs(2, 1).is_goal());
    assert!(!State::Jugs(2, 2).is_goal());
    assert!(!State::Jugs(10, 3).is_goal());
}

#[test]
fn partial_pour_keeps_total() {
    // pouring moves min(source contents, destination room): 2 units here
    assert_eq!(
        State::Jugs(3, 3).apply_action(&Action::Pour(L, R)),
        State::Jugs(1, 5)
    );
    assert_eq!(
        State::Jugs(1, 3).apply_action(&Action::Pour(R, L)),
        State::Jugs(3, 1)
    );
}

#[test]
fn expand_lists_possible_moves_in_order() {
    // from (0, 0) only the two fills are possible, fill-left first
    assert_eq!(
        State::Jugs(0, 0).expand(),
        vec![State::Jugs(JUG_SIZE_L, 0), State::Jugs(0, JUG_SIZE_R)]
    );
    // from (3, 5) only the two empties are possible
    assert_eq!(
        State::Jugs(3, 5).expand(),
        vec![State::Jugs(0, 5), State::Jugs(3, 0)]
    );
}
