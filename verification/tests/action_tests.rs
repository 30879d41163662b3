//! Tests of directions, action construction and movetext.

use muskox::action::Action;
use muskox::action::ActionType;
use muskox::action::Direction;
use muskox::error::ParseError;

const TEST_MOVE_1: &'static str = "1-10-17";
const TEST_MOVE_2: &'static str = "1-6";
const TEST_MOVE_3: &'static str = "10-19-12-3";
const TEST_MOVE_4: &'static str = "15-11";

#[test]
fn relative_position_test() {
    let dir = Direction::between(1, 10);
    assert_eq!(dir, Some(Direction::DownRight));

    let dir = Direction::between(15, 11);
    assert_eq!(dir, Some(Direction::UpRight));

    let pos = Direction::DownRight.relative_to(1);
    assert_eq!(pos, Some(6));

    let pos = Direction::UpLeft.relative_to(24);
    assert_eq!(pos, Some(20));

    let pos = Direction::DownLeft.relative_jump_from(10);
    assert_eq!(pos, Some(17));

    let pos = Direction::UpRight.relative_jump_from(43);
    assert_eq!(pos, None);

    let pos = Direction::UpRight.relative_jump_from(7);
    assert_eq!(pos, None);
}

#[test]
fn action_overview_test() {
    let action = Action::from_movetext(TEST_MOVE_1).unwrap();
    assert_eq!(action.source(), 0);
    assert_eq!(action.destination(), 16);
    assert_eq!(action.jump_len(), 2);
    assert_eq!(action.action_type(), ActionType::Jump);

    let action = Action::from_movetext(TEST_MOVE_2).unwrap();
    assert_eq!(action.source(), 0);
    assert_eq!(action.destination(), 5);
    assert_eq!(action.jump_len(), 0);
    assert_eq!(action.action_type(), ActionType::Move);

    let action = Action::from_movetext(TEST_MOVE_3).unwrap();
    assert_eq!(action.source(), 9);
    assert_eq!(action.destination(), 2);
    assert_eq!(action.jump_len(), 3);
    assert_eq!(action.action_type(), ActionType::Jump);
}

#[test]
fn direction_test() {
    let action = Action::from_movetext(TEST_MOVE_1).unwrap();
    assert_eq!(action.jump_direction(0), Some(Direction::DownRight));
    assert_eq!(action.jump_direction(1), Some(Direction::DownLeft));
    assert_eq!(action.jump_direction(2), None);

    let action = Action::from_movetext(TEST_MOVE_2).unwrap();
    assert_eq!(action.jump_direction(0), None);

    let action = Action::from_movetext(TEST_MOVE_3).unwrap();
    assert_eq!(action.jump_direction(1), Some(Direction::UpRight));
    assert_eq!(action.jump_direction(2), Some(Direction::UpLeft));
    assert_eq!(action.jump_direction(4), None);
}

#[test]
fn move_direction_test() {
    let action = Action::from_movetext(TEST_MOVE_1).unwrap();
    assert_eq!(action.move_direction(), None);

    let action = Action::from_movetext(TEST_MOVE_2).unwrap();
    assert_eq!(action.move_direction(), Some(Direction::DownRight));

    let action = Action::from_movetext(TEST_MOVE_4).unwrap();
    assert_eq!(action.move_direction(), Some(Direction::UpRight));
}

#[test]
fn movetext_roundtrip_test() {
    for text in ["1-10-17", "1-6", "10-19-12-3", "15-11", "8-15-22-31", "22-17"] {
        let action = Action::from_movetext(text).unwrap();
        assert_eq!(action.movetext(), text);
        let reparsed = Action::from_movetext(&action.movetext()).unwrap();
        assert_eq!(reparsed, action);
    }
}

#[test]
fn from_vector_test() {
    let action = Action::from_vector(vec![19, 24]).unwrap();
    assert_eq!(action.source(), 18);
    assert_eq!(action.destination(), 23);
    assert_eq!(action.jump_len(), 0);
}

#[test]
fn from_vector_error_test() {
    assert_eq!(Action::from_vector(vec![5]), Err(ParseError::MoveQuantityError));
    assert_eq!(
        Action::from_vector(vec![1, 2, 3, 4, 5, 6, 7, 8, 9, 10]),
        Err(ParseError::MoveQuantityError)
    );
    assert_eq!(Action::from_vector(vec![0, 5]), Err(ParseError::PositionValueError));
    assert_eq!(Action::from_vector(vec![33, 5]), Err(ParseError::PositionValueError));
    assert_eq!(Action::from_vector(vec![1, 2]), Err(ParseError::PositionValueError));
}

#[test]
fn from_movetext_error_test() {
    assert_eq!(Action::from_movetext("abc"), Err(ParseError::PositionValueError));
    assert_eq!(Action::from_movetext("10-"), Err(ParseError::PositionValueError));
    assert_eq!(Action::from_movetext("-10"), Err(ParseError::PositionValueError));
    assert_eq!(Action::from_movetext("999-1"), Err(ParseError::PositionValueError));
    assert_eq!(Action::from_movetext("7"), Err(ParseError::MoveQuantityError));
}
