//! Tests of the bitboard: parsing, rendering, move generation, legality,
//! application of actions and Zobrist hashing.

use muskox::action::Action;
use muskox::bitboard::Bitboard;
use muskox::bitboard::Color;
use muskox::error::ActionError;
use muskox::error::ParseError;
use muskox::searchable::GameState;
use muskox::searchable::Winner;

const DEFAULT_BOARD: &'static str = "B:W21,22,23,24,25,26,27,28,29,30,31,32:B1,2,3,4,5,6,7,8,9,10,11,12";
const TEST_BOARD_1: &'static str = "B:W18,24,27,28,K10,K15:B12,16,20,K22,K25,K29";
const TEST_BOARD_2: &'static str = "W:W9,K11,19,K26,27,30:B15,22,25,K32";
const TEST_BOARD_3: &'static str = "B:WK3,11,23,25,26,27:B6,7,8,18,19,21,K31";
const TEST_BOARD_4: &'static str = "B:WK11,3:B";
const TEST_BOARD_5: &'static str = "W:B:W";
const TEST_BOARD_6: &'static str = "W:B11:W6";
const TEST_BOARD_7: &'static str = "B:W11,18,26,27:B8";

#[test]
fn from_fen_test() {
    let board = Bitboard::from_fen(TEST_BOARD_1).unwrap();
    assert_eq!(board.blacks(), 0x11288800);
    assert_eq!(board.whites(), 0x0c824200);
    assert_eq!(board.kings(), 0x11204200);
    assert_eq!(board.turn(), Color::Black);

    let board = Bitboard::from_fen(TEST_BOARD_2).unwrap();
    assert_eq!(board.blacks(), 0x81204000);
    assert_eq!(board.whites(), 0x26040500);
    assert_eq!(board.kings(), 0x82000400);
    assert_eq!(board.turn(), Color::White);

    let board = Bitboard::from_fen(TEST_BOARD_4).unwrap();
    assert_eq!(board.blacks(), 0);
    assert_eq!(board.whites(), 0x00000404);
    assert_eq!(board.kings(), 0x00000400);
    assert_eq!(board.turn(), Color::Black);
}

#[test]
fn from_fen_error_test() {
    assert_eq!(Bitboard::from_fen("B:W1"), Err(ParseError::InvalidBoard));
    assert_eq!(Bitboard::from_fen("B:W1:B2:W3"), Err(ParseError::InvalidBoard));
    assert_eq!(Bitboard::from_fen("X:W1:B2"), Err(ParseError::ColorError));
    assert_eq!(Bitboard::from_fen("B:X1:B2"), Err(ParseError::ColorError));
    assert_eq!(
        Bitboard::from_fen("B:W0:B2"),
        Err(ParseError::PositionError { position: "0".to_string() })
    );
    assert_eq!(
        Bitboard::from_fen("B:W40:B2"),
        Err(ParseError::PositionError { position: "40".to_string() })
    );
    assert_eq!(
        Bitboard::from_fen("B:WK:B2"),
        Err(ParseError::PositionError { position: "K".to_string() })
    );
    assert_eq!(
        Bitboard::from_fen("B:W4x:B2"),
        Err(ParseError::PositionError { position: "4x".to_string() })
    );
}

#[test]
fn fen_test() {
    let board = Bitboard::default();
    assert_eq!(board.fen(), DEFAULT_BOARD);

    let board = Bitboard::from_fen(TEST_BOARD_1).unwrap();
    assert_eq!(board.fen(), "B:WK10,K15,18,24,27,28:B12,16,20,K22,K25,K29");
}

#[test]
fn get_movers_white_test() {
    let board = Bitboard::default();
    assert_eq!(board.get_movers(&Color::White), 0x00f00000);

    let board = Bitboard::from_fen(TEST_BOARD_1).unwrap();
    assert_eq!(board.get_movers(&Color::White), 0x04824200);

    let board = Bitboard::from_fen(TEST_BOARD_2).unwrap();
    assert_eq!(board.get_movers(&Color::White), 0x06040500);

    let board = Bitboard::from_fen(TEST_BOARD_3).unwrap();
    assert_eq!(board.get_movers(&Color::White), 0x07000000);
}

#[test]
fn get_movers_black_test() {
    let board = Bitboard::default();
    assert_eq!(board.get_movers(&Color::Black), 0x00000f00);

    let board = Bitboard::from_fen(TEST_BOARD_1).unwrap();
    assert_eq!(board.get_movers(&Color::Black), 0x01208000);

    let board = Bitboard::from_fen(TEST_BOARD_2).unwrap();
    assert_eq!(board.get_movers(&Color::Black), 0x81004000);

    let board = Bitboard::from_fen(TEST_BOARD_3).unwrap();
    assert_eq!(board.get_movers(&Color::Black), 0x000600e0);
}

#[test]
fn get_jumpers_white_test() {
    let board = Bitboard::default();
    assert_eq!(board.get_jumpers(&Color::White), 0);

    let board = Bitboard::from_fen(TEST_BOARD_1).unwrap();
    assert_eq!(board.get_jumpers(&Color::White), 0);

    let board = Bitboard::from_fen(TEST_BOARD_2).unwrap();
    assert_eq!(board.get_jumpers(&Color::White), 0x22040400);

    let board = Bitboard::from_fen(TEST_BOARD_3).unwrap();
    assert_eq!(board.get_jumpers(&Color::White), 0x00400404);
}

#[test]
fn get_jumpers_black_test() {
    let board = Bitboard::default();
    assert_eq!(board.get_jumpers(&Color::Black), 0);

    let board = Bitboard::from_fen(TEST_BOARD_1).unwrap();
    assert_eq!(board.get_jumpers(&Color::Black), 0);

    let board = Bitboard::from_fen(TEST_BOARD_2).unwrap();
    assert_eq!(board.get_jumpers(&Color::Black), 0x80204000);

    let board = Bitboard::from_fen(TEST_BOARD_3).unwrap();
    assert_eq!(board.get_jumpers(&Color::Black), 0x401000c0);
}

#[test]
fn get_game_state_test() {
    let board = Bitboard::default();
    assert_eq!(board.get_game_state(), GameState::InProgress);

    let board = Bitboard::from_fen(TEST_BOARD_3).unwrap();
    assert_eq!(board.get_game_state(), GameState::InProgress);

    let board = Bitboard::from_fen(TEST_BOARD_4).unwrap();
    assert_eq!(board.get_game_state(), GameState::Completed(Winner::Player(Color::White)));

    let board = Bitboard::from_fen(TEST_BOARD_5).unwrap();
    assert_eq!(board.get_game_state(), GameState::Completed(Winner::Player(Color::Black)));
}

#[test]
fn validate_action_move_test() {
    let board = Bitboard::default();
    let action = Action::from_movetext("10-14").unwrap();
    assert_eq!(board.validate_action(&action), Ok(()));
    let action = Action::from_movetext("23-18").unwrap();
    assert_eq!(
        board.validate_action(&action),
        Err(ActionError::SourceColorError { position: 22, color: Color::Black })
    );

    let board = Bitboard::from_fen(TEST_BOARD_1).unwrap();
    let action = Action::from_movetext("16-19").unwrap();
    assert_eq!(board.validate_action(&action), Ok(()));
    let action = Action::from_movetext("22-17").unwrap();
    assert_eq!(board.validate_action(&action), Ok(()));
    let action = Action::from_movetext("12-8").unwrap();
    assert_eq!(board.validate_action(&action), Err(ActionError::SinglePieceBackwardsError));
    let action = Action::from_movetext("22-18").unwrap();
    assert_eq!(
        board.validate_action(&action),
        Err(ActionError::DestinationEmptyError { destination: 17 })
    );

    let board = Bitboard::from_fen(TEST_BOARD_2).unwrap();
    let action = Action::from_movetext("9-6").unwrap();
    assert_eq!(board.validate_action(&action), Err(ActionError::HaveToJumpError));
}

#[test]
fn take_action_move_test() {
    let board = Bitboard::default();
    let action = Action::from_movetext("10-14").unwrap();
    let board_p = board.take_action(&action).unwrap();
    assert_eq!(board_p.whites(), 0xfff00000);
    assert_eq!(board_p.blacks(), 0x00002dff);
    assert_eq!(board_p.kings(), 0);
    assert_eq!(board_p.turn(), Color::White);

    let board = Bitboard::from_fen(TEST_BOARD_1).unwrap();
    let action = Action::from_movetext("16-19").unwrap();
    let board_p = board.take_action(&action).unwrap();
    assert_eq!(board_p.blacks(), 0x112c0800);
    assert_eq!(board_p.whites(), 0x0c824200);
    assert_eq!(board_p.kings(), 0x11204200);

    // king moving backwards
    let action = Action::from_movetext("22-17").unwrap();
    let board_p = board.take_action(&action).unwrap();
    assert_eq!(board_p.blacks(), 0x11098800);
    assert_eq!(board_p.whites(), 0x0c824200);
    assert_eq!(board_p.kings(), 0x11014200);

    // kinging of single piece
    let board = Bitboard::from_fen(TEST_BOARD_6).unwrap();
    let action = Action::from_movetext("6-2").unwrap();
    let board_p = board.take_action(&action).unwrap();
    assert_eq!(board_p.blacks(), 0x00000400);
    assert_eq!(board_p.whites(), 0x00000002);
    assert_eq!(board_p.kings(), 0x00000002);
    assert_eq!(board_p.turn(), Color::Black);
}

#[test]
fn validate_action_jump_test() {
    let board = Bitboard::from_fen(TEST_BOARD_2).unwrap();
    let action = Action::from_movetext("30-21").unwrap();
    assert_eq!(board.validate_action(&action), Ok(()));
    let action = Action::from_movetext("30-23").unwrap();
    assert_eq!(
        board.validate_action(&action),
        Err(ActionError::SkippedPositionError { skipped: 25, color: Color::Black })
    );
    let action = Action::from_movetext("27-20").unwrap();
    assert_eq!(
        board.validate_action(&action),
        Err(ActionError::SkippedPositionError { skipped: 23, color: Color::Black })
    );

    let board = Bitboard::from_fen(TEST_BOARD_7).unwrap();
    let action = Action::from_movetext("8-15-22").unwrap();
    assert_eq!(board.validate_action(&action), Err(ActionError::NeedMoreJumpingError));
    let action = Action::from_movetext("8-15-22-31").unwrap();
    assert_eq!(board.validate_action(&action), Ok(()));
    let action = Action::from_movetext("8-15-22-31-24").unwrap();
    assert_eq!(board.validate_action(&action), Err(ActionError::SinglePieceBackwardsError));
}

#[test]
fn take_action_jump_test() {
    let board = Bitboard::from_fen(TEST_BOARD_2).unwrap();
    let action = Action::from_movetext("11-18").unwrap();
    let board_p = board.take_action(&action).unwrap();
    assert_eq!(board_p.blacks(), 0x81200000);
    assert_eq!(board_p.whites(), 0x26060100);
    assert_eq!(board_p.kings(), 0x82020000);

    let action = Action::from_movetext("19-10").unwrap();
    let board_p = board.take_action(&action).unwrap();
    assert_eq!(board_p.blacks(), 0x81200000);
    assert_eq!(board_p.whites(), 0x26000700);
    assert_eq!(board_p.kings(), 0x82000400);

    let board = Bitboard::from_fen(TEST_BOARD_3).unwrap();
    let action = Action::from_movetext("21-30").unwrap();
    let board_p = board.take_action(&action).unwrap();
    assert_eq!(board_p.blacks(), 0x600600e0);
    assert_eq!(board_p.whites(), 0x06400404);
    assert_eq!(board_p.kings(), 0x60000004);

    let board = Bitboard::from_fen(TEST_BOARD_7).unwrap();
    let action = Action::from_movetext("8-15-22-31").unwrap();
    let board_p = board.take_action(&action).unwrap();
    assert_eq!(board_p.blacks(), 0x40000000);
    assert_eq!(board_p.whites(), 0x04000000);
    assert_eq!(board_p.kings(), 0x40000000);
}

#[test]
fn zobrist_hashing_test() {
    // the incremental delta agrees with recomputing the key from scratch
    let board = Bitboard::from_fen(DEFAULT_BOARD).unwrap();

    for action in board.generate_all_actions() {
        let board_p = action.state();
        let zobrist_diff = action.zobrist_diff();
        let zobrist_hash = board.zobrist_hash() ^ zobrist_diff;
        assert_eq!(zobrist_hash, board_p.zobrist_hash());
    }

    let board = Bitboard::from_fen(TEST_BOARD_2).unwrap();

    for action in board.generate_all_actions() {
        let board_p = action.state();
        let zobrist_diff = action.zobrist_diff();
        let zobrist_hash = board.zobrist_hash() ^ zobrist_diff;
        assert_eq!(zobrist_hash, board_p.zobrist_hash());
    }
}

#[test]
fn generate_all_actions_test() {
    // the starting position has exactly the seven opening moves
    let board = Bitboard::default();
    let pairs = board.generate_all_actions();
    assert_eq!(pairs.len(), 7);
    let mut texts: Vec<String> = pairs.iter().map(|p| p.action().movetext()).collect();
    texts.sort();
    assert_eq!(texts, vec!["10-14", "10-15", "11-15", "11-16", "12-16", "9-13", "9-14"]);

    // with a capture available, only capture chains come out, each once
    let board = Bitboard::from_fen(TEST_BOARD_2).unwrap();
    let pairs = board.generate_all_actions();
    assert!(pairs.len() > 0);
    for p in pairs.iter() {
        assert!(p.action().jump_len() > 0);
        assert_eq!(board.validate_action(&p.action()), Ok(()));
    }
    let mut texts: Vec<String> = pairs.iter().map(|p| p.action().movetext()).collect();
    let total = texts.len();
    texts.sort();
    texts.dedup();
    assert_eq!(texts.len(), total);

    // a finished game generates nothing
    let board = Bitboard::from_fen(TEST_BOARD_4).unwrap();
    assert_eq!(board.generate_all_actions().len(), 0);
}

#[test]
fn pretty_test() {
    let board = Bitboard::default();
    let border = "+---+---+---+---+---+---+---+---+";
    let expected = format!(
        "{b}\n{r0}{b}\n{r1}{b}\n{r0}{b}\n{e}{b}\n{e}{b}\n{r5}{b}\n{r6}{b}\n{r5}{b}",
        b = border,
        r0 = "|   | b |   | b |   | b |   | b |\n",
        r1 = "| b |   | b |   | b |   | b |   |\n",
        e = "|   |   |   |   |   |   |   |   |\n",
        r5 = "| w |   | w |   | w |   | w |   |\n",
        r6 = "|   | w |   | w |   | w |   | w |\n",
    );
    assert_eq!(board.pretty(), expected);
}

#[test]
fn start_position_test() {
    // the freshly constructed board is the standard start position
    let board = Bitboard::default();
    assert_eq!(board.blacks(), 0x00000fff);
    assert_eq!(board.whites(), 0xfff00000);
    assert_eq!(board.kings(), 0);
    assert_eq!(board.turn(), Color::Black);
    assert_eq!(board.get_movers(&Color::Black), 0x00000f00);
    assert_eq!(board.get_movers(&Color::White), 0x00f00000);
    assert_eq!(board.get_jumpers(&Color::Black), 0);
    assert_eq!(board.get_jumpers(&Color::White), 0);
}

#[test]
fn action_is_well_formed_test() {
    // chains built from movetext are well formed; a wrap-around jump is not
    let a = Action::from_movetext("8-15-22-31").unwrap();
    assert!(Bitboard::action_is_well_formed(&a));
    let a = Action::from_movetext("22-17").unwrap();
    assert!(Bitboard::action_is_well_formed(&a));
    // 1-8 has the numeric shape of a jump but wraps around the board edge
    let a = Action::from_movetext("1-8").unwrap();
    assert!(!Bitboard::action_is_well_formed(&a));
}
