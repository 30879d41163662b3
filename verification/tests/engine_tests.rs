//! Tests of the evaluator, the transposition table, the search engine and
//! the search constraints.

use muskox::bitboard::Bitboard;
use muskox::bitboard::Color;
use muskox::error::ActionError;
use muskox::error::ParseError;
use muskox::engine::Engine;
use muskox::engine::SearchConstraint;
use muskox::movepick::PickConstraint;
use muskox::searchable::Optim;
use muskox::tt::TranspositionTable;
use muskox::zobrist::get_position_hash;
use muskox::zobrist::get_turn_hash;

const DEFAULT_BOARD: &'static str = "B:W21,22,23,24,25,26,27,28,29,30,31,32:B1,2,3,4,5,6,7,8,9,10,11,12";
const TEST_BOARD_1: &'static str = "B:W18,24,27,28,K10,K15:B12,16,20,K22,K25,K29";
const TEST_BOARD_2: &'static str = "W:W9,K11,19,K26,27,30:B15,22,25,K32";
const TEST_BOARD_3: &'static str = "B:WK3,11,23,25,26,27:B6,7,8,18,19,21,K31";

#[test]
fn default_evaluator_test() {
    let board = Bitboard::from_fen(DEFAULT_BOARD).unwrap();
    assert_eq!(board.evaluate(), 0);

    let board = Bitboard::from_fen(TEST_BOARD_1).unwrap();
    assert_eq!(board.evaluate(), 1);

    let board = Bitboard::from_fen(TEST_BOARD_2).unwrap();
    assert_eq!(board.evaluate(), -3);

    let board = Bitboard::from_fen(TEST_BOARD_3).unwrap();
    assert_eq!(board.evaluate(), 1);
}

#[test]
fn zobrist_determinism_test() {
    // the table is derived from a fixed seed: two computations agree, and
    // the pieces of the key differ from one another
    assert_eq!(
        get_position_hash(5, Color::Black, false),
        get_position_hash(5, Color::Black, false)
    );
    assert_ne!(
        get_position_hash(5, Color::Black, false),
        get_position_hash(5, Color::White, false)
    );
    assert_ne!(
        get_position_hash(5, Color::Black, false),
        get_position_hash(6, Color::Black, false)
    );
    assert_ne!(
        get_position_hash(5, Color::Black, false),
        get_position_hash(5, Color::Black, true)
    );
    assert_eq!(get_turn_hash(), get_turn_hash());

    // the turn flips the key by exactly the turn hash
    let b = Bitboard::from_fen("B:W21:B1").unwrap();
    let w = Bitboard::from_fen("W:W21:B1").unwrap();
    assert_eq!(b.zobrist_hash() ^ get_turn_hash(), w.zobrist_hash());
}

#[test]
fn transposition_table_test() {
    let mut tt = TranspositionTable::new(1);
    let board = Bitboard::default();
    let other = Bitboard::from_fen(TEST_BOARD_1).unwrap();
    let key = board.zobrist_hash();

    // nothing was saved yet
    assert_eq!(tt.probe(key, &board, 0), None);

    tt.save(key, &board, 3, 42);

    // a probe at the stored depth or shallower finds the score
    assert_eq!(tt.probe(key, &board, 3), Some(42));
    assert_eq!(tt.probe(key, &board, 1), Some(42));

    // a probe needing more depth, or for another board, finds nothing
    assert_eq!(tt.probe(key, &board, 4), None);
    assert_eq!(tt.probe(key, &other, 1), None);

    // resize empties the table
    tt.resize(1);
    assert_eq!(tt.probe(key, &board, 0), None);
}

#[test]
fn transposition_replacement_test() {
    // a 1 MiB table has 1048576 / 80 clusters; keys a cluster-count apart
    // land in the same cluster
    let n: u64 = 1024 * 1024 / 80;
    let mut tt = TranspositionTable::new(1);
    let b1 = Bitboard::from_fen(TEST_BOARD_1).unwrap();
    let b2 = Bitboard::from_fen(TEST_BOARD_2).unwrap();
    let b3 = Bitboard::from_fen(TEST_BOARD_3).unwrap();
    let b4 = Bitboard::default();

    // fill the three slots of cluster 0 with deep entries
    tt.save(0, &b1, 10, 1);
    tt.save(n, &b2, 10, 2);
    tt.save(2 * n, &b3, 10, 3);
    assert_eq!(tt.probe(0, &b1, 10), Some(1));
    assert_eq!(tt.probe(n, &b2, 10), Some(2));
    assert_eq!(tt.probe(2 * n, &b3, 10), Some(3));

    // a shallow entry outranks none of them and is dropped
    tt.save(3 * n, &b4, 1, 4);
    assert_eq!(tt.probe(3 * n, &b4, 0), None);
    assert_eq!(tt.probe(0, &b1, 10), Some(1));

    // a deeper entry takes the first slot
    tt.save(3 * n, &b4, 200, 5);
    assert_eq!(tt.probe(3 * n, &b4, 0), Some(5));
    assert_eq!(tt.probe(0, &b1, 10), None);
}

#[test]
fn search_depth_zero_test() {
    // at depth zero the scores are the static evaluations of the children,
    // ranked in the side to move's direction
    let mut engine = Engine::with_table_mb(1);
    let board = Bitboard::from_fen(TEST_BOARD_2).unwrap();
    let results = engine.search(&board, &SearchConstraint::Depth(0));
    assert!(results.len() > 0);
    for pair in results.iter() {
        let child = board.take_action(&pair.action()).unwrap();
        assert_eq!(pair.score(), child.evaluate());
    }
    // White minimises: ascending scores
    for w in results.windows(2) {
        assert!(w[0].score() <= w[1].score());
    }
}

#[test]
fn search_depth_one_ranking_test() {
    // at depth one the children are ranked by their static evaluation, in
    // the side to move's direction: descending for Black, the maximiser
    let mut engine = Engine::with_table_mb(1);
    let board = Bitboard::default();
    let results = engine.search(&board, &SearchConstraint::Depth(1));
    assert_eq!(results.len(), 7);
    for pair in results.iter() {
        let child = board.take_action(&pair.action()).unwrap();
        assert_eq!(pair.score(), child.evaluate());
    }
    for w in results.windows(2) {
        assert!(w[0].score() >= w[1].score());
    }
}

#[test]
fn search_ranking_test() {
    let mut engine = Engine::with_table_mb(1);
    let board = Bitboard::default();
    let results = engine.search(&board, &SearchConstraint::Depth(3));
    assert_eq!(results.len(), 7);
    // Black maximises: descending scores
    for w in results.windows(2) {
        assert!(w[0].score() >= w[1].score());
    }
    // every ranked action is legal
    for pair in results.iter() {
        assert_eq!(board.validate_action(&pair.action()), Ok(()));
    }
}

#[test]
fn search_terminal_test() {
    // a finished game yields an empty ranking
    let mut engine = Engine::with_table_mb(1);
    let board = Bitboard::from_fen("B:WK11,3:B").unwrap();
    let results = engine.search(&board, &SearchConstraint::Depth(2));
    assert_eq!(results.len(), 0);
}

#[test]
fn search_constraint_test() {
    assert!(SearchConstraint::depth(25).is_ok());
    assert!(SearchConstraint::depth(26).is_err());
    assert!(SearchConstraint::time(300000).is_ok());
    assert!(SearchConstraint::time(300001).is_err());
    assert_eq!(SearchConstraint::none(), SearchConstraint::Unbounded);
    assert_eq!(SearchConstraint::depth(4).unwrap(), SearchConstraint::Depth(4));
    assert_eq!(SearchConstraint::time(1500).unwrap(), SearchConstraint::Time(1500));
}

#[test]
fn pick_constraint_test() {
    assert!(PickConstraint::depth(8).is_ok());
    assert!(PickConstraint::depth(9).is_err());
    assert!(PickConstraint::time(300000).is_ok());
    assert!(PickConstraint::time(300001).is_err());
    assert_eq!(PickConstraint::none(), PickConstraint::Unbounded);
}

#[test]
fn color_optim_test() {
    assert_eq!(Color::Black.optim(), Optim::Max);
    assert_eq!(Color::White.optim(), Optim::Min);
    assert_eq!(Color::Black.other(), Color::White);
    assert_eq!(Color::White.other(), Color::Black);
}

#[test]
fn error_message_test() {
    assert_eq!(ActionError::HaveToJumpError.message(), "One of the jumpers need to move!");
    assert_eq!(
        ActionError::SinglePieceBackwardsError.message(),
        "Only kings can move backwards!"
    );
    assert_eq!(ActionError::NeedMoreJumpingError.message(), "More jumping required!");
    assert_eq!(ParseError::InvalidBoard.message(), "Couldn't parse board!");
    assert_eq!(ParseError::ColorError.message(), "Invalid color letter (W and B are valid)!");
}
