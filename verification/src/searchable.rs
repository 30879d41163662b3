//! Game-level types shared by the board and the search: the optimisation
//! direction of a side, the state of a game, and the (action, resulting
//! state, Zobrist delta) triples move generation hands out.

use vstd::prelude::*;

use crate::action::Action;
use crate::bitboard::Bitboard;
use crate::bitboard::Color;

verus! {

/// The direction a side optimises the score in: Black maximises, White
/// minimises.
#[derive(Debug, Clone, Copy, PartialEq, Eq, Structural)]
pub enum Optim {
    Max,
    Min,
}

/// The winner of a finished game: one of the players, or a draw. A draw is
/// reserved: no rule produces it yet.
#[derive(Debug, Clone, Copy, PartialEq, Eq, Structural)]
pub enum Winner {
    Player(Color),
    Draw,
}

/// Whether a game is over, and who won it. The only terminal condition is
/// that the side to move has no legal action, which loses.
#[derive(Debug, Clone, Copy, PartialEq, Eq, Structural)]
pub enum GameState {
    Completed(Winner),
    InProgress,
}

/// An action, the board it leads to, and the XOR between the Zobrist keys of
/// the old and the new board.
#[derive(Debug, Clone, Copy)]
pub struct ActionStatePair {
    action: Action,
    state: Bitboard,
    zobrist_diff: u64,
}

impl ActionStatePair {
    /// The action of the pair.
    pub closed spec fn spec_action(self) -> Action {
        self.action
    }

    /// The board the action leads to.
    pub closed spec fn spec_state(self) -> Bitboard {
        self.state
    }

    /// The Zobrist delta of the action.
    pub closed spec fn spec_zobrist_diff(self) -> u64 {
        self.zobrist_diff
    }

    /// Packs an action with its resulting board and Zobrist delta.
    pub fn new(action: Action, state: Bitboard, zobrist_diff: u64) -> (r: ActionStatePair)
        ensures
            r.spec_action() == action,
            r.spec_state() == state,
            r.spec_zobrist_diff() == zobrist_diff,
    {
        ActionStatePair { action, state, zobrist_diff }
    }

    /// The action of the pair.
    pub fn action(&self) -> (r: Action)
        ensures
            r == self.spec_action(),
    {
        self.action
    }

    /// The board the action leads to.
    pub fn state(&self) -> (r: Bitboard)
        ensures
            r == self.spec_state(),
    {
        self.state
    }

    /// The Zobrist delta of the action.
    pub fn zobrist_diff(&self) -> (r: u64)
        ensures
            r == self.spec_zobrist_diff(),
    {
        self.zobrist_diff
    }
}


/// A side of a two-player game, with the direction it optimises the score
/// in.
pub trait Side {
    fn optim(&self) -> Optim;
}

impl Side for Color {
    fn optim(&self) -> Optim {
        match self {
            Color::White => Optim::Min,
            Color::Black => Optim::Max,
        }
    }
}

/// A game state the engine can search: it generates its legal actions,
/// applies an action, knows whether the game is over and whose turn it is,
/// evaluates itself, and carries a Zobrist key. The board implements it;
/// each method promises exactly what the board's own methods promise.
pub trait Searchable: View<V = crate::bitboard::BoardModel> + Sized {
    fn generate_all_actions(&self) -> (r: Vec<ActionStatePair>)
        ensures
            forall|i: int|
                0 <= i < r@.len() ==> crate::bitboard::pair_ok(self@, #[trigger] r@[i]),
            crate::bitboard::spec_game_state(self@) matches GameState::Completed(_) ==> r@.len()
                == 0,
    ;

    fn take_action(&self, action: &Action) -> (r: Result<Self, crate::error::ActionError>)
        requires
            action@.wf(),
        ensures
            crate::bitboard::spec_take_action(self@, action@) matches Ok(m) ==> r matches Ok(b)
                && b@ == m,
            crate::bitboard::spec_take_action(self@, action@) matches Err(e) ==> r matches Err(e2)
                && e2 == e,
    ;

    fn get_game_state(&self) -> (r: GameState)
        ensures
            r == crate::bitboard::spec_game_state(self@),
    ;

    fn turn(&self) -> (r: Color)
        ensures
            r == self@.turn,
    ;

    fn evaluate(&self) -> (r: i64)
        ensures
            r == crate::bitboard::spec_evaluate(self@),
    ;

    fn zobrist_hash(&self) -> (r: u64)
        ensures
            r == crate::bitboard::spec_board_key(self@),
    ;
}

impl Searchable for Bitboard {
    fn generate_all_actions(&self) -> (r: Vec<ActionStatePair>) {
        Bitboard::generate_all_actions(self)
    }

    fn take_action(&self, action: &Action) -> (r: Result<Bitboard, crate::error::ActionError>) {
        Bitboard::take_action(self, action)
    }

    fn get_game_state(&self) -> (r: GameState) {
        Bitboard::get_game_state(self)
    }

    fn turn(&self) -> (r: Color) {
        Bitboard::turn(self)
    }

    fn evaluate(&self) -> (r: i64) {
        Bitboard::evaluate(self)
    }

    fn zobrist_hash(&self) -> (r: u64) {
        Bitboard::zobrist_hash(self)
    }
}

} // verus!
