//! The bitboard: three 32-bit occupancy masks over the playable squares
//! 0..32 plus the side to move, with move generation, legality, application
//! of actions, and the game state.

use vstd::prelude::*;
use vstd::string::StringExecFns;

use crate::action::spec_between;
use crate::action::spec_from_vector;
use crate::action::spec_jump;
use crate::action::spec_step;
use crate::action::Action;
use crate::action::ActionModel;
use crate::action::ActionType;
use crate::action::Direction;
use crate::error::ActionError;
use crate::searchable::GameState;
use crate::searchable::Optim;
use crate::searchable::Winner;

verus! {

/// One of the two sides of a checkers game.
#[derive(Debug, Clone, Copy, PartialEq, Eq, Hash, Structural)]
pub enum Color {
    Black,
    White,
}

/// The side opposing `c`.
pub open spec fn spec_other(c: Color) -> Color {
    match c {
        Color::Black => Color::White,
        Color::White => Color::Black,
    }
}

/// The optimisation direction of each side: Black maximises, White
/// minimises.
pub open spec fn spec_optim(c: Color) -> Optim {
    match c {
        Color::Black => Optim::Max,
        Color::White => Optim::Min,
    }
}

impl Color {
    /// The side opposing this one.
    pub fn other(&self) -> (r: Color)
        ensures
            r == spec_other(*self),
    {
        match self {
            Color::Black => Color::White,
            Color::White => Color::Black,
        }
    }

    /// The direction this side optimises the score in.
    pub fn optim(&self) -> (r: Optim)
        ensures
            r == spec_optim(*self),
    {
        match self {
            Color::White => Optim::Min,
            Color::Black => Optim::Max,
        }
    }
}

/// The squares from which a shift by 3 towards higher squares stays on the
/// board: a shift by 3 crosses rows only out of squares 5..8 of each pair of
/// rows.
pub const MASK_L3: u32 = 0x07070707;

/// The squares from which a shift by 5 towards higher squares stays on the
/// board.
pub const MASK_L5: u32 = 0xe0e0e0e0;

/// The squares from which a shift by 3 towards lower squares stays on the
/// board.
pub const MASK_R3: u32 = 0xe0e0e0e0;

/// The squares from which a shift by 5 towards lower squares stays on the
/// board.
pub const MASK_R5: u32 = 0x07070707;

/// Bit `q` of the mask `m`.
pub open spec fn nth(m: u32, q: u32) -> bool {
    (m >> q) & 1 == 1
}

/// How the bits of masks built by `|`, `&`, `!` and `% 2` tests read out.
proof fn lemma_nth_basics()
    by (bit_vector)
    ensures
        forall|x: u32, q: u32| q < 32 ==> ((x >> q) % 2 == 1) == #[trigger] nth(x, q),
        forall|a: u32, b: u32, q: u32| #[trigger] nth(a | b, q) == (nth(a, q) || nth(b, q)),
        forall|a: u32, b: u32, q: u32| #[trigger] nth(a & b, q) == (nth(a, q) && nth(b, q)),
        forall|a: u32, q: u32| q < 32 ==> #[trigger] nth(!a, q) == !nth(a, q),
        forall|q: u32| #[trigger] nth(0, q) == false,
{
}

/// Setting or clearing bit `p` of a mask changes that bit and no other.
proof fn lemma_nth_update()
    by (bit_vector)
    ensures
        forall|m: u32, p: u32, q: u32|
            p < 32 && q < 32 ==> #[trigger] nth(m | (1u32 << p), q) == (nth(m, q) || p == q),
        forall|m: u32, p: u32, q: u32|
            p < 32 && q < 32 ==> #[trigger] nth(m & !(1u32 << p), q) == (nth(m, q) && p != q),
{
}

/// A non-zero mask has a set bit: its lowest one.
proof fn lemma_mask_has_bit(m: u32)
    requires
        m != 0,
    ensures
        exists|q: u8| q < 32 && #[trigger] nth(m, q as u32),
{
    vstd::std_specs::bits::axiom_u32_trailing_zeros(m);
    let tz = vstd::std_specs::bits::u32_trailing_zeros(m);
    assert((m >> tz) & 1 == 1);
    let q = tz as u8;
    assert(q < 32 && nth(m, q as u32));
}

/// The mathematical content of a `Bitboard`: the three masks and the turn.
#[verifier::ext_equal]
pub struct BoardModel {
    pub blacks: u32,
    pub whites: u32,
    pub kings: u32,
    pub turn: Color,
}

impl BoardModel {
    /// A legal board: no square holds both colors, and every king square
    /// holds a piece.
    pub open spec fn wf(self) -> bool {
        &&& self.blacks & self.whites == 0
        &&& self.kings & !(self.blacks | self.whites) == 0
    }

    /// The mask of the pieces of side `c`.
    pub open spec fn color_mask(self, c: Color) -> u32 {
        match c {
            Color::Black => self.blacks,
            Color::White => self.whites,
        }
    }

    /// Whether square `p` holds a piece of side `c`.
    pub open spec fn has_color(self, p: u8, c: Color) -> bool {
        nth(self.color_mask(c), p as u32)
    }

    /// Whether square `p` holds no piece at all.
    pub open spec fn empty_at(self, p: u8) -> bool {
        !nth(self.blacks | self.whites, p as u32)
    }

    /// Whether square `p` holds a king.
    pub open spec fn king_at(self, p: u8) -> bool {
        nth(self.kings, p as u32)
    }

    /// Whether side `c` may move a piece standing on `p` in direction `d`:
    /// forwards always, backwards only for a king.
    pub open spec fn dir_allowed(self, p: u8, d: Direction, c: Color) -> bool {
        man_dir_ok(c, d) || self.king_at(p)
    }

    /// Whether a piece of side `c` on square `p` can make a simple move in
    /// direction `d`.
    pub open spec fn dir_move_ok(self, p: u8, d: Direction, c: Color) -> bool {
        &&& self.dir_allowed(p, d, c)
        &&& spec_step(d, p) matches Some(q) && self.empty_at(q)
    }

    /// Whether a piece of side `c` on square `p` can capture in direction
    /// `d`: the square stepped over holds an opponent piece and the landing
    /// square is empty.
    pub open spec fn dir_jump_ok(self, p: u8, d: Direction, c: Color) -> bool {
        &&& self.dir_allowed(p, d, c)
        &&& spec_step(d, p) matches Some(over) && self.has_color(over, spec_other(c))
        &&& spec_jump(d, p) matches Some(land) && self.empty_at(land)
    }

    /// Whether a piece of side `c` on square `p` has any simple move.
    pub open spec fn can_move_from(self, p: u8, c: Color) -> bool {
        exists|d: Direction| #[trigger] self.dir_move_ok(p, d, c)
    }

    /// Whether a piece of side `c` on square `p` has any capture.
    pub open spec fn can_jump_from(self, p: u8, c: Color) -> bool {
        exists|d: Direction| #[trigger] self.dir_jump_ok(p, d, c)
    }

    /// Whether square `p` holds a piece of side `c` with a simple move: the
    /// meaning of each bit of `get_movers`.
    pub open spec fn mover_at(self, p: u8, c: Color) -> bool {
        self.has_color(p, c) && self.can_move_from(p, c)
    }

    /// Whether square `p` holds a piece of side `c` with a capture: the
    /// meaning of each bit of `get_jumpers`.
    pub open spec fn jumper_at(self, p: u8, c: Color) -> bool {
        self.has_color(p, c) && self.can_jump_from(p, c)
    }

    /// Whether side `c` has any piece with a simple move.
    pub open spec fn has_any_mover(self, c: Color) -> bool {
        exists|p: u8| p < 32 && #[trigger] self.mover_at(p, c)
    }

    /// Whether side `c` has any piece with a capture.
    pub open spec fn has_any_jumper(self, c: Color) -> bool {
        exists|p: u8| p < 32 && #[trigger] self.jumper_at(p, c)
    }

    /// The board with square `p` emptied.
    pub open spec fn spec_remove_piece(self, p: u8) -> BoardModel {
        BoardModel {
            blacks: self.blacks & !(1u32 << (p as u32)),
            whites: self.whites & !(1u32 << (p as u32)),
            kings: self.kings & !(1u32 << (p as u32)),
            turn: self.turn,
        }
    }

    /// The board with a piece of side `c` put on square `p`, a king if
    /// `is_king`.
    pub open spec fn spec_add_piece(self, p: u8, c: Color, is_king: bool) -> BoardModel {
        BoardModel {
            blacks: if c == Color::Black {
                self.blacks | (1u32 << (p as u32))
            } else {
                self.blacks
            },
            whites: if c == Color::White {
                self.whites | (1u32 << (p as u32))
            } else {
                self.whites
            },
            kings: if is_king {
                self.kings | (1u32 << (p as u32))
            } else {
                self.kings
            },
            turn: self.turn,
        }
    }
}

/// The directions a plain man of side `c` may travel: down the board for
/// Black, up for White.
pub open spec fn man_dir_ok(c: Color, d: Direction) -> bool {
    match c {
        Color::Black => d == Direction::DownLeft || d == Direction::DownRight,
        Color::White => d == Direction::UpLeft || d == Direction::UpRight,
    }
}

/// The state of the game on board `b`: the side to move loses when it has
/// neither a move nor a capture.
pub open spec fn spec_game_state(b: BoardModel) -> GameState {
    if b.turn == Color::Black && !b.has_any_mover(Color::Black) && !b.has_any_jumper(Color::Black) {
        GameState::Completed(Winner::Player(Color::White))
    } else if b.turn == Color::White && !b.has_any_mover(Color::White) && !b.has_any_jumper(
        Color::White,
    ) {
        GameState::Completed(Winner::Player(Color::Black))
    } else {
        GameState::InProgress
    }
}

/// A single state of a checkerboard: masks of the black pieces, the white
/// pieces and the kings, and the side to move.
#[derive(Debug, Clone, Copy, PartialEq, Eq, Hash, Structural)]
pub struct Bitboard {
    blacks: u32,
    whites: u32,
    kings: u32,
    turn: Color,
}

impl View for Bitboard {
    type V = BoardModel;

    closed spec fn view(&self) -> BoardModel {
        BoardModel { blacks: self.blacks, whites: self.whites, kings: self.kings, turn: self.turn }
    }
}

/// The model of the starting position: twelve black men on squares 0..12,
/// twelve white men on squares 20..32, no kings, Black to move.
pub open spec fn start_model() -> BoardModel {
    BoardModel { blacks: 0x00000fff, whites: 0xfff00000, kings: 0, turn: Color::Black }
}

impl Default for Bitboard {
    /// The starting position.
    fn default() -> (r: Bitboard)
        ensures
            r@ == start_model(),
    {
        Bitboard { blacks: 0x00000fff, whites: 0xfff00000, kings: 0, turn: Color::Black }
    }
}

impl Bitboard {
    /// The mask of the black pieces.
    pub fn blacks(&self) -> (r: u32)
        ensures
            r == self@.blacks,
    {
        self.blacks
    }

    /// The mask of the white pieces.
    pub fn whites(&self) -> (r: u32)
        ensures
            r == self@.whites,
    {
        self.whites
    }

    /// The mask of the kings of both sides.
    pub fn kings(&self) -> (r: u32)
        ensures
            r == self@.kings,
    {
        self.kings
    }

    /// The side to move.
    pub fn turn(&self) -> (r: Color)
        ensures
            r == self@.turn,
    {
        self.turn
    }

    /// Whether square `position` holds no piece.
    fn is_empty(&self, position: u8) -> (r: bool)
        requires
            position < 32,
        ensures
            r == self@.empty_at(position),
    {
        proof {
            lemma_nth_basics();
        }
        (self.whites >> (position as u32)) % 2 == 0 && (self.blacks >> (position as u32)) % 2 == 0
    }

    /// Whether square `position` holds a king.
    fn is_king(&self, position: u8) -> (r: bool)
        requires
            position < 32,
        ensures
            r == self@.king_at(position),
    {
        proof {
            lemma_nth_basics();
        }
        (self.kings >> (position as u32)) % 2 == 1
    }

    /// Whether square `position` holds a piece of side `color`.
    fn coloring_eq(&self, position: u8, color: &Color) -> (r: bool)
        requires
            position < 32,
        ensures
            r == self@.has_color(position, *color),
    {
        proof {
            lemma_nth_basics();
        }
        let color_mask = match color {
            Color::White => self.whites,
            Color::Black => self.blacks,
        };
        (color_mask >> (position as u32)) % 2 == 1
    }

    /// Empties square `position` in all three masks.
    fn remove_piece(&mut self, position: u8)
        requires
            position < 32,
        ensures
            final(self)@ == old(self)@.spec_remove_piece(position),
    {
        let mask = !(1u32 << (position as u32));
        self.whites = self.whites & mask;
        self.blacks = self.blacks & mask;
        self.kings = self.kings & mask;
    }

    /// Puts a piece of side `color` on square `position`, a king if
    /// `is_king`.
    fn add_piece(&mut self, position: u8, color: &Color, is_king: bool)
        requires
            position < 32,
        ensures
            final(self)@ == old(self)@.spec_add_piece(position, *color, is_king),
    {
        let mask = 1u32 << (position as u32);
        match color {
            Color::Black => {
                self.blacks = self.blacks | mask;
            },
            Color::White => {
                self.whites = self.whites | mask;
            },
        };
        if is_king {
            self.kings = self.kings | mask;
        }
    }

    /// Whether side `color` may move a piece on `position` in direction `d`.
    fn dir_allowed(&self, position: u8, d: Direction, color: &Color) -> (r: bool)
        requires
            position < 32,
        ensures
            r == self@.dir_allowed(position, d, *color),
    {
        let forward = match color {
            Color::Black => matches!(d, Direction::DownLeft | Direction::DownRight),
            Color::White => matches!(d, Direction::UpLeft | Direction::UpRight),
        };
        forward || self.is_king(position)
    }

    /// Whether a piece of side `color` on `position` can move one step in
    /// direction `d`.
    fn dir_move_ok(&self, position: u8, d: Direction, color: &Color) -> (r: bool)
        requires
            position < 32,
        ensures
            r == self@.dir_move_ok(position, d, *color),
    {
        if !self.dir_allowed(position, d, color) {
            return false;
        }
        match d.relative_to(position) {
            Some(q) => self.is_empty(q),
            None => false,
        }
    }

    /// Whether a piece of side `color` on `position` can capture in
    /// direction `d`.
    fn dir_jump_ok(&self, position: u8, d: Direction, color: &Color) -> (r: bool)
        requires
            position < 32,
        ensures
            r == self@.dir_jump_ok(position, d, *color),
    {
        if !self.dir_allowed(position, d, color) {
            return false;
        }
        let over = match d.relative_to(position) {
            Some(q) => q,
            None => {
                return false;
            },
        };
        if !self.coloring_eq(over, &color.other()) {
            return false;
        }
        match d.relative_jump_from(position) {
            Some(land) => self.is_empty(land),
            None => false,
        }
    }

    /// Whether a piece of side `color` on `position` has any simple move.
    fn can_move_from(&self, position: u8, color: &Color) -> (r: bool)
        requires
            position < 32,
        ensures
            r == self@.can_move_from(position, *color),
    {
        let r = self.dir_move_ok(position, Direction::UpLeft, color) || self.dir_move_ok(
            position,
            Direction::UpRight,
            color,
        ) || self.dir_move_ok(position, Direction::DownLeft, color) || self.dir_move_ok(
            position,
            Direction::DownRight,
            color,
        );
        proof {
            if !r {
                assert forall|d: Direction| !(#[trigger] self@.dir_move_ok(position, d, *color)) by {
                    match d {
                        Direction::UpLeft => {},
                        Direction::UpRight => {},
                        Direction::DownLeft => {},
                        Direction::DownRight => {},
                    }
                }
            }
        }
        r
    }

    /// Whether a piece of side `color` on `position` has any capture.
    fn can_jump_from(&self, position: u8, color: &Color) -> (r: bool)
        requires
            position < 32,
        ensures
            r == self@.can_jump_from(position, *color),
    {
        let r = self.dir_jump_ok(position, Direction::UpLeft, color) || self.dir_jump_ok(
            position,
            Direction::UpRight,
            color,
        ) || self.dir_jump_ok(position, Direction::DownLeft, color) || self.dir_jump_ok(
            position,
            Direction::DownRight,
            color,
        );
        proof {
            if !r {
                assert forall|d: Direction| !(#[trigger] self@.dir_jump_ok(position, d, *color)) by {
                    match d {
                        Direction::UpLeft => {},
                        Direction::UpRight => {},
                        Direction::DownLeft => {},
                        Direction::DownRight => {},
                    }
                }
            }
        }
        r
    }

    /// The mask of the pieces of side `color` that have at least one simple
    /// move: bit-parallel shifts move the empty squares one step against the
    /// side's direction of travel, masked so that no shift wraps a column,
    /// and land on the pieces that can make that step.
    pub fn get_movers(&self, color: &Color) -> (r: u32)
        ensures
            forall|p: u8| p < 32 ==> #[trigger] nth(r, p as u32) == self@.mover_at(p, *color),
    {
        let not_occupied = !(self.whites | self.blacks);

        let movers = match color {
            Color::White => {
                let white_kings = self.whites & self.kings;

                let mut movers = not_occupied << 4;

                movers = movers | ((not_occupied & MASK_R3) << 3);
                movers = movers | ((not_occupied & MASK_R5) << 5);
                movers = movers & self.whites;

                if white_kings != 0 {
                    movers = movers | ((not_occupied >> 4) & white_kings);
                    movers = movers | (((not_occupied & MASK_L3) >> 3) & white_kings);
                    movers = movers | (((not_occupied & MASK_L5) >> 5) & white_kings);
                }

                movers
            },
            Color::Black => {
                let black_kings = self.blacks & self.kings;

                let mut movers = not_occupied >> 4;

                movers = movers | ((not_occupied & MASK_L3) >> 3);
                movers = movers | ((not_occupied & MASK_L5) >> 5);
                movers = movers & self.blacks;

                if black_kings != 0 {
                    movers = movers | ((not_occupied << 4) & black_kings);
                    movers = movers | (((not_occupied & MASK_R3) << 3) & black_kings);
                    movers = movers | (((not_occupied & MASK_R5) << 5) & black_kings);
                }

                movers
            },
        };
        proof {
            lemma_nth_basics();
            lemma_shift_term_bits(not_occupied);
            let kings_mask = self@.color_mask(*color) & self@.kings;
            if kings_mask == 0 {
                lemma_zero_iff(kings_mask);
            }
            assert forall|p: u8| p < 32 implies #[trigger] nth(movers, p as u32)
                == self@.mover_at(p, *color) by {
                lemma_mover_at_offsets(self@, p, *color);
                let pu = p as u32;
                if p >= 4 {
                    assert((((p - 4) as u8) as u32) == pu - 4);
                }
                if p >= 3 {
                    assert((((p - 3) as u8) as u32) == pu - 3);
                }
                if p >= 5 {
                    assert((((p - 5) as u8) as u32) == pu - 5);
                }
                assert((((p + 4) as u8) as u32) == pu + 4 || p > 27);
                assert((((p + 3) as u8) as u32) == pu + 3 || p > 28);
                assert((((p + 5) as u8) as u32) == pu + 5 || p > 26);
                assert(nth(kings_mask, pu) == (self@.has_color(p, *color) && self@.king_at(p)));
            }
        }
        movers
    }

    /// The mask of the pieces of side `color` that have at least one
    /// capture: for each direction, the empty squares are shifted two
    /// diagonal steps against it and intersected with the opponent pieces in
    /// between, the masks keeping every shift on the board.
    pub fn get_jumpers(&self, color: &Color) -> (r: u32)
        ensures
            forall|p: u8| p < 32 ==> #[trigger] nth(r, p as u32) == self@.jumper_at(p, *color),
    {
        let not_occupied = !(self.whites | self.blacks);

        let jumpers = match color {
            Color::White => {
                let white_kings = self.whites & self.kings;

                let temp_a = (not_occupied << 4) & self.blacks;
                let temp_b = (((not_occupied & MASK_R3) << 3) | ((not_occupied & MASK_R5) << 5))
                    & self.blacks;

                let mut jumpers = ((((temp_a & MASK_R3) << 3) | ((temp_a & MASK_R5) << 5)) | (
                temp_b << 4)) & self.whites;

                if white_kings != 0 {
                    let temp_c = (not_occupied >> 4) & self.blacks;
                    let temp_d = (((not_occupied & MASK_L3) >> 3) | ((not_occupied & MASK_L5)
                        >> 5)) & self.blacks;
                    jumpers = jumpers | (((((temp_c & MASK_L3) >> 3) | ((temp_c & MASK_L5) >> 5))
                        | (temp_d >> 4)) & white_kings);
                }

                jumpers
            },
            Color::Black => {
                let black_kings = self.blacks & self.kings;

                let temp_a = (not_occupied >> 4) & self.whites;
                let temp_b = (((not_occupied & MASK_L3) >> 3) | ((not_occupied & MASK_L5) >> 5))
                    & self.whites;

                let mut jumpers = ((((temp_a & MASK_L3) >> 3) | ((temp_a & MASK_L5) >> 5)) | (
                temp_b >> 4)) & self.blacks;

                if black_kings != 0 {
                    let temp_c = (not_occupied << 4) & self.whites;
                    let temp_d = (((not_occupied & MASK_R3) << 3) | ((not_occupied & MASK_R5)
                        << 5)) & self.whites;
                    jumpers = jumpers | (((((temp_c & MASK_R3) << 3) | ((temp_c & MASK_R5) << 5))
                        | (temp_d << 4)) & black_kings);
                }

                jumpers
            },
        };
        proof {
            let opp_mask = self@.color_mask(spec_other(*color));
            lemma_nth_basics();
            lemma_jump_term_bits(not_occupied, opp_mask);
            let kings_mask = self@.color_mask(*color) & self@.kings;
            if kings_mask == 0 {
                lemma_zero_iff(kings_mask);
            }
            assert forall|p: u8| p < 32 implies #[trigger] nth(jumpers, p as u32)
                == self@.jumper_at(p, *color) by {
                lemma_jumper_at_offsets(self@, p, *color);
                let pu = p as u32;
                if p >= 9 {
                    assert((((p - 9) as u8) as u32) == pu - 9);
                }
                if p >= 7 {
                    assert((((p - 7) as u8) as u32) == pu - 7);
                }
                if p >= 5 {
                    assert((((p - 5) as u8) as u32) == pu - 5);
                }
                if p >= 4 {
                    assert((((p - 4) as u8) as u32) == pu - 4);
                }
                if p >= 3 {
                    assert((((p - 3) as u8) as u32) == pu - 3);
                }
                assert((((p + 3) as u8) as u32) == pu + 3 || p > 28);
                assert((((p + 4) as u8) as u32) == pu + 4 || p > 27);
                assert((((p + 5) as u8) as u32) == pu + 5 || p > 26);
                assert((((p + 7) as u8) as u32) == pu + 7 || p > 24);
                assert((((p + 9) as u8) as u32) == pu + 9 || p > 22);
                assert(nth(kings_mask, pu) == (self@.has_color(p, *color) && self@.king_at(p)));
            }
        }
        jumpers
    }

    /// The state of the game on this board: the side to move loses when it
    /// has neither a move nor a capture; otherwise the game goes on.
    pub fn get_game_state(&self) -> (r: GameState)
        ensures
            r == spec_game_state(self@),
    {
        let turn = self.turn;
        let movers = self.get_movers(&turn);
        let jumpers = self.get_jumpers(&turn);
        proof {
            lemma_nth_basics();
            if movers == 0 && jumpers == 0 {
                assert forall|p: u8| p < 32 implies !(#[trigger] self@.mover_at(p, turn)) by {
                    assert(!nth(movers, p as u32));
                }
                assert forall|p: u8| p < 32 implies !(#[trigger] self@.jumper_at(p, turn)) by {
                    assert(!nth(jumpers, p as u32));
                }
            } else if movers != 0 {
                lemma_mask_has_bit(movers);
                let q = choose|q: u8| q < 32 && #[trigger] nth(movers, q as u32);
                assert(self@.mover_at(q, turn));
                assert(self@.has_any_mover(turn));
            } else {
                lemma_mask_has_bit(jumpers);
                let q = choose|q: u8| q < 32 && #[trigger] nth(jumpers, q as u32);
                assert(self@.jumper_at(q, turn));
                assert(self@.has_any_jumper(turn));
            }
        }
        if movers == 0 && jumpers == 0 {
            match turn {
                Color::Black => GameState::Completed(Winner::Player(Color::White)),
                Color::White => GameState::Completed(Winner::Player(Color::Black)),
            }
        } else {
            GameState::InProgress
        }
    }
}

/// Testing a mask against a single set bit reads that bit.
proof fn lemma_nth_single()
    by (bit_vector)
    ensures
        forall|m: u32, p: u32| p < 32 ==> ((m & (1u32 << p)) != 0) == #[trigger] nth(m, p),
{
}

/// A mask is zero exactly when none of its 32 bits is set.
proof fn lemma_zero_iff(m: u32)
    ensures
        (m == 0) <==> (forall|q: u32| q < 32 ==> !(#[trigger] nth(m, q))),
{
    lemma_nth_basics();
    if m != 0 {
        vstd::std_specs::bits::axiom_u32_trailing_zeros(m);
        let tz = vstd::std_specs::bits::u32_trailing_zeros(m);
        assert((m >> tz) & 1 == 1);
        assert(nth(m, tz));
    }
}

/// A board whose bits pairwise respect the legality conditions is legal.
proof fn lemma_wf_from_bits(b: BoardModel)
    requires
        forall|q: u32| q < 32 ==> !(#[trigger] nth(b.blacks, q) && nth(b.whites, q)),
        forall|q: u32| q < 32 ==> (#[trigger] nth(b.kings, q) ==> nth(b.blacks | b.whites, q)),
    ensures
        b.wf(),
{
    lemma_nth_basics();
    assert forall|q: u32| q < 32 implies !(#[trigger] nth(b.blacks & b.whites, q)) by {
        assert(!(nth(b.blacks, q) && nth(b.whites, q)));
    }
    assert forall|q: u32| q < 32 implies !(#[trigger] nth(b.kings & !(b.blacks | b.whites), q)) by {
        assert(nth(b.kings, q) ==> nth(b.blacks | b.whites, q));
    }
    lemma_zero_iff(b.blacks & b.whites);
    lemma_zero_iff(b.kings & !(b.blacks | b.whites));
}

/// The bits of a legal board pairwise respect the legality conditions.
proof fn lemma_bits_from_wf(b: BoardModel)
    requires
        b.wf(),
    ensures
        forall|q: u32| q < 32 ==> !(#[trigger] nth(b.blacks, q) && nth(b.whites, q)),
        forall|q: u32| q < 32 ==> (#[trigger] nth(b.kings, q) ==> nth(b.blacks | b.whites, q)),
{
    lemma_nth_basics();
    lemma_zero_iff(b.blacks & b.whites);
    lemma_zero_iff(b.kings & !(b.blacks | b.whites));
    assert forall|q: u32| q < 32 implies !(#[trigger] nth(b.blacks, q) && nth(b.whites, q)) by {
        assert(!nth(b.blacks & b.whites, q));
    }
    assert forall|q: u32| q < 32 implies (#[trigger] nth(b.kings, q) ==> nth(
        b.blacks | b.whites,
        q,
    )) by {
        assert(!nth(b.kings & !(b.blacks | b.whites), q));
    }
}

/// Emptying a square keeps a board legal.
proof fn lemma_remove_wf(b: BoardModel, p: u8)
    requires
        b.wf(),
        p < 32,
    ensures
        b.spec_remove_piece(p).wf(),
{
    lemma_nth_basics();
    lemma_nth_update();
    lemma_bits_from_wf(b);
    lemma_wf_from_bits(b.spec_remove_piece(p));
}

/// Putting a piece on an empty square keeps a board legal.
proof fn lemma_add_wf(b: BoardModel, p: u8, c: Color, is_king: bool)
    requires
        b.wf(),
        p < 32,
        b.empty_at(p),
    ensures
        b.spec_add_piece(p, c, is_king).wf(),
{
    lemma_nth_basics();
    lemma_nth_update();
    lemma_bits_from_wf(b);
    lemma_wf_from_bits(b.spec_add_piece(p, c, is_king));
}

/// The directions that lead a plain man of side `c` backwards.
pub open spec fn backward_dir(c: Color, d: Direction) -> bool {
    match c {
        Color::Black => d == Direction::UpLeft || d == Direction::UpRight,
        Color::White => d == Direction::DownLeft || d == Direction::DownRight,
    }
}

/// The walk of a capture chain: each direction in turn must not lead a plain
/// man backwards, must step over an opponent piece of the original board
/// `orig`, and removes that piece from the accumulated board `bp`.
pub open spec fn spec_jump_walk(
    orig: BoardModel,
    bp: BoardModel,
    cur: u8,
    dirs: Seq<Direction>,
    moving: Color,
    starts_king: bool,
) -> Result<BoardModel, ActionError>
    decreases dirs.len(),
{
    if dirs.len() == 0 {
        Ok(bp)
    } else {
        let d = dirs[0];
        if backward_dir(moving, d) && !starts_king {
            Err(ActionError::SinglePieceBackwardsError)
        } else {
            let over = spec_step(d, cur)->Some_0;
            if !orig.has_color(over, spec_other(moving)) {
                Err(
                    ActionError::SkippedPositionError {
                        skipped: over,
                        color: spec_other(moving),
                    },
                )
            } else {
                spec_jump_walk(
                    orig,
                    bp.spec_remove_piece(over),
                    spec_jump(d, cur)->Some_0,
                    dirs.skip(1),
                    moving,
                    starts_king,
                )
            }
        }
    }
}

/// What follows a finished capture walk: the chain must not stop while the
/// landed piece can still capture, unless this chain just promoted it; then
/// the turn passes to the opponent.
pub open spec fn spec_finish_jump(
    wres: Result<BoardModel, ActionError>,
    destination: u8,
    me: Color,
    starts_king: bool,
    ends_king: bool,
) -> Result<BoardModel, ActionError> {
    match wres {
        Err(e) => Err(e),
        Ok(b2) => {
            if b2.jumper_at(destination, me) && !(!starts_king && ends_king) {
                Err(ActionError::NeedMoreJumpingError)
            } else {
                Ok(BoardModel { turn: spec_other(me), ..b2 })
            }
        },
    }
}

/// What applying action `a` on board `b` yields: the new board, or the first
/// reason the action is illegal. The source must hold a piece of the side to
/// move and the destination must be empty; a plain move is rejected while a
/// capture is available anywhere, and must not lead a plain man backwards; a
/// capture chain walks its jumps (see `spec_jump_walk`) and must continue as
/// long as the landed piece can capture, unless the final step promoted it.
pub open spec fn spec_take_action(b: BoardModel, a: ActionModel) -> Result<
    BoardModel,
    ActionError,
> {
    let source = a.source;
    let destination = a.destination;
    let starts_king = b.king_at(source);
    let ends_king = starts_king || destination / 4 == 0 || destination / 4 == 7;
    let me = b.turn;
    let opp = spec_other(me);
    let b1 = b.spec_remove_piece(source).spec_add_piece(destination, me, ends_king);
    if !b.has_color(source, me) {
        Err(ActionError::SourceColorError { position: source, color: me })
    } else if !b.empty_at(destination) {
        Err(ActionError::DestinationEmptyError { destination })
    } else if a.dirs.len() == 0 {
        if b.has_any_jumper(me) {
            Err(ActionError::HaveToJumpError)
        } else {
            let d = spec_between(source, destination)->Some_0;
            if backward_dir(me, d) && !b.king_at(source) {
                Err(ActionError::SinglePieceBackwardsError)
            } else {
                Ok(BoardModel { turn: opp, ..b1 })
            }
        }
    } else {
        spec_finish_jump(
            spec_jump_walk(b, b1, source, a.dirs, me, starts_king),
            destination,
            me,
            starts_king,
            ends_king,
        )
    }
}

/// Applying a legal action to a legal board yields a legal board: the walk
/// only empties squares, and the moved piece lands on a square that was
/// empty.
pub proof fn lemma_walk_wf(
    orig: BoardModel,
    bp: BoardModel,
    cur: u8,
    dirs: Seq<Direction>,
    moving: Color,
    starts_king: bool,
)
    requires
        bp.wf(),
        cur < 32,
        crate::action::chain_wf(cur, dirs),
    ensures
        spec_jump_walk(orig, bp, cur, dirs, moving, starts_king) matches Ok(b2) ==> b2.wf(),
    decreases dirs.len(),
{
    if dirs.len() > 0 {
        let d = dirs[0];
        if !(backward_dir(moving, d) && !starts_king) {
            let over = spec_step(d, cur)->Some_0;
            if orig.has_color(over, spec_other(moving)) {
                lemma_remove_wf(bp, over);
                lemma_walk_wf(
                    orig,
                    bp.spec_remove_piece(over),
                    spec_jump(d, cur)->Some_0,
                    dirs.skip(1),
                    moving,
                    starts_king,
                );
            }
        }
    }
}

/// Every legal board reached by applying a well-formed action to a legal
/// board is itself legal: the two occupancy masks stay disjoint and kings
/// stay on occupied squares.
pub proof fn lemma_take_action_preserves_wf(b: BoardModel, a: ActionModel)
    requires
        b.wf(),
        a.wf(),
    ensures
        spec_take_action(b, a) matches Ok(m) ==> m.wf(),
{
    let source = a.source;
    let destination = a.destination;
    let starts_king = b.king_at(source);
    let ends_king = starts_king || destination / 4 == 0 || destination / 4 == 7;
    let me = b.turn;
    if b.has_color(source, me) && b.empty_at(destination) {
        let br = b.spec_remove_piece(source);
        lemma_remove_wf(b, source);
        lemma_nth_basics();
        lemma_nth_update();
        assert(br.empty_at(destination));
        lemma_add_wf(br, destination, me, ends_king);
        let b1 = br.spec_add_piece(destination, me, ends_king);
        if a.dirs.len() == 0 {
        } else {
            lemma_walk_wf(b, b1, source, a.dirs, me, starts_king);
        }
    }
}

impl Bitboard {
    /// Whether side `color` has any piece that can capture.
    fn has_jumpers(&self, color: &Color) -> (r: bool)
        ensures
            r == self@.has_any_jumper(*color),
    {
        let jumpers = self.get_jumpers(color);
        proof {
            if jumpers == 0 {
                lemma_zero_iff(jumpers);
                assert forall|p: u8| p < 32 implies !(#[trigger] self@.jumper_at(p, *color)) by {
                    assert(!nth(jumpers, p as u32));
                }
            } else {
                lemma_mask_has_bit(jumpers);
                let q = choose|q: u8| q < 32 && #[trigger] nth(jumpers, q as u32);
                assert(self@.jumper_at(q, *color));
                assert(self@.has_any_jumper(*color));
            }
        }
        jumpers != 0
    }

    /// Applies `action` to the board: the new board with the turn passed to
    /// the opponent, or the first reason the action is illegal, exactly as
    /// `spec_take_action` lays it out.
    #[verifier::loop_isolation(false)]
    pub fn take_action(&self, action: &Action) -> (r: Result<Bitboard, ActionError>)
        requires
            action@.wf(),
        ensures
            spec_take_action(self@, action@) matches Ok(m) ==> r matches Ok(b) && b@ == m,
            spec_take_action(self@, action@) matches Err(e) ==> r == Err::<Bitboard, ActionError>(
                e,
            ),
    {
        let mut board_p = *self;

        let source = action.source();
        let destination = action.destination();

        let starts_as_king = self.is_king(source);
        let ends_as_king = starts_as_king || destination / 4 == 0 || destination / 4 == 7;

        let opponent_color = self.turn.other();

        board_p.remove_piece(source);
        board_p.add_piece(destination, &self.turn, ends_as_king);

        if !self.coloring_eq(source, &self.turn) {
            return Err(ActionError::SourceColorError { position: source, color: self.turn });
        }

        if !self.is_empty(destination) {
            return Err(ActionError::DestinationEmptyError { destination });
        }

        match action.action_type() {
            ActionType::Move => {
                if self.has_jumpers(&self.turn) {
                    return Err(ActionError::HaveToJumpError);
                }
                let move_direction = action.move_direction().unwrap();

                if (move_direction == Direction::UpLeft || move_direction == Direction::UpRight)
                    && self.turn == Color::Black && !self.is_king(source) {
                    return Err(ActionError::SinglePieceBackwardsError);
                }

                if (move_direction == Direction::DownLeft || move_direction
                    == Direction::DownRight) && self.turn == Color::White && !self.is_king(
                    source,
                ) {
                    return Err(ActionError::SinglePieceBackwardsError);
                }
            },
            ActionType::Jump => {
                let ghost dirs = action@.dirs;
                let ghost me = self@.turn;
                let ghost sk = starts_as_king;
                let ghost ek = ends_as_king;
                let jl = action.jump_len();
                let mut curr = source;
                let mut i: u8 = 0;
                proof {
                    assert(dirs.skip(0) =~= dirs);
                }
                while i < jl
                    invariant
                        action@.wf(),
                        i <= jl,
                        jl == dirs.len(),
                        dirs == action@.dirs,
                        dirs.len() > 0,
                        me == self@.turn,
                        sk == self@.king_at(action@.source),
                        ek == ends_as_king,
                        destination == action@.destination,
                        curr < 32,
                        crate::action::chain_wf(curr, dirs.skip(i as int)),
                        board_p@.turn == self@.turn,
                        spec_take_action(self@, action@) == spec_finish_jump(
                            spec_jump_walk(self@, board_p@, curr, dirs.skip(i as int), me, sk),
                            destination,
                            me,
                            sk,
                            ek,
                        ),
                    decreases jl - i,
                {
                    let jump_direction = action.jump_direction(i).unwrap();
                    proof {
                        assert(dirs.skip(i as int)[0] == dirs[i as int]);
                        assert(dirs.skip(i as int).skip(1) =~= dirs.skip(i as int + 1));
                    }

                    if (jump_direction == Direction::UpLeft || jump_direction
                        == Direction::UpRight) && self.turn == Color::Black && !starts_as_king {
                        return Err(ActionError::SinglePieceBackwardsError);
                    }

                    if (jump_direction == Direction::DownLeft || jump_direction
                        == Direction::DownRight) && self.turn == Color::White && !starts_as_king {
                        return Err(ActionError::SinglePieceBackwardsError);
                    }

                    let skipped_over = jump_direction.relative_to(curr).unwrap();

                    if !self.coloring_eq(skipped_over, &opponent_color) {
                        return Err(
                            ActionError::SkippedPositionError {
                                skipped: skipped_over,
                                color: opponent_color,
                            },
                        );
                    }

                    board_p.remove_piece(skipped_over);

                    curr = jump_direction.relative_jump_from(curr).unwrap();
                    i = i + 1;
                }
                proof {
                    assert(dirs.skip(jl as int) =~= Seq::<Direction>::empty());
                    assert(spec_jump_walk(self@, board_p@, curr, dirs.skip(jl as int), me, sk)
                        == Ok::<BoardModel, ActionError>(board_p@));
                }

                let jumpers_p = board_p.get_jumpers(&self.turn);
                proof {
                    lemma_nth_single();
                    assert(nth(jumpers_p, destination as u32) == board_p@.jumper_at(
                        destination,
                        me,
                    ));
                    assert((jumpers_p & (1u32 << (destination as u32)) != 0) == nth(
                        jumpers_p,
                        destination as u32,
                    ));
                }
                if (jumpers_p & (1u32 << (destination as u32)) != 0) && !(!starts_as_king
                    && ends_as_king) {
                    return Err(ActionError::NeedMoreJumpingError);
                }
            },
        }

        board_p.turn = opponent_color;

        Ok(board_p)
    }

    /// Whether `action` is legal on this board: succeeds exactly when
    /// `take_action` would, and fails with the same reason.
    pub fn validate_action(&self, action: &Action) -> (r: Result<(), ActionError>)
        requires
            action@.wf(),
        ensures
            spec_take_action(self@, action@) matches Ok(m) ==> r matches Ok(u) && u == (),
            spec_take_action(self@, action@) matches Err(e) ==> r == Err::<(), ActionError>(e),
    {
        match self.take_action(action) {
            Ok(_) => Ok(()),
            Err(e) => Err(e),
        }
    }

    /// Whether `action` is well formed, so that `take_action` may be called
    /// on it.
    #[verifier::loop_isolation(false)]
    pub fn action_is_well_formed(action: &Action) -> (r: bool)
        ensures
            r == action@.wf(),
    {
        let source = action.source();
        let destination = action.destination();
        let jl = action.jump_len();
        if jl == 0 {
            let r = match Direction::between(source, destination) {
                Some(d) => {
                    let stepped = d.relative_to(source);
                    stepped == Some(destination)
                },
                None => false,
            };
            proof {
                if r {
                    let d = spec_between(source, destination)->Some_0;
                    assert(spec_step(d, source) == Some(destination));
                } else {
                    if exists|d: Direction|
                        #[trigger] spec_step(d, source) == Some(destination) {
                        let d = choose|d: Direction|
                            #[trigger] spec_step(d, source) == Some(destination);
                        lemma_step_between(d, source, destination);
                    }
                }
            }
            r
        } else {
            let mut cur = source;
            let mut i: u8 = 0;
            let mut ok = true;
            proof {
                assert(action@.dirs.skip(0) =~= action@.dirs);
            }
            while i < jl
                invariant
                    i <= jl,
                    jl == action@.dirs.len(),
                    jl <= 8,
                    cur < 32,
                    ok ==> (crate::action::chain_wf(action@.source, action@.dirs)
                        <==> crate::action::chain_wf(cur, action@.dirs.skip(i as int))),
                    ok ==> (crate::action::chain_end(action@.source, action@.dirs) ==
                        crate::action::chain_end(cur, action@.dirs.skip(i as int))),
                    !ok ==> !crate::action::chain_wf(action@.source, action@.dirs),
                    source == action@.source,
                decreases jl - i,
            {
                proof {
                    assert(action@.dirs.skip(i as int)[0] == action@.dirs[i as int]);
                    assert(action@.dirs.skip(i as int).skip(1) =~= action@.dirs.skip(i as int + 1));
                }
                let d = action.jump_direction(i).unwrap();
                if ok {
                    match (d.relative_to(cur), d.relative_jump_from(cur)) {
                        (Some(_), Some(next)) => {
                            cur = next;
                        },
                        _ => {
                            ok = false;
                        },
                    }
                }
                i = i + 1;
            }
            proof {
                assert(action@.dirs.skip(jl as int) =~= Seq::<Direction>::empty());
            }
            if !ok {
                return false;
            }
            let r = cur == destination;
            proof {
                assert(crate::action::chain_end(cur, action@.dirs.skip(jl as int)) == Some(cur));
            }
            r
        }
    }
}

/// A single step in direction `d` is recognised by `spec_between`: step
/// offsets are never jump offsets, and each offset names its direction.
proof fn lemma_step_between(d: Direction, source: u8, destination: u8)
    requires
        spec_step(d, source) == Some(destination),
    ensures
        spec_between(source, destination) == Some(d),
{
}

/// The Zobrist contribution of square `p` on board `b`: the key of the piece
/// standing there, or zero for an empty square.
pub open spec fn spec_square_key(b: BoardModel, p: u8) -> u64 {
    (if b.has_color(p, Color::Black) {
        crate::zobrist::spec_position_hash(p, Color::Black, b.king_at(p))
    } else {
        0
    }) ^ (if b.has_color(p, Color::White) {
        crate::zobrist::spec_position_hash(p, Color::White, b.king_at(p))
    } else {
        0
    })
}

/// The XOR of the Zobrist contributions of squares `0..n`.
pub open spec fn spec_key_upto(b: BoardModel, n: nat) -> u64
    decreases n,
{
    if n == 0 {
        0
    } else {
        spec_key_upto(b, (n - 1) as nat) ^ spec_square_key(b, (n - 1) as u8)
    }
}

/// The Zobrist key of a board: the XOR over all occupied squares of the
/// per-piece keys, XORed with the turn key when White is to move.
pub open spec fn spec_board_key(b: BoardModel) -> u64 {
    spec_key_upto(b, 32) ^ (if b.turn == Color::White {
        crate::zobrist::spec_turn_hash()
    } else {
        0
    })
}

impl Bitboard {
    /// The Zobrist contribution of square `p`.
    fn square_hash(&self, p: u8) -> (r: u64)
        requires
            p < 32,
        ensures
            r == spec_square_key(self@, p),
    {
        let hb = if self.coloring_eq(p, &Color::Black) {
            crate::zobrist::get_position_hash(p, Color::Black, self.is_king(p))
        } else {
            0
        };
        let hw = if self.coloring_eq(p, &Color::White) {
            crate::zobrist::get_position_hash(p, Color::White, self.is_king(p))
        } else {
            0
        };
        hb ^ hw
    }

    /// The Zobrist key of the board, computed from scratch.
    pub fn zobrist_hash(&self) -> (r: u64)
        ensures
            r == spec_board_key(self@),
    {
        proof {
            lemma_xor_shuffle();
        }
        let mut zobrist_hash: u64 = 0;
        let mut p: u8 = 0;
        while p < 32
            invariant
                p <= 32,
                zobrist_hash == spec_key_upto(self@, p as nat),
            decreases 32 - p,
        {
            zobrist_hash = zobrist_hash ^ self.square_hash(p);
            p = p + 1;
        }
        proof {
            lemma_xor_shuffle();
        }

        if self.turn == Color::White {
            zobrist_hash = zobrist_hash ^ crate::zobrist::get_turn_hash();
        }

        zobrist_hash
    }

    /// The XOR between the Zobrist keys of two boards, accumulated square by
    /// square so that unchanged squares contribute nothing.
    pub fn zobrist_delta(before: &Bitboard, after: &Bitboard) -> (r: u64)
        ensures
            r == spec_board_key(before@) ^ spec_board_key(after@),
    {
        proof {
            lemma_xor_shuffle();
        }
        let mut delta: u64 = 0;
        let mut p: u8 = 0;
        while p < 32
            invariant
                p <= 32,
                delta == spec_key_upto(before@, p as nat) ^ spec_key_upto(after@, p as nat),
            decreases 32 - p,
        {
            proof {
                lemma_xor_shuffle();
            }
            delta = delta ^ (before.square_hash(p) ^ after.square_hash(p));
            p = p + 1;
        }

        let tb = match before.turn {
            Color::White => crate::zobrist::get_turn_hash(),
            Color::Black => 0,
        };
        let ta = match after.turn {
            Color::White => crate::zobrist::get_turn_hash(),
            Color::Black => 0,
        };
        proof {
            lemma_xor_shuffle();
        }
        delta ^ (tb ^ ta)
    }
}

/// XOR lets pairs regroup: the identity the square-by-square delta uses.
proof fn lemma_xor_shuffle()
    by (bit_vector)
    ensures
        forall|x: u64, y: u64, z: u64, w: u64| #[trigger] ((x ^ y) ^ (z ^ w)) == (x ^ z) ^ (y ^ w),
        forall|x: u64, y: u64| #[trigger] (x ^ (x ^ y)) == y,
        forall|x: u64| #[trigger] (x ^ 0) == x,
{
}

/// What move generation promises of each pair it hands out: the action is
/// well formed, applying it on `b` succeeds and yields exactly the pair's
/// board, and the pair's Zobrist delta turns the key of `b` into the key of
/// that board.
pub open spec fn pair_ok(b: BoardModel, pair: crate::searchable::ActionStatePair) -> bool {
    &&& pair.spec_action()@.wf()
    &&& spec_take_action(b, pair.spec_action()@) == Ok::<BoardModel, ActionError>(
        pair.spec_state()@,
    )
    &&& spec_board_key(pair.spec_state()@) == spec_board_key(b) ^ pair.spec_zobrist_diff()
}

/// Whether the scan's push for direction `d` fires: a move lands one empty
/// step away, a jump two steps away over an opponent piece onto an empty
/// square.
pub open spec fn spec_push_cond(b: BoardModel, position: u8, d: Direction, jump: bool) -> bool {
    if jump {
        dir_jump_over_ok(b, position, d, spec_other(b.turn))
    } else {
        spec_step(d, position) matches Some(q) && b.empty_at(q)
    }
}

/// The square the scan's push for direction `d` would append.
pub open spec fn spec_push_target(position: u8, d: Direction, jump: bool) -> u8 {
    if jump {
        spec_jump(d, position)->Some_0
    } else {
        spec_step(d, position)->Some_0
    }
}

/// Whether the generator's direction scan, started on `position` for the
/// side to move, may land on `q` going in direction `d`: the direction is
/// forward for that side or this board holds a king on `position`, and the
/// push for it fires onto `q`.
pub open spec fn scan_candidate_dir(
    b: BoardModel,
    position: u8,
    d: Direction,
    q: u8,
    jump: bool,
) -> bool {
    &&& man_dir_ok(b.turn, d) || b.king_at(position)
    &&& spec_push_cond(b, position, d, jump)
    &&& q == spec_push_target(position, d, jump)
}

/// Whether some direction of the scan lands on `q`.
pub open spec fn scan_candidate(b: BoardModel, position: u8, q: u8, jump: bool) -> bool {
    exists|d: Direction| #[trigger] scan_candidate_dir(b, position, d, q, jump)
}

/// `s` extended by the scan's push for direction `d`, if it fires.
pub open spec fn spec_cond_push(
    s: Seq<u8>,
    b: BoardModel,
    position: u8,
    d: Direction,
    jump: bool,
) -> Seq<u8> {
    if spec_push_cond(b, position, d, jump) {
        s.push(spec_push_target(position, d, jump))
    } else {
        s
    }
}

/// The squares the scan collects: the forward pushes, then, for a king, the
/// backward ones.
pub open spec fn spec_scan_result(
    b: BoardModel,
    position: u8,
    jump: bool,
    f1: Direction,
    f2: Direction,
    king: bool,
    b1: Direction,
    b2: Direction,
) -> Seq<u8> {
    let o2 = spec_cond_push(
        spec_cond_push(Seq::empty(), b, position, f1, jump),
        b,
        position,
        f2,
        jump,
    );
    if king {
        spec_cond_push(spec_cond_push(o2, b, position, b1, jump), b, position, b2, jump)
    } else {
        o2
    }
}

/// Appending to a sequence adds exactly one member, and keeps it free of
/// duplicates when the member is new.
#[verifier::spinoff_prover]
#[verifier::rlimit(10)]
proof fn lemma_push_contains(s: Seq<u8>, x: u8)
    ensures
        forall|q: u8| #[trigger] s.push(x).contains(q) <==> (s.contains(q) || q == x),
        s.no_duplicates() && !s.contains(x) ==> s.push(x).no_duplicates(),
{
    assert forall|q: u8| #[trigger] s.push(x).contains(q) <==> (s.contains(q) || q == x) by {
        if s.push(x).contains(q) {
            let i = choose|i: int| 0 <= i < s.push(x).len() && s.push(x)[i] == q;
            if i < s.len() {
                assert(s[i] == q);
            }
        }
        if s.contains(q) {
            let i = choose|i: int| 0 <= i < s.len() && s[i] == q;
            assert(s.push(x)[i] == q);
        }
        assert(s.push(x)[s.len() as int] == x);
    }
}

/// Distinct directions land on distinct squares, stepping as well as
/// jumping: the four step offsets of a row differ, and so do the four jump
/// offsets.
#[verifier::spinoff_prover]
#[verifier::rlimit(10)]
proof fn lemma_targets_distinct(p: u8)
    requires
        p < 32,
    ensures
        forall|d1: Direction, d2: Direction|
            d1 != d2 && #[trigger] spec_step(d1, p) is Some && #[trigger] spec_step(d2, p) is Some
                ==> spec_step(d1, p) != spec_step(d2, p),
        forall|d1: Direction, d2: Direction|
            d1 != d2 && #[trigger] spec_jump(d1, p) is Some && #[trigger] spec_jump(d2, p) is Some
                ==> spec_jump(d1, p) != spec_jump(d2, p),
{
    assert forall|d1: Direction, d2: Direction|
        d1 != d2 && #[trigger] spec_step(d1, p) is Some && #[trigger] spec_step(d2, p)
            is Some implies spec_step(d1, p) != spec_step(d2, p) by {
        match d1 {
            Direction::UpLeft => {},
            Direction::UpRight => {},
            Direction::DownLeft => {},
            Direction::DownRight => {},
        }
        match d2 {
            Direction::UpLeft => {},
            Direction::UpRight => {},
            Direction::DownLeft => {},
            Direction::DownRight => {},
        }
    }
    assert forall|d1: Direction, d2: Direction|
        d1 != d2 && #[trigger] spec_jump(d1, p) is Some && #[trigger] spec_jump(d2, p)
            is Some implies spec_jump(d1, p) != spec_jump(d2, p) by {
        match d1 {
            Direction::UpLeft => {},
            Direction::UpRight => {},
            Direction::DownLeft => {},
            Direction::DownRight => {},
        }
        match d2 {
            Direction::UpLeft => {},
            Direction::UpRight => {},
            Direction::DownLeft => {},
            Direction::DownRight => {},
        }
    }
}

/// What the scan collects, characterised: exactly the squares some tried
/// direction lands on, each once, all on the board.
#[verifier::spinoff_prover]
#[verifier::rlimit(10)]
proof fn lemma_scan_result(
    b: BoardModel,
    position: u8,
    jump: bool,
    f1: Direction,
    f2: Direction,
    king: bool,
    b1: Direction,
    b2: Direction,
)
    requires
        position < 32,
        man_dir_ok(b.turn, f1),
        man_dir_ok(b.turn, f2),
        !man_dir_ok(b.turn, b1),
        !man_dir_ok(b.turn, b2),
        f1 != f2,
        b1 != b2,
        (f1 == Direction::UpLeft && f2 == Direction::UpRight && b1 == Direction::DownLeft && b2
            == Direction::DownRight) || (f1 == Direction::DownLeft && f2 == Direction::DownRight
            && b1 == Direction::UpLeft && b2 == Direction::UpRight),
        king == b.king_at(position),
    ensures
        ({
            let out = spec_scan_result(b, position, jump, f1, f2, king, b1, b2);
            &&& forall|q: u8| out.contains(q) <==> scan_candidate(b, position, q, jump)
            &&& out.no_duplicates()
            &&& forall|i: int| 0 <= i < out.len() ==> #[trigger] out[i] < 32
        }),
{
    lemma_targets_distinct(position);
    let out = spec_scan_result(b, position, jump, f1, f2, king, b1, b2);
    let o0 = Seq::<u8>::empty();
    let o1 = spec_cond_push(o0, b, position, f1, jump);
    let o2 = spec_cond_push(o1, b, position, f2, jump);
    let o3 = spec_cond_push(o2, b, position, b1, jump);
    let o4 = spec_cond_push(o3, b, position, b2, jump);
    lemma_push_contains(o0, spec_push_target(position, f1, jump));
    lemma_push_contains(o1, spec_push_target(position, f2, jump));
    lemma_push_contains(o2, spec_push_target(position, b1, jump));
    lemma_push_contains(o3, spec_push_target(position, b2, jump));
    assert(forall|q: u8| !o0.contains(q));
    assert forall|q: u8| out.contains(q) implies scan_candidate(b, position, q, jump) by {
        if q == spec_push_target(position, f1, jump) && spec_push_cond(b, position, f1, jump) {
            assert(scan_candidate_dir(b, position, f1, q, jump));
        } else if q == spec_push_target(position, f2, jump) && spec_push_cond(
            b,
            position,
            f2,
            jump,
        ) {
            assert(scan_candidate_dir(b, position, f2, q, jump));
        } else if king && q == spec_push_target(position, b1, jump) && spec_push_cond(
            b,
            position,
            b1,
            jump,
        ) {
            assert(scan_candidate_dir(b, position, b1, q, jump));
        } else {
            assert(king && q == spec_push_target(position, b2, jump) && spec_push_cond(
                b,
                position,
                b2,
                jump,
            ));
            assert(scan_candidate_dir(b, position, b2, q, jump));
        }
    }
    assert forall|q: u8| scan_candidate(b, position, q, jump) implies out.contains(q) by {
        let d = choose|d: Direction| #[trigger] scan_candidate_dir(b, position, d, q, jump);
        assert(d == f1 || d == f2 || d == b1 || d == b2) by {
            match d {
                Direction::UpLeft => {},
                Direction::UpRight => {},
                Direction::DownLeft => {},
                Direction::DownRight => {},
            }
        }
    }
    assert(out.no_duplicates());
    assert forall|i: int| 0 <= i < out.len() implies #[trigger] out[i] < 32 by {
        assert(out.contains(out[i]));
    }
}

/// The action model of the simple move from `src` to `dst`.
pub open spec fn move_model(src: u8, dst: u8) -> ActionModel {
    ActionModel { source: src, destination: dst, dirs: Seq::empty() }
}

/// A well-formed simple move that applies successfully on `b`. Opaque:
/// proofs reveal it where they need its parts.
#[verifier::opaque]
pub open spec fn legal_simple_move(b: BoardModel, a: ActionModel) -> bool {
    a.wf() && a.dirs.len() == 0 && spec_take_action(b, a) is Ok
}

/// Backwards is exactly not forwards: the four directions split evenly.
#[verifier::spinoff_prover]
#[verifier::rlimit(10)]
proof fn lemma_backward_complement()
    ensures
        forall|c: Color, d: Direction| #[trigger] backward_dir(c, d) == !man_dir_ok(c, d),
{
    assert forall|c: Color, d: Direction| #[trigger] backward_dir(c, d) == !man_dir_ok(c, d) by {
        match c {
            Color::Black => {},
            Color::White => {},
        }
        match d {
            Direction::UpLeft => {},
            Direction::UpRight => {},
            Direction::DownLeft => {},
            Direction::DownRight => {},
        }
    }
}

/// A single step moves three, four or five squares along the numbering.
#[verifier::spinoff_prover]
#[verifier::rlimit(10)]
proof fn lemma_step_absdiff(d: Direction, p: u8, q: u8)
    requires
        spec_step(d, p) == Some(q),
    ensures
        (q > p && 3 <= q - p <= 5) || (q < p && 3 <= p - q <= 5),
{
    match d {
        Direction::UpLeft => {},
        Direction::UpRight => {},
        Direction::DownLeft => {},
        Direction::DownRight => {},
    }
}

/// A legal simple move starts on a piece of the side to move that can move,
/// lands on a scan candidate of its source, and is exactly what its
/// two-square chain parses back to.
#[verifier::spinoff_prover]
#[verifier::rlimit(10)]
proof fn lemma_legal_move_candidate(b: BoardModel, a: ActionModel)
    requires
        legal_simple_move(b, a),
    ensures
        a.source < 32,
        a.dirs.len() == 0,
        b.has_color(a.source, b.turn),
        b.can_move_from(a.source, b.turn),
        scan_candidate(b, a.source, a.destination, false),
        spec_from_vector(seq![(a.source + 1) as u8, (a.destination + 1) as u8]) matches Ok(m) && m
            == a,
        spec_take_action(b, a) is Ok,
{
    reveal(legal_simple_move);
    lemma_backward_complement();
    let d = choose|d: Direction| spec_step(d, a.source) == Some(a.destination);
    lemma_step_between(d, a.source, a.destination);
    assert(b.has_color(a.source, b.turn));
    assert(b.empty_at(a.destination));
    assert(!(backward_dir(b.turn, d) && !b.king_at(a.source)));
    assert(b.dir_move_ok(a.source, d, b.turn));
    assert(b.can_move_from(a.source, b.turn));
    assert(spec_push_cond(b, a.source, d, false));
    assert(spec_push_target(a.source, d, false) == a.destination);
    assert(scan_candidate_dir(b, a.source, d, a.destination, false));

    let ps = seq![(a.source + 1) as u8, (a.destination + 1) as u8];
    lemma_step_absdiff(d, a.source, a.destination);
    assert(forall|j: int| 0 <= j < ps.len() ==> 1 <= #[trigger] ps[j] <= 32);
    let source = (ps[0] - 1) as u8;
    let destination = (ps[ps.len() - 1] - 1) as u8;
    let abs_diff = if source > destination {
        source - destination
    } else {
        destination - source
    };
    assert(abs_diff == 3 || abs_diff == 4 || abs_diff == 5);
    assert(spec_from_vector(ps) matches Ok(m) && m =~= a);
    assert(spec_from_vector(ps) matches Ok(m) && m == a);
}

/// What the move emitter needs to know about a legal simple move, phrased
/// over its two-square position list.
#[verifier::spinoff_prover]
#[verifier::rlimit(30)]
proof fn lemma_move_emit_facts(b: BoardModel, src: u8, dst: u8, positions: Seq<u8>)
    requires
        src < 32,
        dst < 32,
        positions =~= seq![(src + 1) as u8, (dst + 1) as u8],
    ensures
        legal_simple_move(b, move_model(src, dst)) ==> (spec_from_vector(positions) matches Ok(mm)
            && mm == move_model(src, dst)),
        legal_simple_move(b, move_model(src, dst)) ==> spec_take_action(
            b,
            move_model(src, dst),
        ) is Ok,
        legal_simple_move(b, move_model(src, dst)) ==> move_model(src, dst).wf(),
{
    if legal_simple_move(b, move_model(src, dst)) {
        lemma_legal_move_candidate(b, move_model(src, dst));
        reveal(legal_simple_move);
    }
}

/// Whether no action is listed twice.
pub open spec fn actions_distinct(s: Seq<crate::searchable::ActionStatePair>) -> bool {
    forall|k1: int, k2: int|
        0 <= k1 < k2 < s.len() ==> (#[trigger] s[k1]).spec_action() != (#[trigger] s[k2]).spec_action()
}

impl Bitboard {
    /// Appends to `out` the landing square one step or jump from `position`
    /// in direction `d`, exactly when it stays on the board, is empty, and,
    /// for a jump, passes over an opponent piece.
    fn push_candidate(&self, out: &mut Vec<u8>, position: u8, d: Direction, jump: bool)
        requires
            position < 32,
        ensures
            final(out)@ == spec_cond_push(old(out)@, self@, position, d, jump),
    {
        let target = if jump {
            d.relative_jump_from(position)
        } else {
            d.relative_to(position)
        };
        let t = match target {
            Some(t) => t,
            None => {
                return ;
            },
        };
        if jump {
            let over = match d.relative_to(position) {
                Some(q) => q,
                None => {
                    return ;
                },
            };
            if !self.coloring_eq(over, &self.turn.other()) {
                return ;
            }
        }
        if self.is_empty(t) {
            out.push(t);
        }
    }

    /// The squares a piece of the side to move standing on `position` could
    /// move or jump to, judged against this board alone: exactly the squares
    /// some tried direction lands on — forward directions always, backward
    /// ones only when this board has a king on `position` — each listed
    /// once.
    fn next_position_possibilities(&self, position: u8, jump: bool) -> (r: Vec<u8>)
        requires
            position < 32,
        ensures
            forall|i: int| 0 <= i < r@.len() ==> #[trigger] r@[i] < 32,
            r@.no_duplicates(),
            forall|q: u8| r@.contains(q) <==> scan_candidate(self@, position, q, jump),
    {
        let mut out: Vec<u8> = Vec::new();
        match self.turn {
            Color::White => {
                proof {
                    lemma_scan_result(
                        self@,
                        position,
                        jump,
                        Direction::UpLeft,
                        Direction::UpRight,
                        self@.king_at(position),
                        Direction::DownLeft,
                        Direction::DownRight,
                    );
                }
                self.push_candidate(&mut out, position, Direction::UpLeft, jump);
                self.push_candidate(&mut out, position, Direction::UpRight, jump);
                if self.is_king(position) {
                    self.push_candidate(&mut out, position, Direction::DownLeft, jump);
                    self.push_candidate(&mut out, position, Direction::DownRight, jump);
                }
                proof {
                    assert(out@ == spec_scan_result(
                        self@,
                        position,
                        jump,
                        Direction::UpLeft,
                        Direction::UpRight,
                        self@.king_at(position),
                        Direction::DownLeft,
                        Direction::DownRight,
                    ));
                }
            },
            Color::Black => {
                proof {
                    lemma_scan_result(
                        self@,
                        position,
                        jump,
                        Direction::DownLeft,
                        Direction::DownRight,
                        self@.king_at(position),
                        Direction::UpLeft,
                        Direction::UpRight,
                    );
                }
                self.push_candidate(&mut out, position, Direction::DownLeft, jump);
                self.push_candidate(&mut out, position, Direction::DownRight, jump);
                if self.is_king(position) {
                    self.push_candidate(&mut out, position, Direction::UpLeft, jump);
                    self.push_candidate(&mut out, position, Direction::UpRight, jump);
                }
                proof {
                    assert(out@ == spec_scan_result(
                        self@,
                        position,
                        jump,
                        Direction::DownLeft,
                        Direction::DownRight,
                        self@.king_at(position),
                        Direction::UpLeft,
                        Direction::UpRight,
                    ));
                }
            },
        }
        out
    }

    /// Whether some pair in `actions` already carries `action`.
    fn contains_action(
        actions: &Vec<crate::searchable::ActionStatePair>,
        action: Action,
    ) -> (r: bool)
        ensures
            r == exists|k: int|
                0 <= k < actions@.len() && (#[trigger] actions@[k]).spec_action() == action,
    {
        let mut k: usize = 0;
        while k < actions.len()
            invariant
                k <= actions@.len(),
                forall|k2: int|
                    0 <= k2 < k ==> (#[trigger] actions@[k2]).spec_action() != action,
            decreases actions@.len() - k,
        {
            if actions[k].action() == action {
                return true;
            }
            k = k + 1;
        }
        false
    }

    /// Builds the action for a candidate chain of squares, applies it, and
    /// appends the resulting pair when it is legal and not already present.
    /// Candidates that fail any check are dropped silently: every pair
    /// handed out is proven legal, and no action is listed twice.
    #[verifier::loop_isolation(false)]
    #[verifier::spinoff_prover]
    #[verifier::rlimit(60)]
    fn emit_candidate(
        &self,
        actions: &mut Vec<crate::searchable::ActionStatePair>,
        chain: &Vec<u8>,
        require_jump: bool,
    )
        requires
            forall|j: int| 0 <= j < chain@.len() ==> #[trigger] chain@[j] < 32,
            forall|k: int|
                0 <= k < old(actions)@.len() ==> pair_ok(self@, #[trigger] old(actions)@[k]),
            actions_distinct(old(actions)@),
        ensures
            forall|k: int|
                0 <= k < final(actions)@.len() ==> pair_ok(self@, #[trigger] final(actions)@[k]),
            actions_distinct(final(actions)@),
            final(actions)@.len() >= old(actions)@.len(),
            forall|k: int|
                0 <= k < old(actions)@.len() ==> final(actions)@[k] == old(actions)@[k],
            require_jump ==> forall|k: int|
                old(actions)@.len() <= k < final(actions)@.len()
                    ==> #[trigger] final(actions)@[k].spec_action()@.dirs.len() > 0,
    {
        let mut positions: Vec<u8> = Vec::new();
        let mut j: usize = 0;
        while j < chain.len()
            invariant
                j <= chain@.len(),
                positions@.len() == j,
                forall|k: int| 0 <= k < j ==> #[trigger] positions@[k] == chain@[k] + 1,
            decreases chain@.len() - j,
        {
            positions.push(chain[j] + 1);
            j = j + 1;
        }
        let action = match Action::from_vector(positions) {
            Ok(a) => a,
            Err(_) => {
                return ;
            },
        };
        if !Bitboard::action_is_well_formed(&action) {
            return ;
        }
        if require_jump && action.jump_len() == 0 {
            return ;
        }
        let state = match self.take_action(&action) {
            Ok(b) => b,
            Err(_) => {
                return ;
            },
        };

        if Bitboard::contains_action(actions, action) {
            // this action was already emitted by an earlier chain
            return ;
        }

        let delta = Bitboard::zobrist_delta(self, &state);
        proof {
            lemma_xor_shuffle();
        }
        actions.push(crate::searchable::ActionStatePair::new(action, state, delta));
    }

    /// Emits the simple move from `src` to `dst`: builds its action, applies
    /// it, and appends the pair when the move is legal and not already
    /// present. Every legal simple move handed in ends up in the list.
    #[verifier::spinoff_prover]
    #[verifier::rlimit(30)]
    fn emit_move(
        &self,
        actions: &mut Vec<crate::searchable::ActionStatePair>,
        src: u8,
        dst: u8,
    )
        requires
            src < 32,
            dst < 32,
            forall|k: int|
                0 <= k < old(actions)@.len() ==> pair_ok(self@, #[trigger] old(actions)@[k]),
            actions_distinct(old(actions)@),
        ensures
            forall|k: int|
                0 <= k < final(actions)@.len() ==> pair_ok(self@, #[trigger] final(actions)@[k]),
            actions_distinct(final(actions)@),
            final(actions)@.len() >= old(actions)@.len(),
            forall|k: int|
                0 <= k < old(actions)@.len() ==> final(actions)@[k] == old(actions)@[k],
            legal_simple_move(self@, move_model(src, dst)) ==> exists|k: int|
                0 <= k < final(actions)@.len() && (#[trigger] final(actions)@[k].spec_action())@
                    == move_model(src, dst),
    {
        let ghost m = move_model(src, dst);
        let mut positions: Vec<u8> = Vec::new();
        positions.push(src + 1);
        positions.push(dst + 1);
        proof {
            assert(positions@ =~= seq![(src + 1) as u8, (dst + 1) as u8]);
            lemma_move_emit_facts(self@, src, dst, positions@);
        }
        let action = match Action::from_vector(positions) {
            Ok(a) => a,
            Err(_) => {
                return ;
            },
        };
        if !Bitboard::action_is_well_formed(&action) {
            return ;
        }
        let state = match self.take_action(&action) {
            Ok(b) => b,
            Err(_) => {
                return ;
            },
        };
        if Bitboard::contains_action(actions, action) {
            // this move was already emitted
            proof {
                if legal_simple_move(self@, m) {
                    let k = choose|k: int|
                        0 <= k < actions@.len() && (#[trigger] actions@[k]).spec_action()
                            == action;
                    assert((actions@[k].spec_action())@ == m);
                }
            }
            return ;
        }
        let delta = Bitboard::zobrist_delta(self, &state);
        proof {
            lemma_xor_shuffle();
        }
        actions.push(crate::searchable::ActionStatePair::new(action, state, delta));
        proof {
            if legal_simple_move(self@, m) {
                assert((actions@[actions@.len() - 1].spec_action())@ == m);
            }
        }
    }

    /// Extends a partial capture chain in every possible direction: a chain
    /// whose landed piece can no longer capture, or that just promoted, is
    /// emitted; the rest go on, for at most `fuel` further jumps — the eight
    /// an action can hold.
    #[verifier::loop_isolation(false)]
    #[verifier::spinoff_prover]
    #[verifier::rlimit(10)]
    fn gen_jump_chains(
        &self,
        actions: &mut Vec<crate::searchable::ActionStatePair>,
        board: Bitboard,
        chain: Vec<u8>,
        fuel: u8,
    )
        requires
            chain@.len() >= 1,
            forall|j: int| 0 <= j < chain@.len() ==> #[trigger] chain@[j] < 32,
            forall|k: int|
                0 <= k < old(actions)@.len() ==> pair_ok(self@, #[trigger] old(actions)@[k]),
            actions_distinct(old(actions)@),
            forall|k: int|
                0 <= k < old(actions)@.len() ==> #[trigger] old(actions)@[k].spec_action()@.dirs.len() > 0,
        ensures
            forall|k: int|
                0 <= k < final(actions)@.len() ==> pair_ok(self@, #[trigger] final(actions)@[k]),
            actions_distinct(final(actions)@),
            forall|k: int|
                0 <= k < final(actions)@.len() ==> #[trigger] final(actions)@[k].spec_action()@.dirs.len() > 0,
        decreases fuel,
    {
        let cur = chain[chain.len() - 1];
        let turn = self.turn;

        let candidates = self.next_position_possibilities(cur, true);

        let mut ci: usize = 0;
        while ci < candidates.len()
            invariant
                forall|k: int| 0 <= k < actions@.len() ==> pair_ok(self@, #[trigger] actions@[k]),
                actions_distinct(actions@),
                forall|k: int|
                    0 <= k < actions@.len() ==> #[trigger] actions@[k].spec_action()@.dirs.len()
                        > 0,
            decreases candidates@.len() - ci,
        {
            let candidate = candidates[ci];
            ci = ci + 1;

            let mut chain2 = chain.clone();
            chain2.push(candidate);

            let direction = match Direction::between(cur, candidate) {
                Some(d) => d,
                None => {
                    continue ;
                },
            };
            let skipped_over = match direction.relative_to(cur) {
                Some(q) => q,
                None => {
                    continue ;
                },
            };

            let starts_as_king = board.is_king(cur);
            let ends_as_king = starts_as_king || candidate / 4 == 0 || candidate / 4 == 7;

            let mut board_p = board;
            board_p.add_piece(candidate, &turn, ends_as_king);
            board_p.remove_piece(cur);
            board_p.remove_piece(skipped_over);

            let jumpers_p = board_p.get_jumpers(&turn);

            if (jumpers_p & (1u32 << (candidate as u32)) == 0) || (!starts_as_king
                && ends_as_king) {
                self.emit_candidate(actions, &chain2, true);
            } else {
                if fuel > 0 {
                    self.gen_jump_chains(actions, board_p, chain2, fuel - 1);
                }
            }
        }
    }

    /// Every legal action on this board, each with the board it leads to and
    /// its Zobrist delta. When the side to move can capture, only capture
    /// chains are produced; when the game is over, nothing is; when a piece
    /// can move and no capture is forced, every legal simple move appears,
    /// so the list is not empty. No action is listed twice, and every pair
    /// satisfies `pair_ok`: its action applies successfully and yields
    /// exactly the board carried with it.
    #[verifier::loop_isolation(false)]
    #[verifier::spinoff_prover]
    #[verifier::rlimit(10)]
    pub fn generate_all_actions(&self) -> (r: Vec<crate::searchable::ActionStatePair>)
        ensures
            forall|i: int| 0 <= i < r@.len() ==> pair_ok(self@, #[trigger] r@[i]),
            actions_distinct(r@),
            self@.has_any_jumper(self@.turn) ==> forall|i: int|
                0 <= i < r@.len() ==> #[trigger] r@[i].spec_action()@.dirs.len() > 0,
            spec_game_state(self@) matches GameState::Completed(_) ==> r@.len() == 0,
            !self@.has_any_jumper(self@.turn) ==> forall|a: ActionModel|
                #[trigger] legal_simple_move(self@, a) ==> exists|i: int|
                    0 <= i < r@.len() && (#[trigger] r@[i].spec_action())@ == a,
            self@.has_any_mover(self@.turn) && !self@.has_any_jumper(self@.turn) ==> r@.len() > 0,
    {
        let mut actions: Vec<crate::searchable::ActionStatePair> = Vec::new();

        match self.get_game_state() {
            GameState::Completed(_) => {
                proof {
                    // a finished game has no legal action at all: a legal
                    // simple move would give the side to move a mover
                    if !self@.has_any_jumper(self@.turn) {
                        assert forall|a: ActionModel|
                            #[trigger] legal_simple_move(self@, a) implies exists|i: int|
                            0 <= i < actions@.len() && (#[trigger] actions@[i].spec_action())@
                                == a by {
                            lemma_legal_move_candidate(self@, a);
                            assert(self@.mover_at(a.source, self@.turn));
                            assert(self@.has_any_mover(self@.turn));
                            assert(false);
                        }
                        assert(!self@.has_any_mover(self@.turn));
                    }
                }
                return actions;
            },
            GameState::InProgress => {},
        }

        let turn = self.turn;

        if self.has_jumpers(&turn) {
            let mut p: u8 = 0;
            while p < 32
                invariant
                    p <= 32,
                    forall|k: int|
                        0 <= k < actions@.len() ==> pair_ok(self@, #[trigger] actions@[k]),
                    actions_distinct(actions@),
                    forall|k: int|
                        0 <= k < actions@.len() ==> #[trigger] actions@[k].spec_action()@.dirs.len()
                            > 0,
                decreases 32 - p,
            {
                if self.coloring_eq(p, &turn) && self.can_jump_from(p, &turn) {
                    let mut base: Vec<u8> = Vec::new();
                    base.push(p);
                    self.gen_jump_chains(&mut actions, *self, base, 8);
                }
                p = p + 1;
            }
        } else {
            let mut p: u8 = 0;
            while p < 32
                invariant
                    p <= 32,
                    turn == self@.turn,
                    forall|k: int|
                        0 <= k < actions@.len() ==> pair_ok(self@, #[trigger] actions@[k]),
                    actions_distinct(actions@),
                    forall|a: ActionModel|
                        #[trigger] legal_simple_move(self@, a) && a.source < p ==> exists|i: int|
                            0 <= i < actions@.len() && (#[trigger] actions@[i].spec_action())@
                                == a,
                decreases 32 - p,
            {
                if self.coloring_eq(p, &turn) && self.can_move_from(p, &turn) {
                    let candidates = self.next_position_possibilities(p, false);
                    let mut ci: usize = 0;
                    while ci < candidates.len()
                        invariant
                            ci <= candidates@.len(),
                            forall|k: int|
                                0 <= k < actions@.len() ==> pair_ok(self@, #[trigger] actions@[k]),
                            actions_distinct(actions@),
                            forall|a: ActionModel|
                                #[trigger] legal_simple_move(self@, a) && a.source < p
                                    ==> exists|i: int|
                                    0 <= i < actions@.len() && (
                                    #[trigger] actions@[i].spec_action())@ == a,
                            forall|a: ActionModel|
                                #[trigger] legal_simple_move(self@, a) && a.source == p
                                    && candidates@.subrange(0, ci as int).contains(a.destination)
                                    ==> exists|i: int|
                                    0 <= i < actions@.len() && (
                                    #[trigger] actions@[i].spec_action())@ == a,
                        decreases candidates@.len() - ci,
                    {
                        self.emit_move(&mut actions, p, candidates[ci]);
                        ci = ci + 1;
                        proof {
                            lemma_push_contains(
                                candidates@.subrange(0, ci - 1),
                                candidates@[ci - 1],
                            );
                            assert(candidates@.subrange(0, ci as int) =~= candidates@.subrange(
                                0,
                                ci - 1,
                            ).push(candidates@[ci - 1]));
                            assert forall|a: ActionModel|
                                #[trigger] legal_simple_move(self@, a) && a.source == p
                                    && candidates@.subrange(0, ci as int).contains(
                                    a.destination,
                                ) implies exists|i: int|
                                0 <= i < actions@.len() && (#[trigger] actions@[i].spec_action())@
                                    == a by {
                                if a.destination == candidates@[ci - 1] {
                                    lemma_legal_move_candidate(self@, a);
                                    assert(a.dirs =~= Seq::<Direction>::empty());
                                    assert(a =~= move_model(p, candidates@[ci - 1]));
                                }
                            }
                        }
                    }
                    proof {
                        assert(candidates@.subrange(0, candidates@.len() as int) =~= candidates@);
                        assert forall|a: ActionModel|
                            #[trigger] legal_simple_move(self@, a) && a.source == p implies exists|
                            i: int,
                        |
                            0 <= i < actions@.len() && (#[trigger] actions@[i].spec_action())@
                                == a by {
                            lemma_legal_move_candidate(self@, a);
                            assert(candidates@.contains(a.destination));
                        }
                    }
                } else {
                    proof {
                        assert forall|a: ActionModel|
                            #[trigger] legal_simple_move(self@, a) && a.source == p implies exists|
                            i: int,
                        |
                            0 <= i < actions@.len() && (#[trigger] actions@[i].spec_action())@
                                == a by {
                            lemma_legal_move_candidate(self@, a);
                        }
                    }
                }
                p = p + 1;
            }
            proof {
                assert(!self@.has_any_jumper(self@.turn));
                assert forall|a: ActionModel| #[trigger] legal_simple_move(self@, a) implies exists|
                    i: int,
                |
                    0 <= i < actions@.len() && (#[trigger] actions@[i].spec_action())@ == a by {
                    lemma_legal_move_candidate(self@, a);
                    assert(a.source < 32);
                }
                if self@.has_any_mover(self@.turn) {
                    lemma_backward_complement();
                    let pmv = choose|pp: u8| pp < 32 && #[trigger] self@.mover_at(pp, self@.turn);
                    let d = choose|d: Direction|
                        #[trigger] self@.dir_move_ok(pmv, d, self@.turn);
                    let dest = spec_step(d, pmv)->Some_0;
                    let a = ActionModel { source: pmv, destination: dest, dirs: Seq::empty() };
                    lemma_step_between(d, pmv, dest);
                    assert(a.wf());
                    assert(spec_take_action(self@, a) is Ok);
                    assert(legal_simple_move(self@, a)) by {
                        reveal(legal_simple_move);
                    }
                    assert(actions@.len() > 0);
                }
            }
        }

        actions
    }
}

/// How many of the bits `0..n` of `m` are set.
pub open spec fn spec_popcount(m: u32, n: nat) -> int
    decreases n,
{
    if n == 0 {
        0
    } else {
        spec_popcount(m, (n - 1) as nat) + if nth(m, (n - 1) as u32) {
            1int
        } else {
            0int
        }
    }
}

/// The material balance of a board: black pieces minus white pieces, with
/// each king counted a second time. Positive favours Black.
pub open spec fn spec_evaluate(b: BoardModel) -> int {
    spec_popcount(b.blacks, 32) - spec_popcount(b.whites, 32) + spec_popcount(b.blacks & b.kings, 32)
        - spec_popcount(b.whites & b.kings, 32)
}

/// A count of set bits never exceeds the number of bits counted.
proof fn lemma_popcount_bounds(m: u32, n: nat)
    ensures
        0 <= spec_popcount(m, n) <= n,
    decreases n,
{
    if n > 0 {
        lemma_popcount_bounds(m, (n - 1) as nat);
    }
}

/// The number of set bits among the 32 bits of `m`.
fn count_ones(mask: u32) -> (r: i64)
    ensures
        r == spec_popcount(mask, 32),
        0 <= r <= 32,
{
    proof {
        lemma_popcount_bounds(mask, 32);
    }
    let mut count: i64 = 0;
    let mut p: u8 = 0;
    while p < 32
        invariant
            p <= 32,
            count == spec_popcount(mask, p as nat),
            0 <= count <= p,
        decreases 32 - p,
    {
        proof {
            lemma_popcount_bounds(mask, p as nat);
        }
        if (mask >> (p as u32)) & 1 == 1 {
            count = count + 1;
        }
        p = p + 1;
    }
    count
}

impl Bitboard {
    /// The material evaluation of the board: black pieces minus white
    /// pieces, kings counted double. Positive favours Black, the maximising
    /// side.
    pub fn evaluate(&self) -> (r: i64)
        ensures
            r == spec_evaluate(self@),
            -64 <= r <= 64,
    {
        let black_kings = self.blacks & self.kings;
        let white_kings = self.whites & self.kings;

        count_ones(self.blacks) - count_ones(self.whites) + count_ones(black_kings) - count_ones(
            white_kings,
        )
    }
}

/// The letter a side is written as.
pub open spec fn spec_turn_char(c: Color) -> char {
    match c {
        Color::Black => 'B',
        Color::White => 'W',
    }
}

/// The text of the pieces of one side, squares ascending: each piece is its
/// 1-based square, prefixed with `K` for a king, with commas between pieces.
pub open spec fn spec_side_text(mask: u32, kings: u32, pos: u8, first: bool) -> Seq<char>
    decreases 33 - pos,
    when pos >= 1
{
    if pos > 32 {
        Seq::empty()
    } else if nth(mask, (pos - 1) as u32) {
        (if first {
            Seq::<char>::empty()
        } else {
            seq![',']
        }) + (if nth(kings, (pos - 1) as u32) {
            seq!['K']
        } else {
            Seq::<char>::empty()
        }) + crate::action::pos_chars(pos as int) + spec_side_text(mask, kings, (pos + 1) as u8, false)
    } else {
        spec_side_text(mask, kings, (pos + 1) as u8, first)
    }
}

/// The board string of a board: the turn letter, then the white pieces,
/// then the black pieces, the three fields separated by colons.
pub open spec fn spec_fen(b: BoardModel) -> Seq<char> {
    seq![spec_turn_char(b.turn)] + seq![':', 'W'] + spec_side_text(b.whites, b.kings, 1, true)
        + seq![':', 'B'] + spec_side_text(b.blacks, b.kings, 1, true)
}

/// Appends the text of one side's pieces to `out`.
#[verifier::loop_isolation(false)]
fn append_side_text(out: &mut String, board: &Bitboard, mask: u32)
    ensures
        final(out)@ == old(out)@ + spec_side_text(mask, board@.kings, 1, true),
{
    proof {
        lemma_nth_basics();
    }
    let kings = board.kings();
    let mut pos: u8 = 1;
    let mut first = true;
    while pos <= 32
        invariant
            1 <= pos <= 33,
            kings == board@.kings,
            out@ + spec_side_text(mask, board@.kings, pos, first) == old(out)@ + spec_side_text(
                mask,
                board@.kings,
                1,
                true,
            ),
        decreases 33 - pos,
    {
        if (mask >> ((pos - 1) as u32)) % 2 == 1 {
            proof {
                assert(nth(mask, (pos - 1) as u32));
            }
            if !first {
                out.append(",");
            }
            if (kings >> ((pos - 1) as u32)) % 2 == 1 {
                out.append("K");
            }
            crate::action::append_pos(out, pos);
            proof {
                reveal_strlit(",");
                reveal_strlit("K");
                assert(out@ + spec_side_text(mask, board@.kings, (pos + 1) as u8, false) =~= old(
                    out,
                )@ + spec_side_text(mask, board@.kings, 1, true));
            }
            first = false;
        } else {
            proof {
                assert(!nth(mask, (pos - 1) as u32));
            }
        }
        pos = pos + 1;
    }
}

impl Bitboard {
    /// Renders the board as its board string: the turn letter, the white
    /// pieces and the black pieces, colon-separated, squares ascending and
    /// kings prefixed with `K`.
    pub fn fen(&self) -> (r: String)
        ensures
            r@ == spec_fen(self@),
    {
        let mut out = String::new();

        match self.turn {
            Color::Black => out.append("B"),
            Color::White => out.append("W"),
        }

        out.append(":W");
        append_side_text(&mut out, self, self.whites);

        out.append(":B");
        append_side_text(&mut out, self, self.blacks);

        proof {
            reveal_strlit("B");
            reveal_strlit("W");
            reveal_strlit(":W");
            reveal_strlit(":B");
            assert(out@ =~= spec_fen(self@));
        }
        out
    }
}

/// The whitespace characters a board string may carry anywhere.
pub open spec fn is_ws(c: char) -> bool {
    c == ' ' || c == '\t' || c == '\n' || c == '\r'
}

/// The board string with its whitespace removed.
pub open spec fn spec_strip_ws(s: Seq<char>) -> Seq<char>
    decreases s.len(),
{
    if s.len() == 0 {
        Seq::empty()
    } else {
        spec_strip_ws(s.drop_last()) + (if is_ws(s.last()) {
            Seq::<char>::empty()
        } else {
            seq![s.last()]
        })
    }
}

/// The index of the first occurrence of `c` in `s`, or the length of `s`.
pub open spec fn find_char(s: Seq<char>, c: char) -> int
    decreases s.len(),
{
    if s.len() == 0 {
        0
    } else if s[0] == c {
        0
    } else {
        1 + find_char(s.skip(1), c)
    }
}

/// `find_char` names the first occurrence: nothing before it matches, and it
/// matches unless `c` is absent.
proof fn lemma_find_char(s: Seq<char>, c: char)
    ensures
        0 <= find_char(s, c) <= s.len(),
        find_char(s, c) < s.len() ==> s[find_char(s, c)] == c,
        forall|k: int| 0 <= k < find_char(s, c) ==> s[k] != c,
    decreases s.len(),
{
    if s.len() > 0 && s[0] != c {
        lemma_find_char(s.skip(1), c);
        assert forall|k: int| 0 <= k < find_char(s, c) implies s[k] != c by {
            if k > 0 {
                assert(s.skip(1)[k - 1] == s[k]);
            }
        }
    }
}

/// Why a board string fails to parse: the wrong number of fields, a bad side
/// letter, or a bad piece position.
pub enum FenErrorKind {
    BadShape,
    BadColor,
    BadPosition(Seq<char>),
}

/// What parsing one piece of a side's list yields: nothing for an empty
/// piece, the square mask and king flag of a good piece, or a bad piece.
pub enum PieceParse {
    Nothing,
    Bad,
    Piece(u32, bool),
}

/// Parses one piece: an optional `K` prefix, then a decimal square in
/// 1..=32.
pub open spec fn spec_parse_piece(seg: Seq<char>) -> PieceParse {
    if seg.len() == 0 {
        PieceParse::Nothing
    } else {
        let king = seg[0] == 'K';
        let body = if king {
            seg.skip(1)
        } else {
            seg
        };
        match crate::action::parse_u8_chars(body) {
            Option::None => PieceParse::Bad,
            Option::Some(v) => {
                if 1 <= v <= 32 {
                    PieceParse::Piece(1u32 << ((v - 1) as u32), king)
                } else {
                    PieceParse::Bad
                }
            },
        }
    }
}

/// Parses a side's comma-separated piece list into the side's occupancy and
/// king masks; `seg` holds the piece being read. An empty piece ends the
/// list early, as the reference notation never writes one.
pub open spec fn spec_parse_pieces(s: Seq<char>, seg: Seq<char>, temp: u32, kings: u32) -> Result<
    (u32, u32),
    FenErrorKind,
>
    decreases s.len(),
{
    if s.len() == 0 {
        match spec_parse_piece(seg) {
            PieceParse::Nothing => Ok((temp, kings)),
            PieceParse::Bad => Err(FenErrorKind::BadPosition(seg)),
            PieceParse::Piece(mask, king) => Ok(
                (
                    temp | mask,
                    if king {
                        kings | mask
                    } else {
                        kings
                    },
                ),
            ),
        }
    } else if s[0] == ',' {
        match spec_parse_piece(seg) {
            PieceParse::Nothing => Ok((temp, kings)),
            PieceParse::Bad => Err(FenErrorKind::BadPosition(seg)),
            PieceParse::Piece(mask, king) => spec_parse_pieces(
                s.skip(1),
                Seq::empty(),
                temp | mask,
                if king {
                    kings | mask
                } else {
                    kings
                },
            ),
        }
    } else {
        spec_parse_pieces(s.skip(1), seg.push(s[0]), temp, kings)
    }
}

/// Parses one colon field of a board string: its side letter, then its
/// pieces. Piece errors are reported before a bad side letter, as the
/// pieces are read first.
pub open spec fn spec_parse_section(part: Seq<char>) -> Result<(Color, u32, u32), FenErrorKind> {
    if part.len() == 0 {
        Err(FenErrorKind::BadPosition(seq!['?']))
    } else {
        match spec_parse_pieces(part.skip(1), Seq::empty(), 0, 0) {
            Err(e) => Err(e),
            Ok((pieces, kings)) => {
                if part[0] == 'B' {
                    Ok((Color::Black, pieces, kings))
                } else if part[0] == 'W' {
                    Ok((Color::White, pieces, kings))
                } else {
                    Err(FenErrorKind::BadColor)
                }
            },
        }
    }
}

/// What `Bitboard::from_fen` makes of a board string: whitespace is ignored,
/// the string must have exactly three colon-separated fields, the first
/// field names the side to move, and the other two each contribute their
/// side's pieces and kings.
pub open spec fn spec_from_fen(s: Seq<char>) -> Result<BoardModel, FenErrorKind> {
    let t = spec_strip_ws(s);
    let i1 = find_char(t, ':');
    if i1 == t.len() {
        Err(FenErrorKind::BadShape)
    } else {
        let rest1 = t.skip(i1 + 1);
        let i2 = find_char(rest1, ':');
        if i2 == rest1.len() {
            Err(FenErrorKind::BadShape)
        } else {
            let rest2 = rest1.skip(i2 + 1);
            if find_char(rest2, ':') != rest2.len() {
                Err(FenErrorKind::BadShape)
            } else {
                let part0 = t.take(i1);
                let part1 = rest1.take(i2);
                if !(part0 =~= seq!['B'] || part0 =~= seq!['W']) {
                    Err(FenErrorKind::BadColor)
                } else {
                    let turn = if part0 =~= seq!['B'] {
                        Color::Black
                    } else {
                        Color::White
                    };
                    match spec_parse_section(part1) {
                        Err(e) => Err(e),
                        Ok((c1, p1, k1)) => match spec_parse_section(rest2) {
                            Err(e) => Err(e),
                            Ok((c2, p2, k2)) => {
                                let blacks = (if c1 == Color::Black {
                                    p1
                                } else {
                                    0
                                }) | (if c2 == Color::Black {
                                    p2
                                } else {
                                    0
                                });
                                let whites = (if c1 == Color::White {
                                    p1
                                } else {
                                    0
                                }) | (if c2 == Color::White {
                                    p2
                                } else {
                                    0
                                });
                                Ok(BoardModel { blacks, whites, kings: k1 | k2, turn })
                            },
                        },
                    }
                }
            }
        }
    }
}

/// Whether the error `from_fen` returned is the one its specification names.
pub open spec fn fen_err_matches(k: FenErrorKind, e: crate::error::ParseError) -> bool {
    match k {
        FenErrorKind::BadShape => e == crate::error::ParseError::InvalidBoard,
        FenErrorKind::BadColor => e == crate::error::ParseError::ColorError,
        FenErrorKind::BadPosition(t) => e matches crate::error::ParseError::PositionError {
            position,
        } && position@ == t,
    }
}

/// Relies on String::push: appends exactly the one character.
#[verifier::external_body]
fn push_char(s: &mut String, c: char)
    ensures
        final(s)@ == old(s)@.push(c),
{
    s.push(c)
}

/// The digit body of a piece: the piece without its `K` prefix, if any.
pub open spec fn piece_body(seg: Seq<char>) -> Seq<char> {
    if seg.len() > 0 && seg[0] == 'K' {
        seg.skip(1)
    } else {
        seg
    }
}

/// Parses one colon field of a board string, held as `cs[start..end]`. A
/// bad piece is reported with its own text; an empty field with `?`.
#[verifier::loop_isolation(false)]
#[verifier::rlimit(30)]
fn parse_section(cs: &Vec<char>, start: usize, end: usize) -> (r: Result<
    (Color, u32, u32),
    crate::error::ParseError,
>)
    requires
        start <= end <= cs@.len(),
    ensures
        spec_parse_section(cs@.subrange(start as int, end as int)) matches Ok(t) ==> r matches Ok(
            t2,
        ) && t2 == t,
        spec_parse_section(cs@.subrange(start as int, end as int)) matches Err(k) ==> r matches Err(
            e,
        ) && fen_err_matches(k, e),
{
    let ghost part = cs@.subrange(start as int, end as int);

    if start == end {
        proof {
            reveal_strlit("?");
            assert("?"@ =~= seq!['?']);
        }
        return Err(
            crate::error::ParseError::PositionError { position: String::from_str("?") },
        );
    }

    let mut temp: u32 = 0;
    let mut kings: u32 = 0;

    let ghost mut seg: Seq<char> = Seq::empty();
    let mut token = String::new();
    let mut slen: usize = 0;
    let mut king = false;
    let mut bad = false;
    let mut acc: u32 = 0;

    let mut cursor: usize = start + 1;
    let mut stopped = false;

    proof {
        assert(part.skip(1) =~= cs@.subrange(start as int + 1, end as int));
    }

    while cursor < end && !stopped
        invariant
            start + 1 <= cursor <= end,
            slen == seg.len(),
            slen <= cursor,
            token@ == seg,
            king == (seg.len() > 0 && seg[0] == 'K'),
            !bad ==> crate::action::all_digits(piece_body(seg)) && acc == crate::action::str_value(
                piece_body(seg),
            ) && acc <= 255,
            bad ==> !crate::action::all_digits(piece_body(seg)) || crate::action::str_value(
                piece_body(seg),
            ) > 255,
            !stopped ==> spec_parse_pieces(part.skip(1), Seq::empty(), 0, 0) == spec_parse_pieces(
                cs@.subrange(cursor as int, end as int),
                seg,
                temp,
                kings,
            ),
            stopped ==> spec_parse_pieces(part.skip(1), Seq::empty(), 0, 0) == Ok::<
                (u32, u32),
                FenErrorKind,
            >((temp, kings)),
        decreases end - cursor,
    {
        let c = cs[cursor];
        proof {
            assert(cs@.subrange(cursor as int, end as int)[0] == c);
            assert(cs@.subrange(cursor as int, end as int).skip(1) =~= cs@.subrange(
                cursor as int + 1,
                end as int,
            ));
        }
        if c == ',' {
            if slen == 0 {
                stopped = true;
            } else {
                let body_len = if king {
                    slen - 1
                } else {
                    slen
                };
                proof {
                    assert(piece_body(seg).len() == body_len);
                }
                if body_len == 0 || bad {
                    return Err(crate::error::ParseError::PositionError { position: token });
                }
                if acc < 1 || acc > 32 {
                    return Err(crate::error::ParseError::PositionError { position: token });
                }
                temp = temp | (1u32 << ((acc - 1) as u32));
                if king {
                    kings = kings | (1u32 << ((acc - 1) as u32));
                }
                proof {
                    seg = Seq::empty();
                }
                token = String::new();
                slen = 0;
                king = false;
                bad = false;
                acc = 0;
            }
        } else {
            let ghost old_seg = seg;
            let ghost old_body = piece_body(seg);
            push_char(&mut token, c);
            if slen == 0 && c == 'K' {
                king = true;
            } else {
                let d = match c {
                    '0' => 0u32,
                    '1' => 1u32,
                    '2' => 2u32,
                    '3' => 3u32,
                    '4' => 4u32,
                    '5' => 5u32,
                    '6' => 6u32,
                    '7' => 7u32,
                    '8' => 8u32,
                    '9' => 9u32,
                    _ => 10u32,
                };
                proof {
                    assert(d == crate::action::digit_val(c));
                }
                if d == 10 {
                    bad = true;
                } else if !bad {
                    acc = acc * 10 + d;
                    if acc > 255 {
                        bad = true;
                    }
                }
            }
            proof {
                seg = seg.push(c);
                assert(seg[0] == if old_seg.len() == 0 {
                    c
                } else {
                    old_seg[0]
                });
                if old_seg.len() == 0 && c == 'K' {
                    assert(piece_body(seg) =~= Seq::<char>::empty());
                } else {
                    assert(piece_body(seg) =~= old_body.push(c));
                    assert(piece_body(seg).drop_last() =~= old_body);
                    crate::action::lemma_str_value_grows(piece_body(seg));
                    if !(crate::action::all_digits(old_body)) {
                        let i = choose|i: int|
                            0 <= i < old_body.len() && crate::action::digit_val(old_body[i]) >= 10;
                        assert(piece_body(seg)[i] == old_body[i]);
                    } else {
                        assert forall|i: int|
                            0 <= i < piece_body(seg).len() && crate::action::digit_val(c) < 10
                                && crate::action::all_digits(old_body) implies crate::action::digit_val(
                            #[trigger] piece_body(seg)[i],
                        ) < 10 by {
                            if i < old_body.len() {
                                assert(piece_body(seg)[i] == old_body[i]);
                            }
                        }
                    }
                }
            }
            slen = slen + 1;
        }
        cursor = cursor + 1;
    }

    if !stopped {
        proof {
            assert(cs@.subrange(cursor as int, end as int) =~= Seq::<char>::empty());
        }
        if slen == 0 {
            // an empty final piece: the list simply ends
        } else {
            let body_len = if king {
                slen - 1
            } else {
                slen
            };
            proof {
                assert(piece_body(seg).len() == body_len);
            }
            if body_len == 0 || bad {
                return Err(crate::error::ParseError::PositionError { position: token });
            }
            if acc < 1 || acc > 32 {
                return Err(crate::error::ParseError::PositionError { position: token });
            }
            temp = temp | (1u32 << ((acc - 1) as u32));
            if king {
                kings = kings | (1u32 << ((acc - 1) as u32));
            }
        }
    }

    let first = cs[start];
    proof {
        assert(part[0] == first);
    }
    if first == 'B' {
        Ok((Color::Black, temp, kings))
    } else if first == 'W' {
        Ok((Color::White, temp, kings))
    } else {
        Err(crate::error::ParseError::ColorError)
    }
}

/// Scans `cs` for the first `':'` at or after `from`, returning its index or
/// `cs.len()`; the result names the first colon of the suffix.
#[verifier::loop_isolation(false)]
fn find_colon(cs: &Vec<char>, from: usize) -> (r: usize)
    requires
        from <= cs@.len(),
    ensures
        from <= r <= cs@.len(),
        r - from == find_char(cs@.subrange(from as int, cs@.len() as int), ':'),
{
    let ghost suffix = cs@.subrange(from as int, cs@.len() as int);
    proof {
        lemma_find_char(suffix, ':');
    }
    let n = cs.len();
    let mut i = from;
    while i < n
        invariant
            from <= i <= n,
            forall|k: int| from <= k < i ==> cs@[k] != ':',
        decreases n - i,
    {
        if cs[i] == ':' {
            proof {
                let f = find_char(suffix, ':');
                assert(suffix[i - from] == ':');
                if f < i - from {
                    assert(suffix[f] == cs@[from + f]);
                    assert(false);
                }
                if f > i - from {
                    assert(suffix[i - from] != ':');
                }
            }
            return i;
        }
        i = i + 1;
    }
    proof {
        let f = find_char(suffix, ':');
        if f < suffix.len() {
            assert(suffix[f] == cs@[from + f]);
        }
    }
    n
}

impl Bitboard {
    /// Parses a board string: whitespace is ignored, the string must be the
    /// turn letter and the two sides' piece lists, colon-separated, and
    /// every piece must be a square in 1..=32 with an optional `K` prefix; a
    /// bad piece is named in the error.
    #[verifier::loop_isolation(false)]
    pub fn from_fen(fen_string: &str) -> (r: Result<Bitboard, crate::error::ParseError>)
        ensures
            spec_from_fen(fen_string@) matches Ok(m) ==> r matches Ok(b) && b@ == m,
            spec_from_fen(fen_string@) matches Err(k) ==> r matches Err(e) && fen_err_matches(
                k,
                e,
            ),
    {
        let len = fen_string.unicode_len();
        let mut cs: Vec<char> = Vec::new();
        let mut idx: usize = 0;
        proof {
            assert(fen_string@.subrange(0, 0) =~= Seq::<char>::empty());
        }
        while idx < len
            invariant
                idx <= len,
                len == fen_string@.len(),
                cs@ == spec_strip_ws(fen_string@.subrange(0, idx as int)),
            decreases len - idx,
        {
            let c = fen_string.get_char(idx);
            proof {
                assert(fen_string@.subrange(0, idx as int + 1).drop_last() =~= fen_string@.subrange(
                    0,
                    idx as int,
                ));
                assert(fen_string@.subrange(0, idx as int + 1).last() == c);
            }
            if !(c == ' ' || c == '\t' || c == '\n' || c == '\r') {
                cs.push(c);
            }
            proof {
                assert(cs@ =~= spec_strip_ws(fen_string@.subrange(0, idx as int + 1)));
            }
            idx = idx + 1;
        }
        proof {
            assert(fen_string@.subrange(0, len as int) =~= fen_string@);
        }
        let ghost t = spec_strip_ws(fen_string@);

        let n = cs.len();

        let i1 = find_colon(&cs, 0);
        proof {
            assert(cs@.subrange(0, n as int) =~= cs@);
        }
        if i1 == n {
            return Err(crate::error::ParseError::InvalidBoard);
        }

        let i2 = find_colon(&cs, i1 + 1);
        let ghost rest1 = t.skip(i1 as int + 1);
        proof {
            assert(cs@.subrange(i1 as int + 1, n as int) =~= rest1);
        }
        if i2 == n {
            return Err(crate::error::ParseError::InvalidBoard);
        }

        let i3 = find_colon(&cs, i2 + 1);
        let ghost rest2 = rest1.skip((i2 - i1 - 1) as int + 1);
        proof {
            assert(cs@.subrange(i2 as int + 1, n as int) =~= rest2);
        }
        if i3 != n {
            proof {
                assert(find_char(rest2, ':') == i3 - (i2 + 1));
                assert(find_char(rest2, ':') != rest2.len());
            }
            return Err(crate::error::ParseError::InvalidBoard);
        }

        let ghost part0 = t.take(i1 as int);
        let turn = if i1 == 1 && cs[0] == 'B' {
            proof {
                assert(part0 =~= seq!['B']);
            }
            Color::Black
        } else if i1 == 1 && cs[0] == 'W' {
            proof {
                assert(part0 =~= seq!['W']);
                assert(!(part0 =~= seq!['B']));
            }
            Color::White
        } else {
            proof {
                if part0 =~= seq!['B'] {
                    assert(part0.len() == 1 && part0[0] == 'B');
                    assert(cs@[0] == 'B');
                }
                if part0 =~= seq!['W'] {
                    assert(cs@[0] == 'W');
                }
            }
            return Err(crate::error::ParseError::ColorError);
        };

        let ghost part1 = rest1.take((i2 - i1 - 1) as int);
        proof {
            assert(cs@.subrange(i1 as int + 1, i2 as int) =~= part1);
        }
        let (c1, p1, k1) = match parse_section(&cs, i1 + 1, i2) {
            Ok(v) => v,
            Err(e) => {
                return Err(e);
            },
        };

        let (c2, p2, k2) = match parse_section(&cs, i2 + 1, n) {
            Ok(v) => v,
            Err(e) => {
                return Err(e);
            },
        };

        let blacks = (if matches!(c1, Color::Black) {
            p1
        } else {
            0
        }) | (if matches!(c2, Color::Black) {
            p2
        } else {
            0
        });
        let whites = (if matches!(c1, Color::White) {
            p1
        } else {
            0
        }) | (if matches!(c2, Color::White) {
            p2
        } else {
            0
        });

        Ok(Bitboard { blacks, whites, kings: k1 | k2, turn })
    }
}

/// The starting position is a legal board.
pub proof fn lemma_start_wf()
    ensures
        start_model().wf(),
{
    assert(0xfffu32 & 0xfff00000u32 == 0) by (bit_vector);
    assert(0u32 & !(0xfffu32 | 0xfff00000u32) == 0) by (bit_vector);
}

/// An action paired with the board it leads to.
#[derive(Debug, Clone, Copy)]
pub struct ActionBitboardPair {
    action: Action,
    board: Bitboard,
}

impl ActionBitboardPair {
    /// Pairs an action with a board.
    pub fn new(action: Action, board: Bitboard) -> (r: ActionBitboardPair)
        ensures
            r.spec_action() == action,
            r.spec_board() == board,
    {
        ActionBitboardPair { action, board }
    }

    /// The action of the pair.
    pub closed spec fn spec_action(self) -> Action {
        self.action
    }

    /// The board of the pair.
    pub closed spec fn spec_board(self) -> Bitboard {
        self.board
    }

    /// The action of the pair.
    pub fn action(&self) -> (r: Action)
        ensures
            r == self.spec_action(),
    {
        self.action
    }

    /// The board of the pair.
    pub fn board(&self) -> (r: Bitboard)
        ensures
            r == self.spec_board(),
    {
        self.board
    }
}

/// The horizontal border line of the pretty-printed board.
pub open spec fn spec_border() -> Seq<char> {
    "+---+---+---+---+---+---+---+---+"@
}

/// The four characters of one cell of the pretty-printed board: light
/// squares are blank; a dark square shows its piece, `b` or `w`, upper-case
/// for a king, or a blank when empty.
pub open spec fn spec_cell_text(b: BoardModel, i: int, j: int) -> Seq<char> {
    if (i + j) % 2 == 0 {
        seq!['|', ' ', ' ', ' ']
    } else {
        let s = (i * 4 + j / 2) as u8;
        let ch = if b.has_color(s, Color::White) {
            if b.king_at(s) {
                'W'
            } else {
                'w'
            }
        } else if b.has_color(s, Color::Black) {
            if b.king_at(s) {
                'B'
            } else {
                'b'
            }
        } else {
            ' '
        };
        seq!['|', ' ', ch, ' ']
    }
}

/// The cells of row `i` from column `j` on, closed by `|` and a newline.
pub open spec fn spec_row_cells(b: BoardModel, i: int, j: int) -> Seq<char>
    decreases 8 - j,
    when j <= 8
{
    if j >= 8 {
        seq!['|', '\n']
    } else {
        spec_cell_text(b, i, j) + spec_row_cells(b, i, j + 1)
    }
}

/// The rows of the pretty-printed board from row `i` on, each opened by a
/// border line, with the closing border line at the end.
pub open spec fn spec_rows(b: BoardModel, i: int) -> Seq<char>
    decreases 8 - i,
    when i <= 8
{
    if i >= 8 {
        spec_border()
    } else {
        spec_border() + seq!['\n'] + spec_row_cells(b, i, 0) + spec_rows(b, i + 1)
    }
}

/// The whole pretty-printed board.
pub open spec fn spec_pretty(b: BoardModel) -> Seq<char> {
    spec_rows(b, 0)
}

impl Bitboard {
    /// Draws the board: eight bordered rows, black pieces as `b`, white as
    /// `w`, kings in capitals.
    #[verifier::loop_isolation(false)]
    #[verifier::rlimit(100)]
    #[verifier::spinoff_prover]
    pub fn pretty(&self) -> (r: String)
        ensures
            r@ == spec_pretty(self@),
    {
        let mut out = String::new();
        proof {
            reveal_strlit("\n");
            reveal_strlit("|\n");
            reveal_strlit("|   ");
            reveal_strlit("| b ");
            reveal_strlit("| w ");
            reveal_strlit("| B ");
            reveal_strlit("| W ");
        }
        let mut i: u8 = 0;
        while i < 8
            invariant
                i <= 8,
                out@ + spec_rows(self@, i as int) == spec_pretty(self@),
            decreases 8 - i,
        {
            out.append("+---+---+---+---+---+---+---+---+");
            out.append("\n");
            let mut j: u8 = 0;
            proof {
                assert(out@ + spec_row_cells(self@, i as int, 0) + spec_rows(self@, i as int + 1)
                    =~= spec_pretty(self@));
            }
            while j < 8
                invariant
                    i < 8,
                    j <= 8,
                    out@ + spec_row_cells(self@, i as int, j as int) + spec_rows(
                        self@,
                        i as int + 1,
                    ) == spec_pretty(self@),
                decreases 8 - j,
            {
                if (i + j) % 2 == 0 {
                    out.append("|   ");
                    proof {
                        assert(out@ + spec_row_cells(self@, i as int, j as int + 1) + spec_rows(
                            self@,
                            i as int + 1,
                        ) =~= spec_pretty(self@));
                    }
                } else {
                    let s = i * 4 + j / 2;
                    let white = self.coloring_eq(s, &Color::White);
                    let black = self.coloring_eq(s, &Color::Black);
                    let king = self.is_king(s);
                    let cell: &'static str = if white {
                        if king {
                            "| W "
                        } else {
                            "| w "
                        }
                    } else if black {
                        if king {
                            "| B "
                        } else {
                            "| b "
                        }
                    } else {
                        "|   "
                    };
                    out.append(cell);
                    proof {
                        assert(out@ + spec_row_cells(self@, i as int, j as int + 1) + spec_rows(
                            self@,
                            i as int + 1,
                        ) =~= spec_pretty(self@));
                    }
                }
                j = j + 1;
            }
            out.append("|");
            out.append("\n");
            proof {
                reveal_strlit("|");
                assert(out@ + spec_rows(self@, i as int + 1) =~= spec_pretty(self@));
            }
            i = i + 1;
        }
        out.append("+---+---+---+---+---+---+---+---+");
        proof {
            assert(out@ =~= spec_pretty(self@));
        }
        out
    }
}


/// How each shifted-mask term of the bit-parallel mover formulas reads per
/// square: a shift by 3 or 5 is masked so that it only crosses between rows
/// where that offset is a legal diagonal.
proof fn lemma_shift_term_bits(no: u32)
    by (bit_vector)
    ensures
        forall|p: u32|
            p < 32 ==> #[trigger] nth(no << 4, p) == (p >= 4 && nth(no, (p - 4) as u32)),
        forall|p: u32|
            p < 32 ==> #[trigger] nth((no & 0xe0e0e0e0) << 3, p) == (p >= 3 && p % 8 <= 2 && nth(no, (p - 3) as u32)),
        forall|p: u32|
            p < 32 ==> #[trigger] nth((no & 0x07070707) << 5, p) == (p % 8 >= 5 && nth(no, (p - 5) as u32)),
        forall|p: u32|
            p < 32 ==> #[trigger] nth(no >> 4, p) == (p <= 27 && nth(no, (p + 4) as u32)),
        forall|p: u32|
            p < 32 ==> #[trigger] nth((no & 0x07070707) >> 3, p) == (p % 8 >= 5 && p <= 28 && nth(no, (p + 3) as u32)),
        forall|p: u32|
            p < 32 ==> #[trigger] nth((no & 0xe0e0e0e0) >> 5, p) == (p % 8 <= 2 && p <= 26 && nth(no, (p + 5) as u32)),
{
}


/// Whether some square one step up from `p` is empty, named by offset:
/// `p - 4` works from every row, `p - 3` only where the row above continues
/// rightwards, `p - 5` only where it continues leftwards.
pub open spec fn up_step_empty(b: BoardModel, p: u8) -> bool {
    ||| (p >= 4 && b.empty_at((p - 4) as u8))
    ||| (p >= 3 && p % 8 <= 2 && b.empty_at((p - 3) as u8))
    ||| (p % 8 >= 5 && b.empty_at((p - 5) as u8))
}

/// Whether some square one step down from `p` is empty, named by offset.
pub open spec fn down_step_empty(b: BoardModel, p: u8) -> bool {
    ||| (p <= 27 && b.empty_at((p + 4) as u8))
    ||| (p % 8 >= 5 && p <= 28 && b.empty_at((p + 3) as u8))
    ||| (p % 8 <= 2 && p <= 26 && b.empty_at((p + 5) as u8))
}

/// The offset forms name exactly the legal upward and downward steps.
proof fn lemma_step_offsets(b: BoardModel, p: u8)
    requires
        p < 32,
    ensures
        up_step_empty(b, p) == ((spec_step(Direction::UpLeft, p) matches Some(q) && b.empty_at(q))
            || (spec_step(Direction::UpRight, p) matches Some(q) && b.empty_at(q))),
        down_step_empty(b, p) == ((spec_step(Direction::DownLeft, p) matches Some(q) && b.empty_at(
            q,
        )) || (spec_step(Direction::DownRight, p) matches Some(q) && b.empty_at(q))),
{
    if p == 0 {
    } else    if p == 1 {
    } else    if p == 2 {
    } else    if p == 3 {
    } else    if p == 4 {
    } else    if p == 5 {
    } else    if p == 6 {
    } else    if p == 7 {
    } else    if p == 8 {
    } else    if p == 9 {
    } else    if p == 10 {
    } else    if p == 11 {
    } else    if p == 12 {
    } else    if p == 13 {
    } else    if p == 14 {
    } else    if p == 15 {
    } else    if p == 16 {
    } else    if p == 17 {
    } else    if p == 18 {
    } else    if p == 19 {
    } else    if p == 20 {
    } else    if p == 21 {
    } else    if p == 22 {
    } else    if p == 23 {
    } else    if p == 24 {
    } else    if p == 25 {
    } else    if p == 26 {
    } else    if p == 27 {
    } else    if p == 28 {
    } else    if p == 29 {
    } else    if p == 30 {
    } else {
    }
}

/// A piece of side `c` on `p` has a simple move exactly when an empty
/// square sits one step forward, or one step backward for a king.
proof fn lemma_mover_at_offsets(b: BoardModel, p: u8, c: Color)
    requires
        p < 32,
    ensures
        b.mover_at(p, c) == (b.has_color(p, c) && (match c {
            Color::White => up_step_empty(b, p) || (b.king_at(p) && down_step_empty(b, p)),
            Color::Black => down_step_empty(b, p) || (b.king_at(p) && up_step_empty(b, p)),
        })),
{
    lemma_step_offsets(b, p);
    let fwd = match c {
        Color::White => up_step_empty(b, p),
        Color::Black => down_step_empty(b, p),
    };
    let bwd = match c {
        Color::White => down_step_empty(b, p),
        Color::Black => up_step_empty(b, p),
    };
    if b.can_move_from(p, c) {
        let d = choose|d: Direction| #[trigger] b.dir_move_ok(p, d, c);
        assert(fwd || (b.king_at(p) && bwd)) by {
            match d {
                Direction::UpLeft => {},
                Direction::UpRight => {},
                Direction::DownLeft => {},
                Direction::DownRight => {},
            }
        }
    }
    if fwd || (b.king_at(p) && bwd) {
        assert(b.can_move_from(p, c)) by {
            if spec_step(Direction::UpLeft, p) matches Some(q) && b.empty_at(q) && (man_dir_ok(
                c,
                Direction::UpLeft,
            ) || b.king_at(p)) {
                assert(b.dir_move_ok(p, Direction::UpLeft, c));
            } else if spec_step(Direction::UpRight, p) matches Some(q) && b.empty_at(q) && (
            man_dir_ok(c, Direction::UpRight) || b.king_at(p)) {
                assert(b.dir_move_ok(p, Direction::UpRight, c));
            } else if spec_step(Direction::DownLeft, p) matches Some(q) && b.empty_at(q) && (
            man_dir_ok(c, Direction::DownLeft) || b.king_at(p)) {
                assert(b.dir_move_ok(p, Direction::DownLeft, c));
            } else if spec_step(Direction::DownRight, p) matches Some(q) && b.empty_at(q) && (
            man_dir_ok(c, Direction::DownRight) || b.king_at(p)) {
                assert(b.dir_move_ok(p, Direction::DownRight, c));
            }
        }
    }
}


/// How the composed shift terms of the bit-parallel jumper formulas read per
/// square: a piece on `p` can jump upward (or downward) when the stepped-over
/// square holds an opponent piece and the landing square two rows away is
/// empty, the offsets depending on the row's parity.
proof fn lemma_jump_term_bits(no: u32, opp: u32)
    by (bit_vector)
    ensures
        forall|p: u32|
            p < 32 ==> #[trigger] nth(
                ((((no << 4) & opp) & 0xe0e0e0e0) << 3) | ((((no << 4) & opp) & 0x07070707) << 5)
                    | (((((no & 0xe0e0e0e0) << 3) | ((no & 0x07070707) << 5)) & opp) << 4),
                p,
            ) == ((p >= 9 && p % 4 >= 1 && nth(
                opp,
                if p % 8 <= 3 {
                    (p - 4) as u32
                } else {
                    (p - 5) as u32
                },
            ) && nth(no, (p - 9) as u32)) || (p >= 7 && p % 4 <= 2 && nth(
                opp,
                if p % 8 <= 3 {
                    (p - 3) as u32
                } else {
                    (p - 4) as u32
                },
            ) && nth(no, (p - 7) as u32))),
        forall|p: u32|
            p < 32 ==> #[trigger] nth(
                ((((no >> 4) & opp) & 0x07070707) >> 3) | ((((no >> 4) & opp) & 0xe0e0e0e0) >> 5)
                    | (((((no & 0x07070707) >> 3) | ((no & 0xe0e0e0e0) >> 5)) & opp) >> 4),
                p,
            ) == ((p <= 24 && p % 4 >= 1 && nth(
                opp,
                if p % 8 <= 3 {
                    (p + 4) as u32
                } else {
                    (p + 3) as u32
                },
            ) && nth(no, (p + 7) as u32)) || (p <= 22 && p % 4 <= 2 && nth(
                opp,
                if p % 8 <= 3 {
                    (p + 5) as u32
                } else {
                    (p + 4) as u32
                },
            ) && nth(no, (p + 9) as u32))),
{
}


/// Whether a piece on `p` could jump upward over a piece of side `o` to an
/// empty square, named by offset: the stepped-over square depends on the
/// row's parity, the landing square is two rows up.
pub open spec fn up_jump_ok(b: BoardModel, p: u8, o: Color) -> bool {
    ||| (p >= 9 && p % 4 >= 1 && b.has_color(
        if p % 8 <= 3 {
            (p - 4) as u8
        } else {
            (p - 5) as u8
        },
        o,
    ) && b.empty_at((p - 9) as u8))
    ||| (p >= 7 && p % 4 <= 2 && b.has_color(
        if p % 8 <= 3 {
            (p - 3) as u8
        } else {
            (p - 4) as u8
        },
        o,
    ) && b.empty_at((p - 7) as u8))
}

/// Whether a piece on `p` could jump downward over a piece of side `o` to an
/// empty square, named by offset.
pub open spec fn down_jump_ok(b: BoardModel, p: u8, o: Color) -> bool {
    ||| (p <= 24 && p % 4 >= 1 && b.has_color(
        if p % 8 <= 3 {
            (p + 4) as u8
        } else {
            (p + 3) as u8
        },
        o,
    ) && b.empty_at((p + 7) as u8))
    ||| (p <= 22 && p % 4 <= 2 && b.has_color(
        if p % 8 <= 3 {
            (p + 5) as u8
        } else {
            (p + 4) as u8
        },
        o,
    ) && b.empty_at((p + 9) as u8))
}

/// Whether a jump from `p` in direction `d` passes over a piece of side `o`
/// and lands on an empty square: `dir_jump_ok` without its direction gate.
pub open spec fn dir_jump_over_ok(b: BoardModel, p: u8, d: Direction, o: Color) -> bool {
    &&& spec_step(d, p) matches Some(over) && b.has_color(over, o)
    &&& spec_jump(d, p) matches Some(l) && b.empty_at(l)
}

/// The offset forms name exactly the legal upward and downward jumps over a
/// piece of side `o`.
proof fn lemma_jump_offsets(b: BoardModel, p: u8, o: Color)
    requires
        p < 32,
    ensures
        up_jump_ok(b, p, o) == (dir_jump_over_ok(b, p, Direction::UpLeft, o) || dir_jump_over_ok(
            b,
            p,
            Direction::UpRight,
            o,
        )),
        down_jump_ok(b, p, o) == (dir_jump_over_ok(b, p, Direction::DownLeft, o)
            || dir_jump_over_ok(b, p, Direction::DownRight, o)),
{
    if p == 0 {
    } else    if p == 1 {
    } else    if p == 2 {
    } else    if p == 3 {
    } else    if p == 4 {
    } else    if p == 5 {
    } else    if p == 6 {
    } else    if p == 7 {
    } else    if p == 8 {
    } else    if p == 9 {
    } else    if p == 10 {
    } else    if p == 11 {
    } else    if p == 12 {
    } else    if p == 13 {
    } else    if p == 14 {
    } else    if p == 15 {
    } else    if p == 16 {
    } else    if p == 17 {
    } else    if p == 18 {
    } else    if p == 19 {
    } else    if p == 20 {
    } else    if p == 21 {
    } else    if p == 22 {
    } else    if p == 23 {
    } else    if p == 24 {
    } else    if p == 25 {
    } else    if p == 26 {
    } else    if p == 27 {
    } else    if p == 28 {
    } else    if p == 29 {
    } else    if p == 30 {
    } else {
    }
}

/// A piece of side `c` on `p` can capture exactly when it has a forward
/// jump, or a backward one for a king, over an opponent piece.
proof fn lemma_jumper_at_offsets(b: BoardModel, p: u8, c: Color)
    requires
        p < 32,
    ensures
        b.jumper_at(p, c) == (b.has_color(p, c) && (match c {
            Color::White => up_jump_ok(b, p, spec_other(c)) || (b.king_at(p) && down_jump_ok(
                b,
                p,
                spec_other(c),
            )),
            Color::Black => down_jump_ok(b, p, spec_other(c)) || (b.king_at(p) && up_jump_ok(
                b,
                p,
                spec_other(c),
            )),
        })),
{
    let o = spec_other(c);
    lemma_jump_offsets(b, p, o);
    let fwd = match c {
        Color::White => up_jump_ok(b, p, o),
        Color::Black => down_jump_ok(b, p, o),
    };
    let bwd = match c {
        Color::White => down_jump_ok(b, p, o),
        Color::Black => up_jump_ok(b, p, o),
    };
    if b.can_jump_from(p, c) {
        let d = choose|d: Direction| #[trigger] b.dir_jump_ok(p, d, c);
        assert(fwd || (b.king_at(p) && bwd)) by {
            match d {
                Direction::UpLeft => {},
                Direction::UpRight => {},
                Direction::DownLeft => {},
                Direction::DownRight => {},
            }
        }
    }
    if fwd || (b.king_at(p) && bwd) {
        assert(b.can_jump_from(p, c)) by {
            if dir_jump_over_ok(b, p, Direction::UpLeft, o) && (man_dir_ok(c, Direction::UpLeft)
                || b.king_at(p)) {
                assert(b.dir_jump_ok(p, Direction::UpLeft, c));
            } else if dir_jump_over_ok(b, p, Direction::UpRight, o) && (man_dir_ok(
                c,
                Direction::UpRight,
            ) || b.king_at(p)) {
                assert(b.dir_jump_ok(p, Direction::UpRight, c));
            } else if dir_jump_over_ok(b, p, Direction::DownLeft, o) && (man_dir_ok(
                c,
                Direction::DownLeft,
            ) || b.king_at(p)) {
                assert(b.dir_jump_ok(p, Direction::DownLeft, c));
            } else if dir_jump_over_ok(b, p, Direction::DownRight, o) && (man_dir_ok(
                c,
                Direction::DownRight,
            ) || b.king_at(p)) {
                assert(b.dir_jump_ok(p, Direction::DownRight, c));
            }
        }
    }
}

} // verus!
