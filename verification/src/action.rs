//! Actions: one of the four diagonal directions, and a compact encoding of a
//! move or capture chain together with its movetext notation.

use vstd::prelude::*;

use crate::error::ParseError;

verus! {

/// One of the four diagonal directions a checkers piece can travel in.
#[derive(Debug, Clone, Copy, PartialEq, Eq, Structural)]
pub enum Direction {
    UpLeft,
    UpRight,
    DownLeft,
    DownRight,
}

/// The raw offset of one diagonal step from square `p`. On the packed
/// 32-square numbering, squares on even rows (`p / 4` even) and odd rows use
/// different offsets.
pub open spec fn step_target(d: Direction, p: int) -> int {
    if (p / 4) % 2 == 0 {
        match d {
            Direction::UpLeft => p - 4,
            Direction::UpRight => p - 3,
            Direction::DownLeft => p + 4,
            Direction::DownRight => p + 5,
        }
    } else {
        match d {
            Direction::UpLeft => p - 5,
            Direction::UpRight => p - 4,
            Direction::DownLeft => p + 3,
            Direction::DownRight => p + 4,
        }
    }
}

/// The raw offset of one diagonal jump (two steps) from square `p`; the same
/// on every row.
pub open spec fn jump_target(d: Direction, p: int) -> int {
    match d {
        Direction::UpLeft => p - 9,
        Direction::UpRight => p - 7,
        Direction::DownLeft => p + 7,
        Direction::DownRight => p + 9,
    }
}

/// The square one diagonal step from `p` in direction `d`, or `None` if the
/// step leaves the board or wraps around a column.
pub open spec fn spec_step(d: Direction, p: u8) -> Option<u8> {
    if p > 31 {
        None
    } else {
        let out = step_target(d, p as int);
        if !(0 <= out <= 31) {
            None
        } else if out % 4 == p as int % 4 || out % 4 == p as int % 4 + 1 || out % 4 == p as int % 4
            - 1 {
            Some(out as u8)
        } else {
            None
        }
    }
}

/// The square one diagonal jump from `p` in direction `d`, or `None` if the
/// jump leaves the board or wraps around a column.
pub open spec fn spec_jump(d: Direction, p: u8) -> Option<u8> {
    if p > 31 {
        None
    } else {
        let out = jump_target(d, p as int);
        if !(0 <= out <= 31) {
            None
        } else if out % 4 == p as int % 4 + 1 || out % 4 == p as int % 4 - 1 {
            Some(out as u8)
        } else {
            None
        }
    }
}

/// The direction that moves or jumps from `source` to `destination`: jump
/// offsets are recognised first, then single-step offsets by row parity.
pub open spec fn spec_between(source: u8, destination: u8) -> Option<Direction> {
    let diff = destination as int - source as int;
    if diff == -9 {
        Some(Direction::UpLeft)
    } else if diff == -7 {
        Some(Direction::UpRight)
    } else if diff == 7 {
        Some(Direction::DownLeft)
    } else if diff == 9 {
        Some(Direction::DownRight)
    } else if (source as int / 4) % 2 == 0 {
        if diff == -4 {
            Some(Direction::UpLeft)
        } else if diff == -3 {
            Some(Direction::UpRight)
        } else if diff == 4 {
            Some(Direction::DownLeft)
        } else if diff == 5 {
            Some(Direction::DownRight)
        } else {
            None
        }
    } else {
        if diff == -5 {
            Some(Direction::UpLeft)
        } else if diff == -4 {
            Some(Direction::UpRight)
        } else if diff == 3 {
            Some(Direction::DownLeft)
        } else if diff == 4 {
            Some(Direction::DownRight)
        } else {
            None
        }
    }
}

impl Direction {
    /// The direction that moves or jumps from `source` to `destination`, if
    /// the pair is one diagonal step or jump apart.
    pub fn between(source: u8, destination: u8) -> (r: Option<Direction>)
        requires
            source <= 31,
            destination <= 31,
        ensures
            r == spec_between(source, destination),
    {
        let diff: i8 = (destination as i8) - (source as i8);

        match diff {
            -9 => return Some(Direction::UpLeft),
            -7 => return Some(Direction::UpRight),
            7 => return Some(Direction::DownLeft),
            9 => return Some(Direction::DownRight),
            _ => (),
        }

        if source / 4 % 2 == 0 {
            match diff {
                -4 => Some(Direction::UpLeft),
                -3 => Some(Direction::UpRight),
                4 => Some(Direction::DownLeft),
                5 => Some(Direction::DownRight),
                _ => None,
            }
        } else {
            match diff {
                -5 => Some(Direction::UpLeft),
                -4 => Some(Direction::UpRight),
                3 => Some(Direction::DownLeft),
                4 => Some(Direction::DownRight),
                _ => None,
            }
        }
    }

    /// The immediate diagonal neighbour of `position` in this direction, or
    /// `None` if it would leave the board or wrap a column.
    pub fn relative_to(&self, position: u8) -> (r: Option<u8>)
        ensures
            r == spec_step(*self, position),
    {
        if position > 31 {
            return None;
        }
        let p = position as i8;
        let out: i8 = if p / 4 % 2 == 0 {
            match *self {
                Direction::UpLeft => p - 4,
                Direction::UpRight => p - 3,
                Direction::DownLeft => p + 4,
                Direction::DownRight => p + 5,
            }
        } else {
            match *self {
                Direction::UpLeft => p - 5,
                Direction::UpRight => p - 4,
                Direction::DownLeft => p + 3,
                Direction::DownRight => p + 4,
            }
        };
        if out < 0 || out > 31 {
            return None;
        }
        let in_col = p % 4;
        let out_col = out % 4;
        if out_col - in_col != 0 && out_col - in_col != 1 && out_col - in_col != -1 {
            return None;
        }
        Some(out as u8)
    }

    /// The square two diagonal steps from `position` in this direction, or
    /// `None` if the jump would leave the board or wrap a column.
    pub fn relative_jump_from(&self, position: u8) -> (r: Option<u8>)
        ensures
            r == spec_jump(*self, position),
    {
        if position > 31 {
            return None;
        }
        let p = position as i8;
        let out: i8 = match *self {
            Direction::UpLeft => p - 9,
            Direction::UpRight => p - 7,
            Direction::DownLeft => p + 7,
            Direction::DownRight => p + 9,
        };
        if out < 0 || out > 31 {
            return None;
        }
        let in_col = p % 4;
        let out_col = out % 4;
        if out_col - in_col != -1 && out_col - in_col != 1 {
            return None;
        }
        Some(out as u8)
    }
}

/// Whether an action is a plain move or a capture chain.
#[derive(Debug, Clone, Copy, PartialEq, Eq, Structural)]
pub enum ActionType {
    Move,
    Jump,
}

/// The mathematical content of an `Action`: the source and destination
/// squares (0..32) and, for a capture chain, the sequence of jump directions.
#[verifier::ext_equal]
pub struct ActionModel {
    pub source: u8,
    pub destination: u8,
    pub dirs: Seq<Direction>,
}

impl ActionModel {
    /// A well-formed action: a plain move goes to a one-step diagonal
    /// neighbour, and a capture chain walks valid jumps from the source to
    /// the destination.
    pub open spec fn wf(self) -> bool {
        &&& self.source < 32
        &&& self.destination < 32
        &&& self.dirs.len() <= 8
        &&& if self.dirs.len() == 0 {
            exists|d: Direction| spec_step(d, self.source) == Some(self.destination)
        } else {
            chain_wf(self.source, self.dirs) && chain_end(self.source, self.dirs) == Some(
                self.destination,
            )
        }
    }
}

/// Every jump in `dirs`, walked from `cur`, stays on the board, and so does
/// each square stepped over.
pub open spec fn chain_wf(cur: u8, dirs: Seq<Direction>) -> bool
    decreases dirs.len(),
{
    dirs.len() == 0 || {
        &&& spec_step(dirs[0], cur) is Some
        &&& spec_jump(dirs[0], cur) matches Some(next) && chain_wf(next, dirs.skip(1))
    }
}

/// The square a chain of jumps from `cur` lands on, if every jump stays on
/// the board.
pub open spec fn chain_end(cur: u8, dirs: Seq<Direction>) -> Option<u8>
    decreases dirs.len(),
{
    if dirs.len() == 0 {
        Some(cur)
    } else {
        match spec_jump(dirs[0], cur) {
            Some(next) => chain_end(next, dirs.skip(1)),
            None => None,
        }
    }
}

/// The two-bit code an `Action` stores for each jump direction.
pub open spec fn dir_code(d: Direction) -> u32 {
    match d {
        Direction::UpLeft => 0,
        Direction::UpRight => 1,
        Direction::DownLeft => 2,
        Direction::DownRight => 3,
    }
}

/// The direction a two-bit code stands for.
pub open spec fn code_dir(b: u32) -> Direction {
    if b == 0 {
        Direction::UpLeft
    } else if b == 1 {
        Direction::UpRight
    } else if b == 2 {
        Direction::DownLeft
    } else {
        Direction::DownRight
    }
}

/// An action on the board, packed into 32 bits: source square (5 bits),
/// destination square (5 bits), number of jumps (4 bits), and up to eight
/// two-bit jump directions.
#[derive(Debug, Clone, Copy, PartialEq, Eq, Structural)]
pub struct Action(u32);

impl Action {
    /// The packed jump-length field never exceeds the eight jumps a chain
    /// can hold.
    #[verifier::type_invariant]
    closed spec fn inv(self) -> bool {
        ((self.0 >> 10) & 15) <= 8
    }
}

impl View for Action {
    type V = ActionModel;

    closed spec fn view(&self) -> ActionModel {
        ActionModel {
            source: (self.0 & 31) as u8,
            destination: ((self.0 >> 5) & 31) as u8,
            dirs: Seq::new(
                ((self.0 >> 10) & 15) as nat,
                |i: int| code_dir((self.0 >> ((2 * i + 15) as u32)) & 3),
            ),
        }
    }
}

/// A mask of five, four or two low bits keeps a `u32` under the
/// corresponding power of two.
proof fn lemma_mask_bounds(x: u32)
    by (bit_vector)
    ensures
        x & 31 < 32,
        (x >> 10) & 15 < 16,
        x & 3 < 4,
{
}

/// How each packed field of an action word reads back out of it.
proof fn lemma_unpack(src: u32, dst: u32, len: u32, dirs: u32)
    by (bit_vector)
    requires
        src < 32,
        dst < 32,
        len < 16,
        dirs < 0x10000,
    ensures
        (src | (dst << 5) | (len << 10) | (dirs << 15)) & 31 == src,
        ((src | (dst << 5) | (len << 10) | (dirs << 15)) >> 5) & 31 == dst,
        ((src | (dst << 5) | (len << 10) | (dirs << 15)) >> 10) & 15 == len,
        forall|i: u32|
            i < 8 ==> #[trigger] ((src | (dst << 5) | (len << 10) | (dirs << 15)) >> (2 * i + 15))
                & 3 == (dirs >> (2 * i)) & 3,
{
}

/// Writing a two-bit code at slot `i` of a direction word leaves the lower
/// slots alone, stores the code at slot `i`, and keeps all higher bits zero.
proof fn lemma_dir_word_push(dirs: u32, code: u32, i: u32)
    by (bit_vector)
    requires
        i < 8,
        code < 4,
        dirs >> (2 * i) == 0,
    ensures
        forall|j: u32|
            j < i ==> #[trigger] ((dirs | (code << (2 * i))) >> (2 * j)) & 3 == (dirs >> (2 * j))
                & 3,
        ((dirs | (code << (2 * i))) >> (2 * i)) & 3 == code,
        (dirs | (code << (2 * i))) >> (2 * (i + 1)) == 0,
        (dirs | (code << (2 * i))) < 0x10000,
{
}

/// Whether two squares (0..32) are one diagonal jump offset apart.
pub open spec fn jump_offset_ok(a: u8, b: u8) -> bool {
    let d = b as int - a as int;
    d == -9 || d == -7 || d == 7 || d == 9
}

/// The direction of the jump offset from `a` to `b`.
pub open spec fn jump_offset_dir(a: u8, b: u8) -> Direction {
    let d = b as int - a as int;
    if d == -9 {
        Direction::UpLeft
    } else if d == -7 {
        Direction::UpRight
    } else if d == 7 {
        Direction::DownLeft
    } else {
        Direction::DownRight
    }
}

/// What `Action::from_vector` makes of a list of 1..=32 position numbers:
/// positions out of range are rejected first, then a list of fewer than two
/// or more than nine positions; a list that is longer than two positions or
/// whose endpoints are not one step apart must be a chain of jump offsets.
pub open spec fn spec_from_vector(positions: Seq<u8>) -> Result<ActionModel, ParseError> {
    if exists|j: int| 0 <= j < positions.len() && !(1 <= #[trigger] positions[j] <= 32) {
        Err(ParseError::PositionValueError)
    } else if positions.len() < 2 || positions.len() > 9 {
        Err(ParseError::MoveQuantityError)
    } else {
        let source = (positions[0] - 1) as u8;
        let destination = (positions[positions.len() - 1] - 1) as u8;
        let abs_diff = if source > destination {
            source - destination
        } else {
            destination - source
        };
        if positions.len() > 2 || !(abs_diff == 3 || abs_diff == 4 || abs_diff == 5) {
            if exists|j: int|
                0 <= j < positions.len() - 1 && !#[trigger] jump_offset_ok(
                    positions[j],
                    positions[j + 1],
                ) {
                Err(ParseError::PositionValueError)
            } else {
                Ok(
                    ActionModel {
                        source,
                        destination,
                        dirs: Seq::new(
                            (positions.len() - 1) as nat,
                            |j: int| jump_offset_dir(positions[j], positions[j + 1]),
                        ),
                    },
                )
            }
        } else {
            Ok(ActionModel { source, destination, dirs: Seq::empty() })
        }
    }
}

impl Action {
    /// Builds an action from a list of position numbers in 1..=32, the first
    /// being the source and the last the destination; three or more
    /// positions, or two that are not one step apart, describe a capture
    /// chain whose consecutive positions must be one jump apart.
    pub fn from_vector(positions: Vec<u8>) -> (r: Result<Action, ParseError>)
        ensures
            spec_from_vector(positions@) matches Ok(m) ==> r matches Ok(a) && a@ == m,
            spec_from_vector(positions@) matches Err(e) ==> r == Err::<Action, ParseError>(e),
    {
        let n = positions.len();

        let mut idx: usize = 0;
        while idx < n
            invariant
                idx <= n,
                n == positions@.len(),
                forall|j: int| 0 <= j < idx ==> 1 <= #[trigger] positions@[j] <= 32,
            decreases n - idx,
        {
            if positions[idx] < 1 || positions[idx] > 32 {
                return Err(ParseError::PositionValueError);
            }
            idx = idx + 1;
        }

        if n < 2 || n > 9 {
            return Err(ParseError::MoveQuantityError);
        }

        let source = positions[0] - 1;
        let destination = positions[n - 1] - 1;

        let mut data: u32 = source as u32;
        data = data | ((destination as u32) << 5);

        let abs_diff = if source > destination {
            source - destination
        } else {
            destination - source
        };

        if n > 2 || (abs_diff != 3 && abs_diff != 4 && abs_diff != 5) {
            let len = (n - 1) as u32;
            let mut dirs: u32 = 0;
            let mut i: usize = 0;
            proof {
                assert(0u32 >> 0u32 == 0u32) by (bit_vector);
            }
            while i < n - 1
                invariant
                    i <= n - 1,
                    2 <= n <= 9,
                    n == positions@.len(),
                    source == positions@[0] - 1,
                    destination == positions@[n - 1] - 1,
                    abs_diff == if source > destination {
                        source - destination
                    } else {
                        destination - source
                    },
                    n > 2 || (abs_diff != 3 && abs_diff != 4 && abs_diff != 5),
                    len == n - 1,
                    forall|j: int| 0 <= j < n ==> 1 <= #[trigger] positions@[j] <= 32,
                    dirs >> ((2 * i) as u32) == 0,
                    dirs < 0x10000,
                    forall|j: int|
                        0 <= j < i ==> #[trigger] (dirs >> ((2 * j) as u32)) & 3 == dir_code(
                            jump_offset_dir(positions@[j], positions@[j + 1]),
                        ),
                    forall|j: int| 0 <= j < i ==> #[trigger] jump_offset_ok(positions@[j], positions@[j + 1]),
                decreases n - 1 - i,
            {
                let diff: i8 = (positions[i + 1] as i8) - (positions[i] as i8);
                let code: u32 = match diff {
                    -9 => 0,
                    -7 => 1,
                    7 => 2,
                    9 => 3,
                    _ => {
                        proof {
                            assert(!jump_offset_ok(positions@[i as int], positions@[i as int + 1]));
                        }
                        return Err(ParseError::PositionValueError);
                    },
                };
                proof {
                    lemma_dir_word_push(dirs, code, i as u32);
                }
                dirs = dirs | (code << ((2 * i) as u32));
                i = i + 1;
            }

            data = data | (len << 10) | (dirs << 15);

            proof {
                lemma_unpack(source as u32, destination as u32, len, dirs);
            }
            let out = Action(data);
            proof {
                let m = spec_from_vector(positions@)->Ok_0;
                assert(m.dirs.len() == n - 1);
                assert forall|k: int| 0 <= k < m.dirs.len() implies out@.dirs[k] == m.dirs[k] by {
                    let ku = k as u32;
                    assert((2 * k + 15) as u32 == 2 * ku + 15);
                    assert((2 * k) as u32 == 2 * ku);
                    assert((data >> (2 * ku + 15)) & 3 == (dirs >> (2 * ku)) & 3);
                    assert((dirs >> ((2 * k) as u32)) & 3 == dir_code(
                        jump_offset_dir(positions@[k], positions@[k + 1]),
                    ));
                    assert(code_dir(dir_code(jump_offset_dir(positions@[k], positions@[k + 1])))
                        == jump_offset_dir(positions@[k], positions@[k + 1]));
                }
                assert(out@ =~= m);
            }
            return Ok(out);
        }

        proof {
            assert(data == (source as u32) | ((destination as u32) << 5) | (0u32 << 10) | (0u32
                << 15)) by (bit_vector)
                requires
                    data == (source as u32) | ((destination as u32) << 5),
            ;
            lemma_unpack(source as u32, destination as u32, 0, 0);
        }
        let out = Action(data);
        proof {
            assert(out@ =~= spec_from_vector(positions@)->Ok_0);
        }
        Ok(out)
    }

    /// The starting square of the action, in 0..32.
    pub fn source(&self) -> (r: u8)
        ensures
            r == self@.source,
            r < 32,
    {
        proof {
            lemma_mask_bounds(self.0);
        }
        (self.0 & 31) as u8
    }

    /// The final square of the action, in 0..32.
    pub fn destination(&self) -> (r: u8)
        ensures
            r == self@.destination,
            r < 32,
    {
        proof {
            lemma_mask_bounds(self.0 >> 5);
        }
        ((self.0 >> 5) & 31) as u8
    }

    /// How many jumps the action makes; zero for a plain move.
    pub fn jump_len(&self) -> (r: u8)
        ensures
            r == self@.dirs.len(),
            r <= 8,
    {
        proof {
            use_type_invariant(&*self);
            lemma_mask_bounds(self.0);
        }
        ((self.0 >> 10) & 15) as u8
    }

    /// The direction of the `i`-th jump, or `None` past the end of the
    /// chain.
    pub fn jump_direction(&self, i: u8) -> (r: Option<Direction>)
        ensures
            i < self@.dirs.len() ==> r == Some(self@.dirs[i as int]),
            i >= self@.dirs.len() ==> r is None,
    {
        proof {
            use_type_invariant(&*self);
        }
        if i >= self.jump_len() {
            return None;
        }
        let bits = (self.0 >> ((i as u32) * 2 + 15)) & 3;
        proof {
            lemma_mask_bounds(self.0 >> ((i as u32) * 2 + 15));
        }
        match bits {
            0 => Some(Direction::UpLeft),
            1 => Some(Direction::UpRight),
            2 => Some(Direction::DownLeft),
            _ => Some(Direction::DownRight),
        }
    }

    /// Whether the action is a plain move or a capture chain.
    pub fn action_type(&self) -> (r: ActionType)
        ensures
            r == (if self@.dirs.len() == 0 {
                ActionType::Move
            } else {
                ActionType::Jump
            }),
    {
        match self.jump_len() {
            0 => ActionType::Move,
            _ => ActionType::Jump,
        }
    }

    /// Renders the action as movetext: the traversed squares, 1-based, joined
    /// by `-`.
    pub fn movetext(&self) -> (r: String)
        requires
            self@.wf(),
        ensures
            r@ == spec_movetext(self@),
    {
        let source = self.source();
        let mut out = String::new();
        append_pos(&mut out, source + 1);
        let jl = self.jump_len();
        if jl == 0 {
            out.append("-");
            append_pos(&mut out, self.destination() + 1);
            proof {
                reveal_strlit("-");
                let rt = route(self@);
                assert(rt.skip(1) =~= seq![(self@.destination + 1) as u8]);
                assert(positions_text(seq![(self@.destination + 1) as u8]) == pos_chars(
                    self@.destination as int + 1,
                ));
                assert(out@ =~= spec_movetext(self@));
            }
            out
        } else {
            proof {
                lemma_positions_text_chain(self@.source, self@.dirs);
                assert(self@.dirs.skip(0) =~= self@.dirs);
            }
            let mut cur = source;
            let mut i: u8 = 0;
            proof {
                assert(out@ + chain_text(cur, self@.dirs.skip(0)) =~= pos_chars(
                    self@.source as int + 1,
                ) + chain_text(self@.source, self@.dirs));
            }
            while i < jl
                invariant
                    self@.wf(),
                    i <= jl,
                    jl == self@.dirs.len(),
                    cur < 32,
                    chain_wf(cur, self@.dirs.skip(i as int)),
                    out@ + chain_text(cur, self@.dirs.skip(i as int)) == pos_chars(
                        self@.source as int + 1,
                    ) + chain_text(self@.source, self@.dirs),
                decreases jl - i,
            {
                let d = self.jump_direction(i).unwrap();
                let next = d.relative_jump_from(cur).unwrap();
                out.append("-");
                append_pos(&mut out, next + 1);
                proof {
                    reveal_strlit("-");
                    let rest = self@.dirs.skip(i as int);
                    assert(rest[0] == self@.dirs[i as int]);
                    assert(rest.skip(1) =~= self@.dirs.skip(i as int + 1));
                    assert(out@ =~= (pos_chars(self@.source as int + 1) + chain_text(
                        self@.source,
                        self@.dirs,
                    )).subrange(
                        0,
                        out@.len() as int,
                    )) by {
                        assert(out@ + chain_text(next, self@.dirs.skip(i as int + 1))
                            =~= pos_chars(self@.source as int + 1) + chain_text(
                            self@.source,
                            self@.dirs,
                        ));
                    }
                    assert(out@ + chain_text(next, self@.dirs.skip(i as int + 1)) == pos_chars(
                        self@.source as int + 1,
                    ) + chain_text(self@.source, self@.dirs));
                }
                cur = next;
                i = i + 1;
            }
            proof {
                assert(self@.dirs.skip(jl as int) =~= Seq::<Direction>::empty());
                assert(chain_text(cur, self@.dirs.skip(jl as int)) == Seq::<char>::empty()) by {
                    assert(Seq::<Direction>::empty().len() == 0);
                }
                assert(out@ + Seq::<char>::empty() =~= out@);
                assert(out@ == pos_chars(self@.source as int + 1) + chain_text(
                    self@.source,
                    self@.dirs,
                ));
                assert(out@ == spec_movetext(self@));
            }
            out
        }
    }

    /// Parses movetext: positions in 1..=32 joined by `-`, handed to
    /// `from_vector`.
    pub fn from_movetext(movetext: &str) -> (r: Result<Action, ParseError>)
        ensures
            spec_from_movetext(movetext@) matches Ok(m) ==> r matches Ok(a) && a@ == m,
            spec_from_movetext(movetext@) matches Err(e) ==> r == Err::<Action, ParseError>(e),
    {
        let len = movetext.unicode_len();
        let mut positions: Vec<u8> = Vec::new();
        let mut acc: u32 = 0;
        let mut digits: usize = 0;
        let ghost mut seg: Seq<char> = Seq::empty();
        let mut idx: usize = 0;
        proof {
            assert(movetext@.skip(0) =~= movetext@);
            let r0 = spec_split_parse(movetext@, Seq::empty());
            if r0 is Ok {
                assert(positions@ + r0->Ok_0 =~= r0->Ok_0);
            }
        }
        while idx < len
            invariant
                idx <= len,
                len == movetext@.len(),
                digits <= idx,
                digits == seg.len(),
                all_digits(seg),
                acc == str_value(seg),
                acc <= 255,
                spec_split_parse(movetext@, Seq::empty()) == (match spec_split_parse(
                    movetext@.skip(idx as int),
                    seg,
                ) {
                    Err(e) => Err::<Seq<u8>, ParseError>(e),
                    Ok(rest) => Ok::<Seq<u8>, ParseError>(positions@ + rest),
                }),
            decreases len - idx,
        {
            let c = movetext.get_char(idx);
            proof {
                assert(movetext@.skip(idx as int)[0] == c);
                assert(movetext@.skip(idx as int).skip(1) =~= movetext@.skip(idx as int + 1));
            }
            if c == '-' {
                if digits == 0 {
                    return Err(ParseError::PositionValueError);
                }
                proof {
                    assert(parse_u8_chars(seg) == Some(acc as u8));
                }
                let ghost old_positions = positions@;
                positions.push(acc as u8);
                proof {
                    let tail = spec_split_parse(movetext@.skip(idx as int + 1), Seq::empty());
                    if tail is Ok {
                        assert(old_positions + (seq![acc as u8] + tail->Ok_0) =~= positions@
                            + tail->Ok_0);
                    }
                    seg = Seq::empty();
                }
                acc = 0;
                digits = 0;
            } else {
                let d = match digit_of(c) {
                    Some(d) => d,
                    None => {
                        proof {
                            let seg2 = seg.push(c);
                            assert(digit_val(seg2.last()) == 10);
                            assert(!all_digits(seg2));
                            lemma_split_parse_bad_seg(movetext@.skip(idx as int + 1), seg2);
                        }
                        return Err(ParseError::PositionValueError);
                    },
                };
                proof {
                    assert(seg.push(c).drop_last() =~= seg);
                    assert(seg.push(c).last() == c);
                    assert forall|j: int| 0 <= j < seg.push(c).len() implies digit_val(
                        #[trigger] seg.push(c)[j],
                    ) < 10 by {
                        if j < seg.len() {
                            assert(seg.push(c)[j] == seg[j]);
                        }
                    }
                }
                acc = acc * 10 + d as u32;
                if acc > 255 {
                    proof {
                        let seg2 = seg.push(c);
                        lemma_split_parse_bad_seg(movetext@.skip(idx as int + 1), seg2);
                    }
                    return Err(ParseError::PositionValueError);
                }
                digits = digits + 1;
                proof {
                    seg = seg.push(c);
                }
            }
            idx = idx + 1;
        }
        proof {
            assert(movetext@.skip(len as int) =~= Seq::<char>::empty());
        }
        if digits == 0 {
            return Err(ParseError::PositionValueError);
        }
        proof {
            assert(parse_u8_chars(seg) == Some(acc as u8));
        }
        let ghost old_positions = positions@;
        positions.push(acc as u8);
        proof {
            assert(old_positions + seq![acc as u8] =~= positions@);
        }
        match Action::from_vector(positions) {
            Ok(a) => Ok(a),
            Err(e) => Err(e),
        }
    }

    /// The direction of a plain move, or `None` for a capture chain.
    pub fn move_direction(&self) -> (r: Option<Direction>)
        ensures
            self@.dirs.len() == 0 ==> r == spec_between(self@.source, self@.destination),
            self@.dirs.len() != 0 ==> r is None,
    {
        if self.jump_len() != 0 {
            return None;
        }
        Direction::between(self.source(), self.destination())
    }
}


/// The character for one decimal digit.
pub open spec fn digit_char(d: int) -> char {
    if d == 0 {
        '0'
    } else if d == 1 {
        '1'
    } else if d == 2 {
        '2'
    } else if d == 3 {
        '3'
    } else if d == 4 {
        '4'
    } else if d == 5 {
        '5'
    } else if d == 6 {
        '6'
    } else if d == 7 {
        '7'
    } else if d == 8 {
        '8'
    } else {
        '9'
    }
}

/// The value of a decimal digit character, or 10 for any other character.
pub open spec fn digit_val(c: char) -> int {
    if c == '0' {
        0
    } else if c == '1' {
        1
    } else if c == '2' {
        2
    } else if c == '3' {
        3
    } else if c == '4' {
        4
    } else if c == '5' {
        5
    } else if c == '6' {
        6
    } else if c == '7' {
        7
    } else if c == '8' {
        8
    } else if c == '9' {
        9
    } else {
        10
    }
}

/// The decimal text of a position number 1..=99: one digit, or two for 10
/// and above.
pub open spec fn pos_chars(v: int) -> Seq<char> {
    if v < 10 {
        seq![digit_char(v)]
    } else {
        seq![digit_char(v / 10), digit_char(v % 10)]
    }
}

/// The movetext of a list of 1-based positions: the positions in decimal,
/// joined by `-`.
pub open spec fn positions_text(ps: Seq<u8>) -> Seq<char>
    decreases ps.len(),
{
    if ps.len() == 0 {
        Seq::empty()
    } else if ps.len() == 1 {
        pos_chars(ps[0] as int)
    } else {
        pos_chars(ps[0] as int) + seq!['-'] + positions_text(ps.skip(1))
    }
}

/// The 1-based landing squares of a chain of jumps from `cur`.
pub open spec fn chain_route(cur: u8, dirs: Seq<Direction>) -> Seq<u8>
    decreases dirs.len(),
{
    if dirs.len() == 0 {
        Seq::empty()
    } else {
        let next = spec_jump(dirs[0], cur)->Some_0;
        seq![(next + 1) as u8] + chain_route(next, dirs.skip(1))
    }
}

/// The 1-based squares an action traverses, source first.
pub open spec fn route(m: ActionModel) -> Seq<u8> {
    if m.dirs.len() == 0 {
        seq![(m.source + 1) as u8, (m.destination + 1) as u8]
    } else {
        seq![(m.source + 1) as u8] + chain_route(m.source, m.dirs)
    }
}

/// The movetext of an action: its traversed squares joined by `-`.
pub open spec fn spec_movetext(m: ActionModel) -> Seq<char> {
    positions_text(route(m))
}

/// The decimal value of a character sequence, reading a non-digit as 10.
pub open spec fn str_value(s: Seq<char>) -> int
    decreases s.len(),
{
    if s.len() == 0 {
        0
    } else {
        str_value(s.drop_last()) * 10 + digit_val(s.last())
    }
}

/// Whether every character of `s` is a decimal digit.
pub open spec fn all_digits(s: Seq<char>) -> bool {
    forall|i: int| 0 <= i < s.len() ==> digit_val(#[trigger] s[i]) < 10
}

/// What parsing a movetext segment as a `u8` yields: the decimal value of a
/// non-empty all-digit segment that fits in a byte, and nothing otherwise.
pub open spec fn parse_u8_chars(s: Seq<char>) -> Option<u8> {
    if s.len() == 0 || !all_digits(s) || str_value(s) > 255 {
        None
    } else {
        Some(str_value(s) as u8)
    }
}

/// Splits `s` on `-` and parses every segment, `seg` being the part of the
/// current segment already read.
pub open spec fn spec_split_parse(s: Seq<char>, seg: Seq<char>) -> Result<Seq<u8>, ParseError>
    decreases s.len(),
{
    if s.len() == 0 {
        match parse_u8_chars(seg) {
            None => Err(ParseError::PositionValueError),
            Some(v) => Ok(seq![v]),
        }
    } else if s[0] == '-' {
        match parse_u8_chars(seg) {
            None => Err(ParseError::PositionValueError),
            Some(v) => match spec_split_parse(s.skip(1), Seq::empty()) {
                Err(e) => Err(e),
                Ok(rest) => Ok(seq![v] + rest),
            },
        }
    } else {
        spec_split_parse(s.skip(1), seg.push(s[0]))
    }
}

/// What `Action::from_movetext` makes of a movetext string: the positions
/// between the `-` delimiters, handed to `from_vector`.
pub open spec fn spec_from_movetext(s: Seq<char>) -> Result<ActionModel, ParseError> {
    match spec_split_parse(s, Seq::empty()) {
        Err(e) => Err(e),
        Ok(ps) => spec_from_vector(ps),
    }
}

/// The value of a sequence of characters never shrinks as characters are
/// appended, and stays above 255 once there.
pub(crate) proof fn lemma_str_value_grows(s: Seq<char>)
    ensures
        str_value(s) >= 0,
        s.len() > 0 ==> str_value(s) >= str_value(s.drop_last()),
    decreases s.len(),
{
    if s.len() > 0 {
        lemma_str_value_grows(s.drop_last());
    }
}

/// A segment that is already unparsable stays unparsable, so the split fails
/// with a position error.
proof fn lemma_split_parse_bad_seg(s: Seq<char>, seg: Seq<char>)
    requires
        seg.len() > 0,
        !all_digits(seg) || str_value(seg) > 255,
    ensures
        spec_split_parse(s, seg) == Err::<Seq<u8>, ParseError>(ParseError::PositionValueError),
    decreases s.len(),
{
    lemma_str_value_grows(seg);
    if s.len() == 0 {
        assert(parse_u8_chars(seg) is None);
    } else if s[0] == '-' {
        assert(parse_u8_chars(seg) is None);
    } else {
        let seg2 = seg.push(s[0]);
        assert(seg2.drop_last() =~= seg);
        if !all_digits(seg) {
            let i = choose|i: int| 0 <= i < seg.len() && digit_val(seg[i]) >= 10;
            assert(seg2[i] == seg[i]);
            assert(!all_digits(seg2));
        } else {
            assert(str_value(seg2) == str_value(seg) * 10 + digit_val(s[0]));
            assert(str_value(seg2) > 255);
        }
        lemma_split_parse_bad_seg(s.skip(1), seg2);
    }
}

/// The text a capture chain appends after its source square: `-` and the
/// landing square, for each jump in turn.
pub open spec fn chain_text(cur: u8, dirs: Seq<Direction>) -> Seq<char>
    decreases dirs.len(),
{
    if dirs.len() == 0 {
        Seq::empty()
    } else {
        let next = spec_jump(dirs[0], cur)->Some_0;
        seq!['-'] + pos_chars(next as int + 1) + chain_text(next, dirs.skip(1))
    }
}

/// Joining the source square onto the landing squares of a chain renders the
/// same text as the source followed by the chain's own text.
proof fn lemma_positions_text_chain(cur: u8, dirs: Seq<Direction>)
    requires
        cur < 32,
        chain_wf(cur, dirs),
    ensures
        positions_text(seq![(cur + 1) as u8] + chain_route(cur, dirs)) == pos_chars(cur as int + 1)
            + chain_text(cur, dirs),
    decreases dirs.len(),
{
    let ps = seq![(cur + 1) as u8] + chain_route(cur, dirs);
    if dirs.len() == 0 {
        assert(ps =~= seq![(cur + 1) as u8]);
        assert(positions_text(ps) == pos_chars(cur as int + 1));
        assert(pos_chars(cur as int + 1) + chain_text(cur, dirs) =~= pos_chars(cur as int + 1));
    } else {
        let next = spec_jump(dirs[0], cur)->Some_0;
        lemma_positions_text_chain(next, dirs.skip(1));
        assert(ps.skip(1) =~= seq![(next + 1) as u8] + chain_route(next, dirs.skip(1)));
        assert(ps.len() >= 2);
        assert(positions_text(ps) == pos_chars(cur as int + 1) + seq!['-'] + positions_text(
            ps.skip(1),
        ));
        assert(pos_chars(cur as int + 1) + seq!['-'] + (pos_chars(next as int + 1) + chain_text(
            next,
            dirs.skip(1),
        )) =~= pos_chars(cur as int + 1) + (seq!['-'] + pos_chars(next as int + 1) + chain_text(
            next,
            dirs.skip(1),
        )));
    }
}

/// The single decimal digit `d`, as a string.
fn digit_str(d: u8) -> (r: &'static str)
    requires
        d <= 9,
    ensures
        r@ == seq![digit_char(d as int)],
{
    let r: &'static str = match d {
        0 => "0",
        1 => "1",
        2 => "2",
        3 => "3",
        4 => "4",
        5 => "5",
        6 => "6",
        7 => "7",
        8 => "8",
        _ => "9",
    };
    proof {
        reveal_strlit("0");
        reveal_strlit("1");
        reveal_strlit("2");
        reveal_strlit("3");
        reveal_strlit("4");
        reveal_strlit("5");
        reveal_strlit("6");
        reveal_strlit("7");
        reveal_strlit("8");
        reveal_strlit("9");
        assert(r@ =~= seq![digit_char(d as int)]);
    }
    r
}

/// Appends the decimal text of `p` to `out`.
pub(crate) fn append_pos(out: &mut String, p: u8)
    requires
        1 <= p <= 99,
    ensures
        final(out)@ == old(out)@ + pos_chars(p as int),
{
    if p >= 10 {
        out.append(digit_str(p / 10));
        out.append(digit_str(p % 10));
        proof {
            assert(final(out)@ =~= old(out)@ + pos_chars(p as int));
        }
    } else {
        out.append(digit_str(p));
        proof {
            assert(final(out)@ =~= old(out)@ + pos_chars(p as int));
        }
    }
}

/// The value of the digit character `c`, or `None` for any other character.
fn digit_of(c: char) -> (r: Option<u8>)
    ensures
        r matches Some(d) ==> digit_val(c) == d && d < 10,
        r is None ==> digit_val(c) == 10,
{
    match c {
        '0' => Some(0),
        '1' => Some(1),
        '2' => Some(2),
        '3' => Some(3),
        '4' => Some(4),
        '5' => Some(5),
        '6' => Some(6),
        '7' => Some(7),
        '8' => Some(8),
        '9' => Some(9),
        _ => None,
    }
}


/// The value of the character of a digit is that digit.
proof fn lemma_digit_roundtrip(d: int)
    requires
        0 <= d <= 9,
    ensures
        digit_val(digit_char(d)) == d,
{
    if d == 0 {
    } else if d == 1 {
    } else if d == 2 {
    } else if d == 3 {
    } else if d == 4 {
    } else if d == 5 {
    } else if d == 6 {
    } else if d == 7 {
    } else if d == 8 {
    } else {
    }
}

/// The decimal text of a position in 1..=32 parses back to its value, and
/// holds only digits.
proof fn lemma_pos_chars_value(v: u8)
    requires
        1 <= v <= 32,
    ensures
        all_digits(pos_chars(v as int)),
        str_value(pos_chars(v as int)) == v,
        pos_chars(v as int).len() >= 1,
        forall|i: int|
            0 <= i < pos_chars(v as int).len() ==> digit_val(#[trigger] pos_chars(v as int)[i])
                < 10,
{
    let t = pos_chars(v as int);
    if v < 10 {
        assert(t =~= seq![digit_char(v as int)]);
        assert(t.drop_last() =~= Seq::<char>::empty());
        lemma_digit_roundtrip(v as int);
        assert(t.last() == digit_char(v as int));
        assert(str_value(Seq::<char>::empty()) == 0);
        assert(str_value(t) == v);
    } else {
        let d1 = digit_char(v as int / 10);
        let d2 = digit_char(v as int % 10);
        assert(t =~= seq![d1, d2]);
        assert(t.drop_last() =~= seq![d1]);
        assert(seq![d1].drop_last() =~= Seq::<char>::empty());
        lemma_digit_roundtrip(v as int / 10);
        lemma_digit_roundtrip(v as int % 10);
        assert(digit_val(d1) == v as int / 10);
        assert(digit_val(d2) == v as int % 10);
        assert(seq![d1].last() == d1);
        assert(t.last() == d2);
        assert(str_value(Seq::<char>::empty()) == 0);
        assert(str_value(seq![d1]) == v as int / 10);
        assert(str_value(t) == (v as int / 10) * 10 + v as int % 10);
        assert((v as int / 10) * 10 + v as int % 10 == v);
    }
}

/// Splitting the rendered text of a list of positions in 1..=32 gives back
/// exactly those positions.
proof fn lemma_parse_positions_text(ps: Seq<u8>)
    requires
        ps.len() >= 1,
        forall|i: int| 0 <= i < ps.len() ==> 1 <= #[trigger] ps[i] <= 32,
    ensures
        spec_split_parse(positions_text(ps), Seq::empty()) == Ok::<Seq<u8>, ParseError>(ps),
    decreases ps.len(),
{
    let v = ps[0];
    let t = pos_chars(v as int);
    lemma_pos_chars_value(v);
    let rest = if ps.len() == 1 {
        Seq::<char>::empty()
    } else {
        seq!['-'] + positions_text(ps.skip(1))
    };
    let whole = positions_text(ps);
    assert(whole =~= t + rest);

    // walk the digits of the first position into the segment accumulator
    if v < 10 {
        assert(t =~= seq![digit_char(v as int)]);
        assert(whole[0] == digit_char(v as int));
        assert(digit_val(whole[0]) < 10);
        assert(whole[0] != '-');
        assert(whole.skip(1) =~= rest);
        assert(Seq::<char>::empty().push(whole[0]) =~= t);
        assert(spec_split_parse(whole, Seq::empty()) == spec_split_parse(rest, t));
    } else {
        let d1 = digit_char(v as int / 10);
        let d2 = digit_char(v as int % 10);
        assert(t =~= seq![d1, d2]);
        assert(whole[0] == d1);
        assert(digit_val(d1) < 10 && d1 != '-');
        assert(whole.skip(1) =~= seq![d2] + rest);
        assert(Seq::<char>::empty().push(d1) =~= seq![d1]);
        let whole1 = whole.skip(1);
        assert(whole1[0] == d2);
        assert(digit_val(d2) < 10 && d2 != '-');
        assert(whole1.skip(1) =~= rest);
        assert(seq![d1].push(d2) =~= t);
        assert(spec_split_parse(whole, Seq::empty()) == spec_split_parse(whole1, seq![d1]));
        assert(spec_split_parse(whole1, seq![d1]) == spec_split_parse(rest, t));
    }

    assert(parse_u8_chars(t) == Some(v));

    if ps.len() == 1 {
        assert(spec_split_parse(rest, t) == Ok::<Seq<u8>, ParseError>(seq![v]));
        assert(seq![v] =~= ps);
    } else {
        assert(rest[0] == '-');
        assert(rest.skip(1) =~= positions_text(ps.skip(1)));
        lemma_parse_positions_text(ps.skip(1));
        assert(spec_split_parse(rest, t) == Ok::<Seq<u8>, ParseError>(seq![v] + ps.skip(1)));
        assert(seq![v] + ps.skip(1) =~= ps);
    }
}

/// The landing squares of a well-formed chain: there are as many as there
/// are jumps, each is a playable square written 1-based, consecutive ones
/// are one jump offset apart in the chain's direction, and the last is the
/// chain's end.
#[verifier::rlimit(100)]
#[verifier::spinoff_prover]
proof fn lemma_chain_route(cur: u8, dirs: Seq<Direction>)
    requires
        cur < 32,
        chain_wf(cur, dirs),
        dirs.len() >= 1,
    ensures
        chain_route(cur, dirs).len() == dirs.len(),
        forall|j: int| 0 <= j < dirs.len() ==> 1 <= #[trigger] chain_route(cur, dirs)[j] <= 32,
        jump_offset_ok((cur + 1) as u8, chain_route(cur, dirs)[0]),
        jump_offset_dir((cur + 1) as u8, chain_route(cur, dirs)[0]) == dirs[0],
        forall|j: int|
            0 <= j < dirs.len() - 1 ==> jump_offset_ok(
                #[trigger] chain_route(cur, dirs)[j],
                chain_route(cur, dirs)[j + 1],
            ) && jump_offset_dir(chain_route(cur, dirs)[j], chain_route(cur, dirs)[j + 1]) == dirs[j
                + 1],
        chain_end(cur, dirs) matches Some(e) && chain_route(cur, dirs).last() == e + 1,
    decreases dirs.len(),
{
    let next = spec_jump(dirs[0], cur)->Some_0;
    let rt = chain_route(cur, dirs);
    assert(rt =~= seq![(next + 1) as u8] + chain_route(next, dirs.skip(1)));
    assert(spec_jump(dirs[0], cur) is Some);
    assert(next as int == jump_target(dirs[0], cur as int));
    assert(next as int - cur as int == jump_target(dirs[0], cur as int) - cur as int);
    if dirs.len() == 1 {
        assert(dirs.skip(1) =~= Seq::<Direction>::empty());
        assert(rt =~= seq![(next + 1) as u8]);
    } else {
        lemma_chain_route(next, dirs.skip(1));
        let rt2 = chain_route(next, dirs.skip(1));
        assert(dirs.skip(1)[0] == dirs[1]);
        assert forall|j: int| 0 <= j < dirs.len() - 1 implies jump_offset_ok(
            #[trigger] rt[j],
            rt[j + 1],
        ) && jump_offset_dir(rt[j], rt[j + 1]) == dirs[j + 1] by {
            if j == 0 {
                assert(rt[0] == (next + 1) as u8);
                assert(rt[1] == rt2[0]);
            } else {
                assert(rt[j] == rt2[j - 1]);
                assert(rt[j + 1] == rt2[j]);
                assert(dirs.skip(1)[j] == dirs[j + 1]);
            }
        }
        assert(rt.last() == rt2.last());
    }
}

/// Round trip: rendering a well-formed action as movetext and parsing it
/// back yields the same action. This is the law the engine's notation rests
/// on: `from_movetext(movetext(a))` returns `a` for every well-formed `a`.
#[verifier::rlimit(100)]
#[verifier::spinoff_prover]
pub proof fn lemma_movetext_roundtrip(m: ActionModel)
    requires
        m.wf(),
    ensures
        spec_from_movetext(spec_movetext(m)) == Ok::<ActionModel, ParseError>(m),
{
    let rt = route(m);
    if m.dirs.len() == 0 {
        assert(exists|d: Direction| spec_step(d, m.source) == Some(m.destination));
        let d = choose|d: Direction| spec_step(d, m.source) == Some(m.destination);
        assert(rt =~= seq![(m.source + 1) as u8, (m.destination + 1) as u8]);
        assert(forall|i: int| 0 <= i < rt.len() ==> 1 <= #[trigger] rt[i] <= 32);
        lemma_parse_positions_text(rt);
        let sv = spec_from_vector(rt);
        assert(rt[0] == m.source + 1 && rt[1] == m.destination + 1);
        assert(spec_step(d, m.source) == Some(m.destination));
        assert(spec_step(d, m.source) is Some);
        assert(m.destination as int == step_target(d, m.source as int));
        let source = (rt[0] - 1) as u8;
        let destination = (rt[rt.len() - 1] - 1) as u8;
        let abs_diff = if source > destination {
            source - destination
        } else {
            destination - source
        };
        assert(abs_diff == 3 || abs_diff == 4 || abs_diff == 5);
        assert(sv matches Ok(m2) && m2 =~= m);
    } else {
        lemma_chain_route(m.source, m.dirs);
        let rt2 = chain_route(m.source, m.dirs);
        assert(rt =~= seq![(m.source + 1) as u8] + rt2);
        assert(forall|j: int| 0 <= j < rt2.len() ==> 1 <= #[trigger] rt2[j] <= 32);
        assert forall|i: int| 0 <= i < rt.len() implies 1 <= #[trigger] rt[i] <= 32 by {
            if i > 0 {
                assert(rt[i] == rt2[i - 1]);
            }
        }
        lemma_parse_positions_text(rt);
        let sv = spec_from_vector(rt);
        assert(rt.len() == m.dirs.len() + 1);
        // every consecutive pair of the route is one jump offset apart
        assert forall|j: int| 0 <= j < rt.len() - 1 implies #[trigger] jump_offset_ok(
            rt[j],
            rt[j + 1],
        ) && jump_offset_dir(rt[j], rt[j + 1]) == m.dirs[j] by {
            if j == 0 {
                assert(rt[0] == (m.source + 1) as u8);
                assert(rt[1] == rt2[0]);
            } else {
                assert(rt[j] == rt2[j - 1]);
                assert(rt[j + 1] == rt2[j]);
            }
        }
        let source = (rt[0] - 1) as u8;
        let destination = (rt[rt.len() - 1] - 1) as u8;
        assert(source == m.source);
        assert(chain_end(m.source, m.dirs) == Some(m.destination));
        assert(destination == m.destination);
        if rt.len() == 2 {
            let abs_diff = if source > destination {
                source - destination
            } else {
                destination - source
            };
            assert(jump_offset_ok(rt[0], rt[1]));
            assert(!(abs_diff == 3 || abs_diff == 4 || abs_diff == 5));
        }
        assert(sv matches Ok(m2) && m2.dirs =~= m.dirs && m2 =~= m);
    }
}

} // verus!
