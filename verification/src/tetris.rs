//! Tetris (Help > Tetris).
//!
//! Pieces of four blocks fall into a well of ten columns and twenty rows. Full rows vanish and
//! score; the more rows have vanished, the faster the pieces fall. The game is over when a new piece
//! finds its place taken.
use vstd::prelude::*;
use vstd::string::*;
use crate::geometry;
use crate::geometry::Rect;
use crate::keys::{KB_DOWN, KB_ESC, KB_LEFT, KB_RIGHT, KB_SPACE, KB_UP};
use crate::random;
use crate::screen;
use crate::screen::Canvas;
use crate::text;

verus! {

/// The size of the well in blocks.
pub const TETRIS_WIDTH: usize = 10;

pub const TETRIS_HEIGHT: usize = 20;

/// The kinds of pieces.
#[derive(Clone, Copy, PartialEq, Eq, Debug, Structural)]
pub enum TetrominoType {
    I,
    J,
    L,
    O,
    S,
    T,
    Z,
}

/// A piece: its kind, its center, and how many quarter turns it has made.
#[derive(Clone, Copy, PartialEq, Eq, Debug, Structural)]
pub struct Tetromino {
    pub ttype: TetrominoType,
    pub x: i8,
    pub y: i8,
    pub rotation: u8,
}

/// A game and the rectangle that it is shown in.
pub struct TetrisView {
    pub bounds: Rect,
    pub board: [[Option<TetrominoType>; TETRIS_WIDTH]; TETRIS_HEIGHT],
    pub current: Option<Tetromino>,
    pub next: TetrominoType,
    pub score: u32,
    pub lines: u32,
    pub level: u32,
    pub game_over: bool,
    pub tick_timer: u32,
}

/// The state of a game.
#[verifier::ext_equal]
pub struct Well {
    pub board: Seq<Seq<Option<TetrominoType>>>,
    pub current: Option<Tetromino>,
    pub next: TetrominoType,
    pub score: int,
    pub lines: int,
    pub level: int,
    pub over: bool,
    pub timer: int,
}

/// Where the blocks of a kind of piece lie relative to its center after some quarter turns.
pub open spec fn shape(kind: TetrominoType, turns: int) -> Seq<(int, int)> {
    let turns = turns % 4;
    match kind {
        TetrominoType::I => if turns % 2 == 0 {
            seq![(-2, 0), (-1, 0), (0, 0), (1, 0)]
        } else {
            seq![(0, -1), (0, 0), (0, 1), (0, 2)]
        },
        TetrominoType::J => if turns == 0 {
            seq![(-1, 0), (-1, -1), (0, 0), (1, 0)]
        } else if turns == 1 {
            seq![(1, -1), (0, -1), (0, 0), (0, 1)]
        } else if turns == 2 {
            seq![(-1, 0), (0, 0), (1, 0), (1, 1)]
        } else {
            seq![(0, -1), (0, 0), (0, 1), (-1, 1)]
        },
        TetrominoType::L => if turns == 0 {
            seq![(1, 0), (1, -1), (0, 0), (-1, 0)]
        } else if turns == 1 {
            seq![(0, -1), (0, 0), (0, 1), (1, 1)]
        } else if turns == 2 {
            seq![(-1, 0), (0, 0), (1, 0), (-1, 1)]
        } else {
            seq![(-1, -1), (0, -1), (0, 0), (0, 1)]
        },
        TetrominoType::O => seq![(0, 0), (1, 0), (0, 1), (1, 1)],
        TetrominoType::S => if turns % 2 == 0 {
            seq![(-1, 0), (0, 0), (0, -1), (1, -1)]
        } else {
            seq![(0, 0), (0, -1), (-1, -1), (-1, -2)]
        },
        TetrominoType::T => if turns == 0 {
            seq![(-1, 0), (0, 0), (1, 0), (0, -1)]
        } else if turns == 1 {
            seq![(0, -1), (0, 0), (0, 1), (1, 0)]
        } else if turns == 2 {
            seq![(-1, 0), (0, 0), (1, 0), (0, 1)]
        } else {
            seq![(0, -1), (0, 0), (0, 1), (-1, 0)]
        },
        TetrominoType::Z => if turns % 2 == 0 {
            seq![(0, 0), (1, 0), (-1, -1), (0, -1)]
        } else {
            seq![(0, 0), (0, -1), (1, -1), (1, -2)]
        },
    }
}

/// Every shape has four blocks, no more than two away from its center, one of them at its center.
pub proof fn shape_is_compact(kind: TetrominoType, turns: int)
    ensures
        shape(kind, turns).len() == 4,
        forall|k: int|
            0 <= k < 4 ==> -2 <= (#[trigger] shape(kind, turns)[k]).0 <= 2 && -2 <= shape(
                kind,
                turns,
            )[k].1 <= 2,
        shape(kind, turns).contains((0, 0)),
{
    let s = shape(kind, turns);
    assert(s[0] == (0int, 0int) || s[1] == (0int, 0int) || s[2] == (0int, 0int));
}

/// Four quarter turns lead back.
pub proof fn full_turn_is_none(kind: TetrominoType, turns: int)
    ensures
        shape(kind, turns + 4) == shape(kind, turns),
{
}

/// A place after a quarter turn clockwise about the center. Rows are counted downwards.
pub open spec fn quarter(p: (int, int)) -> (int, int) {
    (-p.1, p.0)
}

/// How far a kind of piece moves off its center with a turn: a bar, a square and the two zigzags have
/// no block in their middle to turn about.
pub open spec fn drift(kind: TetrominoType, turns: int) -> (int, int) {
    let upright = turns % 2 == 1;
    match kind {
        TetrominoType::I => if upright {
            (0, 0)
        } else {
            (0, 1)
        },
        TetrominoType::O => (1, 0),
        TetrominoType::S => if upright {
            (-1, 0)
        } else {
            (-1, -1)
        },
        TetrominoType::Z => if upright {
            (-1, -1)
        } else {
            (0, -1)
        },
        _ => (0, 0),
    }
}

/// The places of a piece after a quarter turn clockwise and a move by `by`.
pub open spec fn turned_places(s: Seq<(int, int)>, by: (int, int)) -> Seq<(int, int)> {
    Seq::new(s.len(), |k: int| (quarter(s[k]).0 + by.0, quarter(s[k]).1 + by.1))
}

/// Every turn is a quarter turn clockwise: of the T, the J and the L about the center, of the others
/// but for a move.
pub proof fn turns_are_clockwise(kind: TetrominoType, turns: int)
    ensures
        shape(kind, turns + 1).to_set() == turned_places(
            shape(kind, turns),
            drift(kind, turns),
        ).to_set(),
        kind is T || kind is J || kind is L ==> drift(kind, turns) == (0int, 0int),
{
    let a = shape(kind, turns + 1);
    let b = turned_places(shape(kind, turns), drift(kind, turns));
    assert((turns + 1) % 4 == (turns % 4 + 1) % 4);
    assert(turns % 2 == (turns % 4) % 2);
    assert forall|p: (int, int)| a.contains(p) implies b.contains(p) by {
        assert(b[0] == p || b[1] == p || b[2] == p || b[3] == p);
    }
    assert forall|p: (int, int)| b.contains(p) implies a.contains(p) by {
        assert(a[0] == p || a[1] == p || a[2] == p || a[3] == p);
    }
    assert(a.to_set() =~= b.to_set());
}

/// The foreground color of a kind of piece.
pub open spec fn color(kind: TetrominoType) -> u8 {
    match kind {
        TetrominoType::I => 0x0b,
        TetrominoType::J => 0x09,
        TetrominoType::L => 0x0e,
        TetrominoType::O => 0x0a,
        TetrominoType::S => 0x0c,
        TetrominoType::T => 0x0d,
        TetrominoType::Z => 0x0f,
    }
}

impl TetrominoType {
    /// The foreground color of a kind of piece: light cyan, light blue, yellow, light green, light
    /// red, light magenta or white.
    pub fn fg(self) -> (r: u8)
        ensures
            r == color(self),
    {
        match self {
            TetrominoType::I => 0x0b,
            TetrominoType::J => 0x09,
            TetrominoType::L => 0x0e,
            TetrominoType::O => 0x0a,
            TetrominoType::S => 0x0c,
            TetrominoType::T => 0x0d,
            TetrominoType::Z => 0x0f,
        }
    }
}

impl Tetromino {
    /// Where the blocks of the piece lie.
    pub open spec fn cells(self) -> Seq<(int, int)> {
        let s = shape(self.ttype, self.rotation as int);
        Seq::new(4, |k: int| (s[k].0 + self.x, s[k].1 + self.y))
    }

    /// Whether the places of all blocks are representable.
    pub open spec fn addressable(self) -> bool {
        forall|k: int|
            0 <= k < 4 ==> i8::MIN <= (#[trigger] self.cells()[k]).0 <= i8::MAX && i8::MIN
                <= self.cells()[k].1 <= i8::MAX
    }

    /// Whether all blocks lie between the walls and above the floor.
    pub open spec fn inside(self) -> bool {
        forall|k: int|
            0 <= k < 4 ==> 0 <= (#[trigger] self.cells()[k]).0 < TETRIS_WIDTH && self.cells()[k].1
                < TETRIS_HEIGHT
    }

    /// What holds of a piece in the well.
    pub open spec fn wf(self) -> bool {
        self.inside() && self.y >= 0 && self.rotation < 4
    }

    /// The piece moved.
    pub open spec fn shifted(self, dx: int, dy: int) -> Tetromino {
        Tetromino { x: (self.x + dx) as i8, y: (self.y + dy) as i8, ..self }
    }

    /// The piece after a quarter turn.
    pub open spec fn turned(self) -> Tetromino {
        Tetromino { rotation: ((self.rotation + 1) % 4) as u8, ..self }
    }

    /// A new piece.
    pub fn new(ttype: TetrominoType) -> (r: Tetromino)
        ensures
            r == start(ttype),
    {
        Tetromino { ttype, x: 3, y: 0, rotation: 0 }
    }

    fn base(&self) -> (r: [(i8, i8); 4])
        ensures
            forall|k: int|
                0 <= k < 4 ==> ((#[trigger] r@[k]).0 as int, r@[k].1 as int) == shape(
                    self.ttype,
                    self.rotation as int,
                )[k],
    {
        let turns: u8 = self.rotation % 4;
        match self.ttype {
            TetrominoType::I => if turns % 2 == 0 {
                [(-2, 0), (-1, 0), (0, 0), (1, 0)]
            } else {
                [(0, -1), (0, 0), (0, 1), (0, 2)]
            },
            TetrominoType::J => if turns == 0 {
                [(-1, 0), (-1, -1), (0, 0), (1, 0)]
            } else if turns == 1 {
                [(1, -1), (0, -1), (0, 0), (0, 1)]
            } else if turns == 2 {
                [(-1, 0), (0, 0), (1, 0), (1, 1)]
            } else {
                [(0, -1), (0, 0), (0, 1), (-1, 1)]
            },
            TetrominoType::L => if turns == 0 {
                [(1, 0), (1, -1), (0, 0), (-1, 0)]
            } else if turns == 1 {
                [(0, -1), (0, 0), (0, 1), (1, 1)]
            } else if turns == 2 {
                [(-1, 0), (0, 0), (1, 0), (-1, 1)]
            } else {
                [(-1, -1), (0, -1), (0, 0), (0, 1)]
            },
            TetrominoType::O => [(0, 0), (1, 0), (0, 1), (1, 1)],
            TetrominoType::S => if turns % 2 == 0 {
                [(-1, 0), (0, 0), (0, -1), (1, -1)]
            } else {
                [(0, 0), (0, -1), (-1, -1), (-1, -2)]
            },
            TetrominoType::T => if turns == 0 {
                [(-1, 0), (0, 0), (1, 0), (0, -1)]
            } else if turns == 1 {
                [(0, -1), (0, 0), (0, 1), (1, 0)]
            } else if turns == 2 {
                [(-1, 0), (0, 0), (1, 0), (0, 1)]
            } else {
                [(0, -1), (0, 0), (0, 1), (-1, 0)]
            },
            TetrominoType::Z => if turns % 2 == 0 {
                [(0, 0), (1, 0), (-1, -1), (0, -1)]
            } else {
                [(0, 0), (0, -1), (1, -1), (1, -2)]
            },
        }
    }

    /// Where the blocks of the piece lie.
    pub fn blocks(&self) -> (r: [(i8, i8); 4])
        requires
            self.addressable(),
        ensures
            forall|k: int|
                0 <= k < 4 ==> ((#[trigger] r@[k]).0 as int, r@[k].1 as int) == self.cells()[k],
    {
        let b: [(i8, i8); 4] = self.base();
        assert(self.cells()[0] == (b@[0].0 + self.x, b@[0].1 + self.y));
        assert(self.cells()[1] == (b@[1].0 + self.x, b@[1].1 + self.y));
        assert(self.cells()[2] == (b@[2].0 + self.x, b@[2].1 + self.y));
        assert(self.cells()[3] == (b@[3].0 + self.x, b@[3].1 + self.y));
        [
            (b[0].0 + self.x, b[0].1 + self.y),
            (b[1].0 + self.x, b[1].1 + self.y),
            (b[2].0 + self.x, b[2].1 + self.y),
            (b[3].0 + self.x, b[3].1 + self.y),
        ]
    }

    /// The piece after a quarter turn.
    pub fn rotated(&self) -> (r: Tetromino)
        requires
            self.rotation < u8::MAX,
        ensures
            r == self.turned(),
    {
        Tetromino { rotation: (self.rotation + 1) % 4, ..*self }
    }

    /// The piece moved.
    pub fn moved(&self, dx: i8, dy: i8) -> (r: Tetromino)
        requires
            i8::MIN <= self.x + dx <= i8::MAX,
            i8::MIN <= self.y + dy <= i8::MAX,
        ensures
            r == self.shifted(dx as int, dy as int),
    {
        Tetromino { x: self.x + dx, y: self.y + dy, ..*self }
    }
}

/// A new piece of a kind, at the top of the well.
pub open spec fn start(kind: TetrominoType) -> Tetromino {
    Tetromino { ttype: kind, x: 3, y: 0, rotation: 0 }
}

/// A well without blocks.
pub open spec fn empty_board() -> Seq<Seq<Option<TetrominoType>>> {
    Seq::new(20, |y: int| empty_row())
}

/// A row without blocks.
pub open spec fn empty_row() -> Seq<Option<TetrominoType>> {
    Seq::new(10, |x: int| None)
}

/// Whether a cell is in the well.
pub open spec fn in_well(c: (int, int)) -> bool {
    0 <= c.0 < TETRIS_WIDTH && 0 <= c.1 < TETRIS_HEIGHT
}

/// Whether a cell is in the well and holds a block.
pub open spec fn taken(board: Seq<Seq<Option<TetrominoType>>>, c: (int, int)) -> bool {
    in_well(c) && board[c.1][c.0] is Some
}

/// Whether a piece has its place: inside, and on no block.
pub open spec fn placeable(board: Seq<Seq<Option<TetrominoType>>>, t: Tetromino) -> bool {
    t.inside() && forall|k: int| 0 <= k < 4 ==> !taken(board, #[trigger] t.cells()[k])
}

/// The well with the blocks of a piece in it.
pub open spec fn stamped(board: Seq<Seq<Option<TetrominoType>>>, t: Tetromino) -> Seq<
    Seq<Option<TetrominoType>>,
> {
    Seq::new(
        20,
        |y: int|
            Seq::new(
                10,
                |x: int|
                    if t.cells().contains((x, y)) {
                        Some(t.ttype)
                    } else {
                        board[y][x]
                    },
            ),
    )
}

/// Whether all cells of a row hold blocks.
pub open spec fn full(row: Seq<Option<TetrominoType>>) -> bool {
    forall|x: int| 0 <= x < row.len() ==> (#[trigger] row[x]) is Some
}

/// The rows that are not full, in order.
pub open spec fn kept(rows: Seq<Seq<Option<TetrominoType>>>) -> Seq<Seq<Option<TetrominoType>>>
    decreases rows.len(),
{
    if rows.len() == 0 {
        Seq::empty()
    } else if full(rows[0]) {
        kept(rows.drop_first())
    } else {
        seq![rows[0]] + kept(rows.drop_first())
    }
}

/// How many rows vanish: all full rows, unless only the top row is full.
pub open spec fn vanishing(board: Seq<Seq<Option<TetrominoType>>>) -> int {
    if exists|y: int| 1 <= y < board.len() && full(#[trigger] board[y]) {
        board.len() - kept(board).len()
    } else {
        0
    }
}

/// The well after the full rows have vanished: the others sink, and empty rows take their places.
pub open spec fn cleared(board: Seq<Seq<Option<TetrominoType>>>) -> Seq<
    Seq<Option<TetrominoType>>,
> {
    if vanishing(board) > 0 {
        Seq::new(vanishing(board) as nat, |y: int| empty_row()) + kept(board)
    } else {
        board
    }
}

/// What a number of vanished rows scores at a level.
pub open spec fn reward(rows: int, level: int) -> int {
    if rows == 1 {
        40 * (level + 1)
    } else if rows == 2 {
        100 * (level + 1)
    } else if rows == 3 {
        300 * (level + 1)
    } else if rows == 4 {
        1200 * (level + 1)
    } else {
        0
    }
}

/// How many ticks a piece takes for a row at a level.
pub open spec fn speed(level: int) -> int {
    if 1 <= level <= 9 {
        53 - 5 * level
    } else {
        5
    }
}

/// Where a piece lands that falls as far as it can.
pub open spec fn landed(board: Seq<Seq<Option<TetrominoType>>>, t: Tetromino) -> Tetromino
    decreases 20 - t.y,
{
    if t.y < 20 && placeable(board, t.shifted(0, 1)) {
        landed(board, t.shifted(0, 1))
    } else {
        t
    }
}

/// A piece after a quarter turn: in its place or, where it does not fit there, one or two columns
/// beside it; unturned, where it fits nowhere.
pub open spec fn kicked(board: Seq<Seq<Option<TetrominoType>>>, t: Tetromino) -> Tetromino {
    let r = t.turned();
    if placeable(board, r) {
        r
    } else if placeable(board, r.shifted(-1, 0)) {
        r.shifted(-1, 0)
    } else if placeable(board, r.shifted(1, 0)) {
        r.shifted(1, 0)
    } else if placeable(board, r.shifted(-2, 0)) {
        r.shifted(-2, 0)
    } else if placeable(board, r.shifted(2, 0)) {
        r.shifted(2, 0)
    } else {
        t
    }
}

impl Well {
    /// What holds of every game: the falling piece is between the walls and above the floor, and
    /// the rest is sound.
    pub open spec fn wf(self) -> bool {
        &&& self.sound()
        &&& self.current matches Some(t) ==> t.wf()
    }

    /// What holds of every game but for the falling piece: the well has its size, and the level
    /// follows from the rows that have vanished.
    pub open spec fn sound(self) -> bool {
        &&& self.board.len() == 20
        &&& forall|y: int| 0 <= y < 20 ==> (#[trigger] self.board[y]).len() == 10
        &&& self.score >= 0
        &&& self.lines >= 0
        &&& self.level == self.lines / 10 + 1
        &&& 0 <= self.timer < 48
    }

    /// Whether score and rows can be counted.
    pub open spec fn countable(self) -> bool {
        self.score <= u32::MAX && self.lines <= u32::MAX
    }

    /// The game with the next piece in play; `drawn` comes after it. The game is over where a block
    /// of the piece lies on another.
    pub open spec fn spawned(self, drawn: TetrominoType) -> Well {
        let t = start(self.next);
        Well {
            current: Some(t),
            next: drawn,
            over: self.over || exists|k: int|
                0 <= k < 4 && taken(self.board, #[trigger] t.cells()[k]),
            ..self
        }
    }

    /// The game after full rows have vanished.
    pub open spec fn swept(self) -> Well {
        let n = vanishing(self.board);
        if n > 0 {
            Well {
                board: cleared(self.board),
                lines: self.lines + n,
                score: self.score + reward(n, self.level),
                level: (self.lines + n) / 10 + 1,
                ..self
            }
        } else {
            self
        }
    }

    /// The game after the falling piece has become part of the well.
    pub open spec fn locked(self, drawn: TetrominoType) -> Well {
        match self.current {
            Some(t) => Well { board: stamped(self.board, t), current: None, ..self }.swept().spawned(
                drawn,
            ),
            None => self,
        }
    }

    /// The game after the falling piece has been dropped: two points for each row that it fell.
    pub open spec fn dropped(self, drawn: TetrominoType) -> Well {
        match self.current {
            Some(t) => {
                let low = landed(self.board, t);
                Well { current: Some(low), score: self.score + 2 * (low.y - t.y), ..self }.locked(
                    drawn,
                )
            },
            None => self,
        }
    }

    /// The game after a tick.
    pub open spec fn ticked(self, drawn: TetrominoType) -> Well {
        if self.over {
            self
        } else if self.timer + 1 < speed(self.level) {
            Well { timer: self.timer + 1, ..self }
        } else {
            let next = Well { timer: 0, ..self };
            match self.current {
                Some(t) => if placeable(self.board, t.shifted(0, 1)) {
                    Well { current: Some(t.shifted(0, 1)), ..next }
                } else {
                    next.locked(drawn)
                },
                None => next,
            }
        }
    }

    /// The game after a try to move the falling piece.
    pub open spec fn tried(self, t: Tetromino) -> Well {
        if placeable(self.board, t) {
            Well { current: Some(t), ..self }
        } else {
            self
        }
    }

    /// The game after a key.
    pub open spec fn keyed(self, key: u16, drawn: TetrominoType) -> Well {
        if self.over {
            if key == KB_ESC {
                opening(self.next, drawn)
            } else {
                self
            }
        } else {
            match self.current {
                Some(t) => if key == KB_LEFT {
                    self.tried(t.shifted(-1, 0))
                } else if key == KB_RIGHT {
                    self.tried(t.shifted(1, 0))
                } else if key == KB_DOWN {
                    if placeable(self.board, t.shifted(0, 1)) {
                        Well {
                            current: Some(t.shifted(0, 1)),
                            score: self.score + 1,
                            ..self
                        }
                    } else {
                        self.locked(drawn)
                    }
                } else if key == KB_UP {
                    Well { current: Some(kicked(self.board, t)), ..self }
                } else if key == KB_SPACE {
                    self.dropped(drawn)
                } else {
                    self
                },
                None => self,
            }
        }
    }
}

/// A new game that begins with the given pieces.
pub open spec fn opening(first: TetrominoType, second: TetrominoType) -> Well {
    Well {
        board: empty_board(),
        current: Some(start(first)),
        next: second,
        score: 0,
        lines: 0,
        level: 1,
        over: false,
        timer: 0,
    }
}

/// The blocks of a well.
pub open spec fn rows_of(board: [[Option<TetrominoType>; TETRIS_WIDTH]; TETRIS_HEIGHT]) -> Seq<
    Seq<Option<TetrominoType>>,
> {
    Seq::new(20, |y: int| board@[y]@)
}

impl View for TetrisView {
    type V = Well;

    open spec fn view(&self) -> Well {
        Well {
            board: rows_of(self.board),
            current: self.current,
            next: self.next,
            score: self.score as int,
            lines: self.lines as int,
            level: self.level as int,
            over: self.game_over,
            timer: self.tick_timer as int,
        }
    }
}

proof fn lemma_near(t: Tetromino)
    ensures
        t.cells().len() == 4,
        forall|k: int|
            0 <= k < 4 ==> t.x - 2 <= (#[trigger] t.cells()[k]).0 <= t.x + 2 && t.y - 2
                <= t.cells()[k].1 <= t.y + 2,
        t.inside() ==> 0 <= t.x < 10 && t.y < 20,
        -126 <= t.x <= 125 && -126 <= t.y <= 125 ==> t.addressable(),
{
    shape_is_compact(t.ttype, t.rotation as int);
    let s = shape(t.ttype, t.rotation as int);
    assert forall|k: int| 0 <= k < 4 implies t.x - 2 <= (#[trigger] t.cells()[k]).0 <= t.x + 2 && t.y
        - 2 <= t.cells()[k].1 <= t.y + 2 by {
        assert(-2 <= s[k].0 <= 2);
    }
    let k = choose|k: int| 0 <= k < s.len() && s[k] == (0int, 0int);
    assert(t.cells()[k] == (t.x as int, t.y as int));
}

/// Some kind of piece.
fn random_type() -> TetrominoType {
    type_of(random::below(7))
}

/// The kind of piece with a number.
pub open spec fn kind_with(n: int) -> TetrominoType {
    if n == 0 {
        TetrominoType::I
    } else if n == 1 {
        TetrominoType::J
    } else if n == 2 {
        TetrominoType::L
    } else if n == 3 {
        TetrominoType::O
    } else if n == 4 {
        TetrominoType::S
    } else if n == 5 {
        TetrominoType::T
    } else {
        TetrominoType::Z
    }
}

/// The kind of piece with a number.
pub fn type_of(n: usize) -> (r: TetrominoType)
    ensures
        r == kind_with(n as int),
        r == (if n == 0 {
            TetrominoType::I
        } else if n == 1 {
            TetrominoType::J
        } else if n == 2 {
            TetrominoType::L
        } else if n == 3 {
            TetrominoType::O
        } else if n == 4 {
            TetrominoType::S
        } else if n == 5 {
            TetrominoType::T
        } else {
            TetrominoType::Z
        }),
{
    match n {
        0 => TetrominoType::I,
        1 => TetrominoType::J,
        2 => TetrominoType::L,
        3 => TetrominoType::O,
        4 => TetrominoType::S,
        5 => TetrominoType::T,
        _ => TetrominoType::Z,
    }
}

impl TetrisView {
    /// A new game.
    pub fn new(bounds: Rect) -> (r: TetrisView)
        ensures
            exists|first: TetrominoType| r@ == #[trigger] opening(first, r.next),
            r@.wf(),
            r.bounds == bounds,
    {
        let first: TetrominoType = random_type();
        let mut view: TetrisView = TetrisView {
            bounds,
            board: [[None; TETRIS_WIDTH]; TETRIS_HEIGHT],
            current: None,
            next: first,
            score: 0,
            lines: 0,
            level: 1,
            game_over: false,
            tick_timer: 0,
        };
        view.reset();
        view
    }

    /// Starts anew with the next piece.
    pub fn reset(&mut self)
        ensures
            final(self)@ == opening(old(self).next, final(self).next),
            final(self)@.wf(),
            final(self).bounds == old(self).bounds,
    {
        self.board = [[None; TETRIS_WIDTH]; TETRIS_HEIGHT];
        self.current = None;
        self.score = 0;
        self.lines = 0;
        self.level = 1;
        self.game_over = false;
        self.tick_timer = 0;
        assert(rows_of(self.board) =~= empty_board()) by {
            assert forall|y: int| 0 <= y < 20 implies #[trigger] rows_of(self.board)[y]
                =~= empty_row() by {}
        }
        self.spawn_piece();
    }

    /// Brings the next piece into play and draws another one.
    pub fn spawn_piece(&mut self)
        requires
            old(self)@.sound(),
        ensures
            final(self)@ == old(self)@.spawned(final(self).next),
            final(self)@.wf(),
            final(self).bounds == old(self).bounds,
    {
        let drawn: TetrominoType = random_type();
        self.spawn_with(drawn);
    }

    /// Brings the next piece into play, with `drawn` to come after it.
    pub fn spawn_with(&mut self, drawn: TetrominoType)
        requires
            old(self)@.sound(),
        ensures
            final(self)@ == old(self)@.spawned(drawn),
            final(self)@.wf(),
            final(self).bounds == old(self).bounds,
    {
        let t: Tetromino = Tetromino::new(self.next);
        proof {
            lemma_near(t);
            lemma_start(self.next);
        }
        let blocks: [(i8, i8); 4] = t.blocks();
        let mut hit: bool = false;
        let mut k: usize = 0;
        while k < 4
            invariant
                k <= 4,
                t == start(self.next),
                forall|i: int|
                    0 <= i < 4 ==> ((#[trigger] blocks@[i]).0 as int, blocks@[i].1 as int)
                        == t.cells()[i],
                hit == exists|i: int|
                    0 <= i < k && taken(rows_of(self.board), #[trigger] t.cells()[i]),
            decreases 4 - k,
        {
            let b: (i8, i8) = blocks[k];
            assert(t.cells()[k as int] == (b.0 as int, b.1 as int));
            if b.1 >= 0 && b.1 < 20 && b.0 >= 0 && b.0 < 10 {
                if self.board[b.1 as usize][b.0 as usize].is_some() {
                    hit = true;
                }
            }
            k += 1;
        }
        self.current = Some(t);
        self.next = drawn;
        if hit {
            self.game_over = true;
        }
    }

    /// Whether a piece has its place: inside, and on no block.
    pub fn can_place(&self, t: &Tetromino) -> (r: bool)
        requires
            t.addressable(),
        ensures
            r == placeable(self@.board, *t),
    {
        let blocks: [(i8, i8); 4] = t.blocks();
        let mut k: usize = 0;
        while k < 4
            invariant
                k <= 4,
                forall|i: int|
                    0 <= i < 4 ==> ((#[trigger] blocks@[i]).0 as int, blocks@[i].1 as int)
                        == t.cells()[i],
                forall|i: int|
                    0 <= i < k ==> {
                        &&& 0 <= (#[trigger] t.cells()[i]).0 < TETRIS_WIDTH
                        &&& t.cells()[i].1 < TETRIS_HEIGHT
                        &&& !taken(self@.board, t.cells()[i])
                    },
            decreases 4 - k,
        {
            let b: (i8, i8) = blocks[k];
            assert(t.cells()[k as int] == (b.0 as int, b.1 as int));
            if b.0 < 0 || b.0 >= 10 || b.1 >= 20 {
                return false;
            }
            if b.1 >= 0 && self.board[b.1 as usize][b.0 as usize].is_some() {
                assert(taken(self@.board, t.cells()[k as int]));
                return false;
            }
            k += 1;
        }
        true
    }

    /// Puts the blocks of a piece into the well, as far as they are in it.
    fn stamp(&mut self, t: Tetromino)
        requires
            t.addressable(),
        ensures
            final(self)@ == (Well { board: stamped(old(self)@.board, t), ..old(self)@ }),
            final(self).bounds == old(self).bounds,
    {
        let blocks: [(i8, i8); 4] = t.blocks();
        let ghost cells = t.cells();
        let mut k: usize = 0;
        while k < 4
            invariant
                k <= 4,
                cells == t.cells(),
                forall|i: int|
                    0 <= i < 4 ==> ((#[trigger] blocks@[i]).0 as int, blocks@[i].1 as int)
                        == cells[i],
                self.current == old(self).current,
                self.next == old(self).next,
                self.score == old(self).score,
                self.lines == old(self).lines,
                self.level == old(self).level,
                self.game_over == old(self).game_over,
                self.tick_timer == old(self).tick_timer,
                self.bounds == old(self).bounds,
                forall|x: int, y: int|
                    in_well((x, y)) ==> #[trigger] self.board@[y]@[x] == (if cells.take(
                        k as int,
                    ).contains((x, y)) {
                        Some(t.ttype)
                    } else {
                        old(self).board@[y]@[x]
                    }),
            decreases 4 - k,
        {
            let b: (i8, i8) = blocks[k];
            let ghost before = self.board;
            let ghost less = cells.take(k as int);
            let ghost more = cells.take(k + 1);
            assert(cells[k as int] == (b.0 as int, b.1 as int));
            if b.1 >= 0 && b.1 < 20 && b.0 >= 0 && b.0 < 10 {
                self.board[b.1 as usize][b.0 as usize] = Some(t.ttype);
            }
            k += 1;
            assert forall|x: int, y: int| in_well((x, y)) implies #[trigger] self.board@[y]@[x] == (
            if more.contains((x, y)) {
                Some(t.ttype)
            } else {
                old(self).board@[y]@[x]
            }) by {
                assert(more =~= less.push(cells[k - 1]));
                assert(before@[y]@[x] == (if less.contains((x, y)) {
                    Some(t.ttype)
                } else {
                    old(self).board@[y]@[x]
                }));
                if less.contains((x, y)) {
                    let i = choose|i: int| 0 <= i < less.len() && less[i] == (x, y);
                    assert(more[i] == (x, y));
                }
                if (x, y) == cells[k - 1] {
                    assert(more[k - 1] == (x, y));
                }
            }
        }
        assert(cells.take(4) =~= cells);
        assert(rows_of(self.board) =~= stamped(old(self)@.board, t)) by {
            assert forall|y: int| 0 <= y < 20 implies #[trigger] rows_of(self.board)[y] =~= stamped(
                old(self)@.board,
                t,
            )[y] by {
                assert forall|x: int| 0 <= x < 10 implies #[trigger] self.board@[y]@[x] == stamped(
                    old(self)@.board,
                    t,
                )[y][x] by {
                    assert(in_well((x, y)));
                }
            }
        }
    }

    /// Whether all cells of a row hold blocks.
    fn is_full(row: &[Option<TetrominoType>; TETRIS_WIDTH]) -> (r: bool)
        ensures
            r == full(row@),
    {
        let mut x: usize = 0;
        while x < 10
            invariant
                x <= 10,
                forall|i: int| 0 <= i < x ==> (#[trigger] row@[i]) is Some,
            decreases 10 - x,
        {
            if row[x].is_none() {
                assert(row@[x as int] is None);
                return false;
            }
            x += 1;
        }
        true
    }

    /// Lets full rows vanish, and counts and scores them.
    pub fn clear_lines(&mut self)
        requires
            old(self)@.sound(),
            old(self)@.swept().countable(),
        ensures
            final(self)@ == old(self)@.swept(),
            final(self)@.sound(),
            final(self).bounds == old(self).bounds,
    {
        let ghost board = self@.board;
        let mut any: bool = false;
        let mut y: usize = 1;
        while y < 20
            invariant
                1 <= y <= 20,
                board == rows_of(self.board),
                any == exists|j: int| 1 <= j < y && full(#[trigger] board[j]),
            decreases 20 - y,
        {
            if Self::is_full(&self.board[y]) {
                any = true;
                assert(full(board[y as int]));
            }
            y += 1;
        }
        if !any {
            return;
        }
        let mut sunk: [[Option<TetrominoType>; TETRIS_WIDTH]; TETRIS_HEIGHT] =
            [[None; TETRIS_WIDTH]; TETRIS_HEIGHT];
        let mut from: usize = 20;
        let mut to: usize = 20;
        assert(board.skip(20) =~= Seq::empty());
        assert(rows_of(sunk).skip(20) =~= Seq::empty());
        while from > 0
            invariant
                from <= to <= 20,
                board == rows_of(self.board),
                forall|j: int| 0 <= j < to ==> #[trigger] rows_of(sunk)[j] =~= empty_row(),
                rows_of(sunk).skip(to as int) == kept(board.skip(from as int)),
            decreases from,
        {
            from -= 1;
            let ghost rest = board.skip(from as int);
            assert(rest.drop_first() =~= board.skip(from + 1));
            assert(rest[0] == board[from as int]);
            if !Self::is_full(&self.board[from]) {
                to -= 1;
                let ghost before = rows_of(sunk);
                sunk[to] = self.board[from];
                assert(rows_of(sunk) =~= before.update(to as int, board[from as int]));
                assert(rows_of(sunk).skip(to as int) =~= seq![board[from as int]] + before.skip(
                    to + 1,
                ));
            }
        }
        assert(board.skip(0) =~= board);
        proof {
            assert(rows_of(sunk).skip(to as int).len() == 20 - to);
            assert(to == vanishing(board));
            let j = choose|j: int| 1 <= j < 20 && full(#[trigger] board[j]);
            lemma_some_vanish(board, j);
            assert(rows_of(sunk) =~= cleared(board));
        }
        self.board = sunk;
        self.lines = self.lines + to as u32;
        self.score = self.score + (if to == 1 {
            40 * (self.level + 1)
        } else if to == 2 {
            100 * (self.level + 1)
        } else if to == 3 {
            300 * (self.level + 1)
        } else if to == 4 {
            1200 * (self.level + 1)
        } else {
            0
        });
        self.level = self.lines / 10 + 1;
    }

    /// Makes the falling piece part of the well and brings the next one into play.
    pub fn lock_piece(&mut self)
        requires
            old(self)@.wf(),
            old(self)@.locked(old(self).next).countable(),
        ensures
            final(self)@ == old(self)@.locked(final(self).next),
            final(self)@.wf(),
            final(self).bounds == old(self).bounds,
    {
        if let Some(t) = self.current {
            proof {
                lemma_near(t);
            }
            self.current = None;
            self.stamp(t);
            self.clear_lines();
            self.spawn_piece();
        }
    }

    /// Drops the falling piece: it falls as far as it can, for two points a row, and becomes part of
    /// the well.
    pub fn hard_drop(&mut self)
        requires
            old(self)@.wf(),
            old(self)@.dropped(old(self).next).countable(),
        ensures
            final(self)@ == old(self)@.dropped(final(self).next),
            final(self)@.wf(),
            final(self).bounds == old(self).bounds,
    {
        if let Some(t) = self.current {
            let mut low: Tetromino = t;
            let mut fell: u32 = 0;
            loop
                invariant
                    self@ == old(self)@,
                    self.bounds == old(self).bounds,
                    t.wf(),
                    low.wf(),
                    landed(self@.board, low) == landed(self@.board, t),
                    fell == low.y - t.y,
                ensures
                    low == landed(self@.board, t),
                decreases 20 - low.y,
            {
                proof {
                    lemma_near(low);
                    lemma_near(low.shifted(0, 1));
                }
                let next: Tetromino = low.moved(0, 1);
                if self.can_place(&next) {
                    low = next;
                    fell += 1;
                } else {
                    break;
                }
            }
            proof {
                lemma_gain(Well { current: Some(low), score: self.score + 2 * fell, ..self@ });
            }
            self.current = Some(low);
            self.score = self.score + fell * 2;
            self.lock_piece();
        }
    }

    /// Lets a tick pass. When a row is due the falling piece falls by one or, where it cannot,
    /// becomes part of the well.
    pub fn tick(&mut self)
        requires
            old(self)@.wf(),
            old(self)@.ticked(old(self).next).countable(),
        ensures
            final(self)@ == old(self)@.ticked(final(self).next),
            final(self)@.wf(),
            old(self)@.clear() ==> final(self)@.clear(),
            final(self).bounds == old(self).bounds,
    {
        proof {
            lemma_stays_clear(self@, 0);
        }
        if self.game_over {
            return;
        }
        self.tick_timer = self.tick_timer + 1;
        let due: u32 = match self.level {
            1 => 48,
            2 => 43,
            3 => 38,
            4 => 33,
            5 => 28,
            6 => 23,
            7 => 18,
            8 => 13,
            9 => 8,
            _ => 5,
        };
        if self.tick_timer >= due {
            self.tick_timer = 0;
            if let Some(t) = self.current {
                proof {
                    lemma_near(t);
                    lemma_near(t.shifted(0, 1));
                }
                let next: Tetromino = t.moved(0, 1);
                if self.can_place(&next) {
                    self.current = Some(next);
                } else {
                    self.lock_piece();
                }
            }
        }
    }

    fn try_piece(&mut self, t: Tetromino) -> (r: bool)
        requires
            old(self)@.wf(),
            t.addressable(),
            t.y >= 0,
            t.rotation < 4,
        ensures
            final(self)@ == old(self)@.tried(t),
            final(self)@.wf(),
            final(self).bounds == old(self).bounds,
            r == placeable(old(self)@.board, t),
    {
        if self.can_place(&t) {
            self.current = Some(t);
            true
        } else {
            false
        }
    }

    fn rotate(&mut self, t: Tetromino)
        requires
            old(self)@.wf(),
            old(self).current == Some(t),
        ensures
            final(self)@ == (Well { current: Some(kicked(old(self)@.board, t)), ..old(self)@ }),
            final(self)@.wf(),
            final(self).bounds == old(self).bounds,
    {
        let r: Tetromino = t.rotated();
        proof {
            lemma_near(t);
            lemma_near(r);
            lemma_near(r.shifted(-1, 0));
            lemma_near(r.shifted(1, 0));
            lemma_near(r.shifted(-2, 0));
            lemma_near(r.shifted(2, 0));
        }
        if self.try_piece(r) {
            return;
        }
        if self.try_piece(r.moved(-1, 0)) {
            return;
        }
        if self.try_piece(r.moved(1, 0)) {
            return;
        }
        if self.try_piece(r.moved(-2, 0)) {
            return;
        }
        self.try_piece(r.moved(2, 0));
    }

    /// Reacts to a key.
    pub fn handle_key(&mut self, key: u16)
        requires
            old(self)@.wf(),
            old(self)@.keyed(key, old(self).next).countable(),
        ensures
            final(self)@ == old(self)@.keyed(key, final(self).next),
            final(self)@.wf(),
            old(self)@.clear() ==> final(self)@.clear(),
            final(self).bounds == old(self).bounds,
    {
        proof {
            lemma_stays_clear(self@, key);
        }
        if self.game_over {
            if key == KB_ESC {
                self.reset();
            }
            return;
        }
        if let Some(t) = self.current {
            proof {
                lemma_near(t);
                lemma_near(t.shifted(-1, 0));
                lemma_near(t.shifted(1, 0));
                lemma_near(t.shifted(0, 1));
            }
            if key == KB_LEFT {
                self.try_piece(t.moved(-1, 0));
            } else if key == KB_RIGHT {
                self.try_piece(t.moved(1, 0));
            } else if key == KB_DOWN {
                if self.try_piece(t.moved(0, 1)) {
                    self.score = self.score + 1;
                } else {
                    self.lock_piece();
                }
            } else if key == KB_UP {
                self.rotate(t);
            } else if key == KB_SPACE {
                self.hard_drop();
            }
        }
    }
}

/// Where the well begins in a picture with `width` columns: the well, two columns for each block,
/// and fourteen columns for the text stand in the middle.
pub open spec fn left_edge(width: int) -> int {
    geometry::larger(width - 34, 0) / 2
}

/// Where the well begins in a picture with `height` rows.
pub open spec fn top_edge(height: int) -> int {
    geometry::larger(height - 20, 0) / 2
}

/// Whether there is room for the text in a picture with `width` columns.
pub open spec fn has_side(width: int) -> bool {
    left_edge(width) + 34 < width
}

/// The background of the picture: the application's, and the text's.
pub open spec fn ground(width: int, height: int, x: int, y: int) -> (char, u8) {
    let left = left_edge(width);
    let top = top_edge(height);
    if has_side(width) && left + 22 <= x < left + 34 && top <= y < top + 20 {
        (' ', screen::DIALOG)
    } else {
        (' ', screen::NORMAL)
    }
}

/// The background, and the border of the well on it, light cyan on blue.
pub open spec fn bordered(width: int, height: int, x: int, y: int) -> (char, u8) {
    let left = left_edge(width);
    let top = top_edge(height);
    if left <= x < left + 20 && (y == top - 1 || y == top + 20) {
        ('─', 0x1b)
    } else if top <= y < top + 20 && (x == left - 1 || x == left + 20) {
        ('│', 0x1b)
    } else if x == left - 1 && y == top - 1 {
        ('┌', 0x1b)
    } else if x == left + 20 && y == top - 1 {
        ('┐', 0x1b)
    } else if x == left - 1 && y == top + 20 {
        ('└', 0x1b)
    } else if x == left + 20 && y == top + 20 {
        ('┘', 0x1b)
    } else {
        ground(width, height, x, y)
    }
}

/// Whether the picture shows a block in column `x` of row `y`, when the block begins in column
/// `left` of row `top`: it takes two columns, and needs both.
pub open spec fn covers(left: int, top: int, width: int, x: int, y: int) -> bool {
    y == top && left <= x < left + 2 && left + 1 < width
}

/// The well with its blocks.
pub open spec fn filled(
    board: Seq<Seq<Option<TetrominoType>>>,
    width: int,
    height: int,
    x: int,
    y: int,
) -> (char, u8) {
    let col = (x - left_edge(width)) / 2;
    let row = y - top_edge(height);
    if taken(board, (col, row)) && left_edge(width) + 2 * col + 1 < width {
        ('█', (0x10 + color(board[row][col]->0)) as u8)
    } else {
        bordered(width, height, x, y)
    }
}

/// The well with the falling piece in it.
pub open spec fn played(w: Well, width: int, height: int, x: int, y: int) -> (char, u8) {
    let below = filled(w.board, width, height, x, y);
    match w.current {
        Some(t) => if exists|k: int|
            0 <= k < 4 && in_well(#[trigger] t.cells()[k]) && covers(
                left_edge(width) + 2 * t.cells()[k].0,
                top_edge(height) + t.cells()[k].1,
                width,
                x,
                y,
            ) {
            ('█', (0x10 + color(t.ttype)) as u8)
        } else {
            below
        },
        None => below,
    }
}

/// The lines beside the well.
pub open spec fn side_lines(w: Well) -> Seq<Seq<char>> {
    seq![
        "Score:"@ + text::padded_left(text::decimal(w.score as nat), 5),
        "Lines:"@ + text::padded_left(text::decimal(w.lines as nat), 5),
        "Level:"@ + text::padded_left(text::decimal(w.level as nat), 5),
        Seq::empty(),
        "Next:"@,
    ]
}

/// The picture with the text and the next piece beside the well, where there is room for them. The
/// next piece is shown as it will come into play.
pub open spec fn captioned(w: Well, width: int, height: int, x: int, y: int) -> (char, u8) {
    let left = left_edge(width) + 22;
    let top = top_edge(height);
    let s = shape(w.next, 0);
    if !has_side(width) {
        played(w, width, height, x, y)
    } else if exists|k: int|
        0 <= k < 4 && covers(
            left + 2 * ((#[trigger] s[k]).0 + 2),
            top + 8 + s[k].1,
            width,
            x,
            y,
        ) {
        ('█', (0x70 + color(w.next)) as u8)
    } else {
        screen::lined(
            played(w, width, height, x, y),
            left,
            top,
            side_lines(w),
            screen::DIALOG,
            x,
            y,
        )
    }
}

/// The cell in column `x` of row `y` of the picture of a game.
pub open spec fn pixel(w: Well, width: int, height: int, x: int, y: int) -> (char, u8) {
    if w.over {
        screen::over_pixel(captioned(w, width, height, x, y), width, top_edge(height) + 10, x, y)
    } else {
        captioned(w, width, height, x, y)
    }
}

proof fn lemma_side_lines(w: Well)
    ensures
        forall|k: int|
            0 <= k < side_lines(w).len() ==> screen::all_narrow(#[trigger] side_lines(w)[k]),
{
    reveal_strlit("Score:");
    reveal_strlit("Lines:");
    reveal_strlit("Level:");
    reveal_strlit("Next:");
    screen::lemma_decimal_narrow(w.score as nat);
    screen::lemma_decimal_narrow(w.lines as nat);
    screen::lemma_decimal_narrow(w.level as nat);
}

/// Draws a block that begins in column `x` of row `y`, if both its columns are on the canvas.
fn draw_block(c: &mut Canvas, x: usize, y: usize, colors: u8)
    requires
        old(c).wf(),
        x < usize::MAX,
    ensures
        final(c).wf(),
        final(c).width == old(c).width,
        final(c).rows@.len() == old(c).rows@.len(),
        forall|i: int, j: int|
            old(c).holds(i, j) ==> #[trigger] final(c).cell(i, j) == (if covers(
                x as int,
                y as int,
                old(c).width as int,
                i,
                j,
            ) {
                ('█', colors)
            } else {
                old(c).cell(i, j)
            }),
{
    proof {
        reveal_strlit("██");
    }
    if x + 1 < c.width {
        c.write(x, y, "██", colors);
    }
}

impl TetrisView {
    fn draw_border(c: &mut Canvas, left: usize, top: usize)
        requires
            old(c).wf(),
            left == left_edge(old(c).width as int),
            top == top_edge(old(c).rows@.len() as int),
            left <= 0x7fff,
            top <= 0x7fff,
            old(c).shows(
                |x: int, y: int|
                    ground(old(c).width as int, old(c).rows@.len() as int, x, y),
            ),
        ensures
            final(c).wf(),
            final(c).width == old(c).width,
            final(c).rows@.len() == old(c).rows@.len(),
            final(c).shows(
                |x: int, y: int|
                    bordered(old(c).width as int, old(c).rows@.len() as int, x, y),
            ),
    {
        if top > 0 {
            if left > 0 {
                c.fill(left - 1, top - 1, '┌', 0x1b, 1);
            }
            c.fill(left + 20, top - 1, '┐', 0x1b, 1);
            c.fill(left, top - 1, '─', 0x1b, 20);
        }
        if left > 0 {
            c.fill(left - 1, top + 20, '└', 0x1b, 1);
        }
        c.fill(left + 20, top + 20, '┘', 0x1b, 1);
        c.fill(left, top + 20, '─', 0x1b, 20);
        let ghost before = *c;
        let mut n: usize = 0;
        while n < 20
            invariant
                n <= 20,
                left <= 0x7fff,
                top <= 0x7fff,
                c.wf(),
                c.width == before.width,
                c.rows@.len() == before.rows@.len(),
                forall|i: int, j: int|
                    before.holds(i, j) ==> #[trigger] c.cell(i, j) == (if top <= j < top + n && (i
                        == left - 1 || i == left + 20) {
                        ('│', 0x1bu8)
                    } else {
                        before.cell(i, j)
                    }),
            decreases 20 - n,
        {
            if left > 0 {
                c.fill(left - 1, top + n, '│', 0x1b, 1);
            }
            c.fill(left + 20, top + n, '│', 0x1b, 1);
            n += 1;
        }
    }

    fn draw_board(&self, c: &mut Canvas, left: usize, top: usize)
        requires
            old(c).wf(),
            left == left_edge(old(c).width as int),
            top == top_edge(old(c).rows@.len() as int),
            left <= 0x7fff,
            top <= 0x7fff,
            old(c).shows(
                |x: int, y: int|
                    bordered(old(c).width as int, old(c).rows@.len() as int, x, y),
            ),
        ensures
            final(c).wf(),
            final(c).width == old(c).width,
            final(c).rows@.len() == old(c).rows@.len(),
            final(c).shows(
                |x: int, y: int|
                    filled(
                        self@.board,
                        old(c).width as int,
                        old(c).rows@.len() as int,
                        x,
                        y,
                    ),
            ),
    {
        let ghost w = c.width as int;
        let ghost h = c.rows@.len() as int;
        let ghost board = self@.board;
        let mut row: usize = 0;
        while row < 20
            invariant
                row <= 20,
                board == self@.board,
                left == left_edge(w),
                top == top_edge(h),
                left <= 0x7fff,
                top <= 0x7fff,
                c.wf(),
                c.width == w,
                c.rows@.len() == h,
                c.shows(
                    |x: int, y: int|
                        if y - top < row {
                            filled(board, w, h, x, y)
                        } else {
                            bordered(w, h, x, y)
                        },
                ),
            decreases 20 - row,
        {
            let mut col: usize = 0;
            while col < 10
                invariant
                    row < 20,
                    col <= 10,
                    board == self@.board,
                    left == left_edge(w),
                    top == top_edge(h),
                    left <= 0x7fff,
                    top <= 0x7fff,
                    c.wf(),
                    c.width == w,
                    c.rows@.len() == h,
                    c.shows(
                        |x: int, y: int|
                            if y - top < row || (y - top == row && (x - left) / 2 < col) {
                                filled(board, w, h, x, y)
                            } else {
                                bordered(w, h, x, y)
                            },
                    ),
                decreases 10 - col,
            {
                assert(board[row as int][col as int] == self.board@[row as int]@[col as int]);
                if let Some(kind) = self.board[row][col] {
                    draw_block(c, left + 2 * col, top + row, 0x10 + kind.fg());
                }
                col += 1;
            }
            row += 1;
        }
    }

    fn draw_piece(c: &mut Canvas, t: Tetromino, left: usize, top: usize)
        requires
            old(c).wf(),
            t.addressable(),
            left <= 0x7fff,
            top <= 0x7fff,
        ensures
            final(c).wf(),
            final(c).width == old(c).width,
            final(c).rows@.len() == old(c).rows@.len(),
            forall|x: int, y: int|
                old(c).holds(x, y) ==> #[trigger] final(c).cell(x, y) == (if exists|k: int|
                    0 <= k < 4 && in_well(#[trigger] t.cells()[k]) && covers(
                        left + 2 * t.cells()[k].0,
                        top + t.cells()[k].1,
                        old(c).width as int,
                        x,
                        y,
                    ) {
                    ('█', (0x10 + color(t.ttype)) as u8)
                } else {
                    old(c).cell(x, y)
                }),
    {
        let blocks: [(i8, i8); 4] = t.blocks();
        let mut n: usize = 0;
        while n < 4
            invariant
                n <= 4,
                left <= 0x7fff,
                top <= 0x7fff,
                forall|k: int|
                    0 <= k < 4 ==> ((#[trigger] blocks@[k]).0 as int, blocks@[k].1 as int)
                        == t.cells()[k],
                c.wf(),
                c.width == old(c).width,
                c.rows@.len() == old(c).rows@.len(),
                forall|x: int, y: int|
                    old(c).holds(x, y) ==> #[trigger] c.cell(x, y) == (if exists|k: int|
                        0 <= k < n && in_well(#[trigger] t.cells()[k]) && covers(
                            left + 2 * t.cells()[k].0,
                            top + t.cells()[k].1,
                            old(c).width as int,
                            x,
                            y,
                        ) {
                        ('█', (0x10 + color(t.ttype)) as u8)
                    } else {
                        old(c).cell(x, y)
                    }),
            decreases 4 - n,
        {
            let b: (i8, i8) = blocks[n];
            assert(t.cells()[n as int] == (b.0 as int, b.1 as int));
            if b.1 >= 0 && b.1 < 20 && b.0 >= 0 && b.0 < 10 {
                draw_block(
                    c,
                    left + 2 * b.0 as usize,
                    top + b.1 as usize,
                    0x10 + t.ttype.fg(),
                );
            }
            n += 1;
        }
    }

    fn draw_next(&self, c: &mut Canvas, left: usize, top: usize)
        requires
            old(c).wf(),
            left <= 0xffff,
            top <= 0x7fff,
        ensures
            final(c).wf(),
            final(c).width == old(c).width,
            final(c).rows@.len() == old(c).rows@.len(),
            forall|x: int, y: int|
                old(c).holds(x, y) ==> #[trigger] final(c).cell(x, y) == (if exists|k: int|
                    0 <= k < 4 && covers(
                        left + 2 * ((#[trigger] shape(self.next, 0)[k]).0 + 2),
                        top + 8 + shape(self.next, 0)[k].1,
                        old(c).width as int,
                        x,
                        y,
                    ) {
                    ('█', (0x70 + color(self.next)) as u8)
                } else {
                    old(c).cell(x, y)
                }),
    {
        let t: Tetromino = Tetromino { ttype: self.next, x: 0, y: 0, rotation: 0 };
        proof {
            lemma_near(t);
            shape_is_compact(self.next, 0);
        }
        let blocks: [(i8, i8); 4] = t.blocks();
        let ghost s = shape(self.next, 0);
        let mut n: usize = 0;
        while n < 4
            invariant
                n <= 4,
                left <= 0xffff,
                top <= 0x7fff,
                s == shape(self.next, 0),
                forall|k: int|
                    0 <= k < 4 ==> -2 <= (#[trigger] s[k]).0 <= 2 && -2 <= s[k].1 <= 2,
                t.cells() == Seq::new(4, |k: int| (s[k].0 + 0, s[k].1 + 0)),
                forall|k: int|
                    0 <= k < 4 ==> ((#[trigger] blocks@[k]).0 as int, blocks@[k].1 as int)
                        == t.cells()[k],
                c.wf(),
                c.width == old(c).width,
                c.rows@.len() == old(c).rows@.len(),
                forall|x: int, y: int|
                    old(c).holds(x, y) ==> #[trigger] c.cell(x, y) == (if exists|k: int|
                        0 <= k < n && covers(
                            left + 2 * ((#[trigger] s[k]).0 + 2),
                            top + 8 + s[k].1,
                            old(c).width as int,
                            x,
                            y,
                        ) {
                        ('█', (0x70 + color(self.next)) as u8)
                    } else {
                        old(c).cell(x, y)
                    }),
            decreases 4 - n,
        {
            let b: (i8, i8) = blocks[n];
            assert(t.cells()[n as int] == (b.0 as int, b.1 as int));
            assert(s[n as int] == (b.0 as int, b.1 as int));
            draw_block(
                c,
                left + 2 * (b.0 + 2) as usize,
                top + (8 + b.1) as usize,
                0x70 + self.next.fg(),
            );
            n += 1;
        }
    }

    fn side_text(&self) -> (r: Vec<String>)
        ensures
            text::texts(r@) == side_lines(self@),
    {
        let mut lines: Vec<String> = Vec::new();
        let mut score: String = "Score:".to_string();
        score.append(&text::pad_left(&text::dec_u64(self.score as u64), 5));
        let mut count: String = "Lines:".to_string();
        count.append(&text::pad_left(&text::dec_u64(self.lines as u64), 5));
        let mut level: String = "Level:".to_string();
        level.append(&text::pad_left(&text::dec_u64(self.level as u64), 5));
        text::push_text(&mut lines, score);
        text::push_text(&mut lines, count);
        text::push_text(&mut lines, level);
        text::push_text(&mut lines, String::new());
        text::push_text(&mut lines, "Next:".to_string());
        assert(text::texts(lines@) =~= side_lines(self@));
        lines
    }

    /// The picture of the game.
    pub fn frame(&self) -> (c: Canvas)
        requires
            self@.wf(),
            self.bounds.measurable(),
        ensures
            c.wf(),
            c.width == self.bounds.columns(),
            c.rows@.len() == self.bounds.rows(),
            c.shows(
                |x: int, y: int|
                    pixel(self@, self.bounds.columns(), self.bounds.rows(), x, y),
            ),
    {
        let width: usize = self.bounds.width_clamped();
        let height: usize = self.bounds.height_clamped();
        let left: usize = if width > 34 {
            (width - 34) / 2
        } else {
            0
        };
        let top: usize = if height > 20 {
            (height - 20) / 2
        } else {
            0
        };
        let mut c: Canvas = Canvas::new(width, height, screen::NORMAL);
        if left + 34 < width {
            c.clear(left + 22, top, 12, 20, screen::DIALOG);
        }
        Self::draw_border(&mut c, left, top);
        self.draw_board(&mut c, left, top);
        if let Some(t) = self.current {
            proof {
                lemma_near(t);
            }
            Self::draw_piece(&mut c, t, left, top);
        }
        if left + 34 < width {
            let lines: Vec<String> = self.side_text();
            proof {
                lemma_side_lines(self@);
                assert forall|k: int| 0 <= k < lines@.len() implies screen::all_narrow(
                    #[trigger] lines@[k]@,
                ) by {
                    assert(text::texts(lines@)[k] == lines@[k]@);
                }
                assert(text::texts(lines@).len() == 5);
            }
            c.write_lines(left + 22, top, &lines, screen::DIALOG);
            self.draw_next(&mut c, left + 22, top);
        }
        if self.game_over {
            c.draw_over(top + 10);
        }
        c
    }

    /// Lets a tick pass and gives the picture of the game after it.
    pub fn draw(&mut self) -> (c: Canvas)
        requires
            old(self)@.wf(),
            old(self)@.ticked(old(self).next).countable(),
            old(self).bounds.measurable(),
        ensures
            final(self)@ == old(self)@.ticked(final(self).next),
            final(self)@.wf(),
            final(self).bounds == old(self).bounds,
            c.wf(),
            c.width == old(self).bounds.columns(),
            c.rows@.len() == old(self).bounds.rows(),
            c.shows(
                |x: int, y: int|
                    pixel(final(self)@, old(self).bounds.columns(), old(self).bounds.rows(), x, y),
            ),
    {
        self.tick();
        self.frame()
    }
}

/// Locking a piece takes no points away.
proof fn lemma_gain(w: Well)
    requires
        w.sound(),
    ensures
        w.locked(w.next).score >= w.score,
{
    if let Some(t) = w.current {
        let b = stamped(w.board, t);
        assert(reward(vanishing(b), w.level) >= 0);
    }
}

/// Where a row is full, fewer rows are kept.
proof fn lemma_some_vanish(rows: Seq<Seq<Option<TetrominoType>>>, j: int)
    requires
        0 <= j < rows.len(),
        full(rows[j]),
    ensures
        kept(rows).len() < rows.len(),
    decreases rows.len(),
{
    lemma_kept_fewer(rows.drop_first());
    if j > 0 {
        lemma_some_vanish(rows.drop_first(), j - 1);
    }
}

proof fn lemma_kept_fewer(rows: Seq<Seq<Option<TetrominoType>>>)
    ensures
        kept(rows).len() <= rows.len(),
    decreases rows.len(),
{
    if rows.len() > 0 {
        lemma_kept_fewer(rows.drop_first());
    }
}

proof fn lemma_start(kind: TetrominoType)
    ensures
        start(kind).wf(),
{
    let t = start(kind);
    assert forall|k: int| 0 <= k < 4 implies 0 <= (#[trigger] t.cells()[k]).0 < TETRIS_WIDTH
        && t.cells()[k].1 < TETRIS_HEIGHT by {}
}

impl Well {
    /// Whether there is a falling piece, and it has its place as long as the game goes on.
    pub open spec fn clear(self) -> bool {
        self.current matches Some(t) && (self.over || placeable(self.board, t))
    }
}

/// A new piece has its place, or the game is over.
proof fn lemma_spawned_clear(w: Well, drawn: TetrominoType)
    ensures
        w.spawned(drawn).clear(),
{
    lemma_start(w.next);
    let t = start(w.next);
    let s = w.spawned(drawn);
    if !s.over {
        assert forall|k: int| 0 <= k < 4 implies !taken(w.board, #[trigger] t.cells()[k]) by {}
    }
}

/// As long as the game goes on, the falling piece lies inside the well and on no block, whatever
/// ticks and keys come.
pub proof fn piece_never_overlaps(w: Well, key: u16, drawn: TetrominoType)
    requires
        w.clear(),
    ensures
        w.ticked(drawn).clear(),
        w.keyed(key, drawn).clear(),
{
    if !w.over {
        let t = w.current->0;
        let stay = Well { timer: 0, ..w };
        lemma_spawned_clear(
            Well { board: stamped(stay.board, t), current: None, ..stay }.swept(),
            drawn,
        );
        lemma_spawned_clear(
            Well { board: stamped(w.board, t), current: None, ..w }.swept(),
            drawn,
        );
        let low = landed(w.board, t);
        let fell = Well { current: Some(low), score: w.score + 2 * (low.y - t.y), ..w };
        lemma_spawned_clear(
            Well { board: stamped(fell.board, low), current: None, ..fell }.swept(),
            drawn,
        );
    } else {
        lemma_start(w.next);
        let t = start(w.next);
        assert forall|k: int| 0 <= k < 4 implies !taken(empty_board(), #[trigger] t.cells()[k]) by {
        }
    }
}

/// A new game goes on, and its first piece has its place.
pub proof fn opening_is_clear(first: TetrominoType, second: TetrominoType)
    ensures
        opening(first, second).clear(),
        !opening(first, second).over,
{
    lemma_start(first);
    let t = start(first);
    assert forall|k: int| 0 <= k < 4 implies !taken(empty_board(), #[trigger] t.cells()[k]) by {
    }
}

proof fn lemma_stays_clear(w: Well, key: u16)
    ensures
        w.clear() ==> forall|drawn: TetrominoType| (#[trigger] w.ticked(drawn)).clear(),
        w.clear() ==> forall|drawn: TetrominoType| (#[trigger] w.keyed(key, drawn)).clear(),
{
    if w.clear() {
        assert forall|drawn: TetrominoType| (#[trigger] w.ticked(drawn)).clear() by {
            piece_never_overlaps(w, key, drawn);
        }
        assert forall|drawn: TetrominoType| (#[trigger] w.keyed(key, drawn)).clear() by {
            piece_never_overlaps(w, key, drawn);
        }
    }
}

/// What is over stays over, whatever ticks and keys come, until Escape starts a new game with the next
/// piece. Before the end Escape changes nothing.
pub proof fn over_until_escape(w: Well, key: u16, drawn: TetrominoType)
    ensures
        w.over ==> w.ticked(drawn) == w,
        w.over && key != KB_ESC ==> w.keyed(key, drawn) == w,
        w.over ==> w.keyed(KB_ESC, drawn) == opening(w.next, drawn),
        !w.over ==> w.keyed(KB_ESC, drawn) == w,
{
}

/// The preview shows the piece that will come into play: where that piece has a block in the well, the
/// preview has one in the same place relative to the others, in the color of the piece.
pub proof fn preview_matches_piece(w: Well, width: int, height: int, k: int)
    requires
        has_side(width),
        0 <= k < 4,
    ensures
        ({
            let block = start(w.next).cells()[k];
            let x = left_edge(width) + 22 + 2 * (block.0 - start(w.next).x + 2);
            let y = top_edge(height) + 8 + block.1;
            let shown = ('█', (0x70 + color(w.next)) as u8);
            &&& x + 1 < width ==> captioned(w, width, height, x, y) == shown
            &&& x + 1 < width ==> captioned(w, width, height, x + 1, y) == shown
        }),
{
    shape_is_compact(w.next, 0);
    let s = shape(w.next, 0);
    assert(start(w.next).cells()[k] == (s[k].0 + 3, s[k].1 + 0));
}

/// A piece that has fallen as far as it can cannot fall further.
pub proof fn landed_piece_rests(board: Seq<Seq<Option<TetrominoType>>>, t: Tetromino)
    requires
        t.wf(),
        placeable(board, t),
    ensures
        placeable(board, landed(board, t)),
        !placeable(board, landed(board, t).shifted(0, 1)),
        landed(board, t).y >= t.y,
    decreases 20 - t.y,
{
    lemma_near(t);
    let down = t.shifted(0, 1);
    lemma_near(down);
    if placeable(board, down) {
        landed_piece_rests(board, down);
    }
}

proof fn lemma_kept_not_full(rows: Seq<Seq<Option<TetrominoType>>>)
    ensures
        forall|j: int| 0 <= j < kept(rows).len() ==> !full(#[trigger] kept(rows)[j]),
        kept(rows).len() <= rows.len(),
    decreases rows.len(),
{
    if rows.len() > 0 {
        let rest = kept(rows.drop_first());
        lemma_kept_not_full(rows.drop_first());
        if !full(rows[0]) {
            assert forall|j: int| 0 <= j < kept(rows).len() implies !full(
                #[trigger] kept(rows)[j],
            ) by {
                if j > 0 {
                    assert(kept(rows)[j] == rest[j - 1]);
                }
            }
        }
    }
}

/// Once full rows have vanished, no row below the top one is full, and the well has its size.
pub proof fn no_full_row_stays(board: Seq<Seq<Option<TetrominoType>>>)
    requires
        board.len() == 20,
    ensures
        cleared(board).len() == 20,
        forall|y: int| 1 <= y < 20 ==> !full(#[trigger] cleared(board)[y]),
{
    lemma_kept_not_full(board);
    if exists|y: int| 1 <= y < board.len() && full(#[trigger] board[y]) {
        let j = choose|j: int| 1 <= j < board.len() && full(#[trigger] board[j]);
        lemma_some_vanish(board, j);
        let n = vanishing(board);
        assert forall|y: int| 1 <= y < 20 implies !full(#[trigger] cleared(board)[y]) by {
            if y < n {
                assert(cleared(board)[y] == empty_row());
                assert(empty_row()[0] is None);
            } else {
                assert(cleared(board)[y] == kept(board)[y - n]);
            }
        }
    }
}

/// Neither a tick nor a key takes points away, but for Escape after the end.
pub proof fn score_never_falls(w: Well, key: u16, drawn: TetrominoType)
    requires
        w.wf(),
    ensures
        w.ticked(drawn).score >= w.score,
        !w.over ==> w.keyed(key, drawn).score >= w.score,
{
    if let Some(t) = w.current {
        lemma_landed_below(w.board, t);
    }
}

proof fn lemma_landed_below(board: Seq<Seq<Option<TetrominoType>>>, t: Tetromino)
    requires
        t.wf(),
    ensures
        landed(board, t).y >= t.y,
    decreases 20 - t.y,
{
    lemma_near(t);
    let down = t.shifted(0, 1);
    lemma_near(down);
    if placeable(board, down) {
        lemma_landed_below(board, down);
    }
}

/// Whether the blocks of a piece, moved by some columns and rows, find room: between the walls and above
/// the floor, and where they are in the well, on empty places.
pub open spec fn has_room(
    board: Seq<Seq<Option<TetrominoType>>>,
    t: Tetromino,
    dx: int,
    dy: int,
) -> bool {
    forall|k: int|
        0 <= k < 4 ==> {
            let c = #[trigger] t.cells()[k];
            let x = c.0 + dx;
            let y = c.1 + dy;
            0 <= x < 10 && y < 20 && (y >= 0 ==> board[y][x] is None)
        }
}

proof fn lemma_room(board: Seq<Seq<Option<TetrominoType>>>, t: Tetromino, dx: int, dy: int)
    requires
        -120 <= t.x + dx <= 120,
        -120 <= t.y + dy <= 120,
    ensures
        placeable(board, t.shifted(dx, dy)) == has_room(board, t, dx, dy),
        forall|k: int|
            0 <= k < 4 ==> (#[trigger] t.shifted(dx, dy).cells()[k]) == (
                t.cells()[k].0 + dx,
                t.cells()[k].1 + dy,
            ),
{
    let m = t.shifted(dx, dy);
    lemma_near(t);
    lemma_near(m);
    assert forall|k: int| 0 <= k < 4 implies (#[trigger] m.cells()[k]) == (
        t.cells()[k].0 + dx,
        t.cells()[k].1 + dy,
    ) by {}
    if placeable(board, m) {
        assert forall|k: int| 0 <= k < 4 implies {
            let c = #[trigger] t.cells()[k];
            let x = c.0 + dx;
            let y = c.1 + dy;
            0 <= x < 10 && y < 20 && (y >= 0 ==> board[y][x] is None)
        } by {
            assert(!taken(board, m.cells()[k]));
        }
    }
    if has_room(board, t, dx, dy) {
        assert forall|k: int| 0 <= k < 4 implies 0 <= (#[trigger] m.cells()[k]).0 < TETRIS_WIDTH
            && m.cells()[k].1 < TETRIS_HEIGHT by {
            let c = t.cells()[k];
            assert(0 <= c.0 + dx < 10);
        }
        assert forall|k: int| 0 <= k < 4 implies !taken(board, #[trigger] m.cells()[k]) by {
            let c = t.cells()[k];
            assert(0 <= c.0 + dx < 10);
        }
    }
}

/// The keys for left and right move every block of the falling piece by a column to that side, if all of
/// them find room there; otherwise, and in everything else, the game stays as it is.
pub proof fn sideways_keys_move_piece(w: Well, right: bool, drawn: TetrominoType)
    requires
        w.wf(),
        !w.over,
        w.current is Some,
    ensures
        ({
            let t = w.current->0;
            let dx: int = if right {
                1
            } else {
                -1
            };
            let n = w.keyed(
                if right {
                    KB_RIGHT
                } else {
                    KB_LEFT
                },
                drawn,
            );
            &&& n == (Well { current: n.current, ..w })
            &&& n.current matches Some(m) && m.ttype == t.ttype && m.rotation == t.rotation && forall|
                k: int,
            |
                0 <= k < 4 ==> (#[trigger] m.cells()[k]) == if has_room(w.board, t, dx, 0) {
                    (t.cells()[k].0 + dx, t.cells()[k].1)
                } else {
                    t.cells()[k]
                }
        }),
{
    let t = w.current->0;
    lemma_near(t);
    lemma_room(w.board, t, 1, 0);
    lemma_room(w.board, t, -1, 0);
}

/// The key for down moves every block of the falling piece by a row, for a point, if all of them find
/// room there; a tick that is due does the same without a point. A piece that finds no room comes to
/// rest, and the piece that was shown as the next one is in play.
pub proof fn pieces_sink(w: Well, drawn: TetrominoType)
    requires
        w.wf(),
        !w.over,
        w.current is Some,
    ensures
        ({
            let t = w.current->0;
            let pushed = w.keyed(KB_DOWN, drawn);
            let fell = w.ticked(drawn);
            let due = w.timer + 1 >= speed(w.level);
            let room = has_room(w.board, t, 0, 1);
            &&& room ==> {
                &&& pushed == (Well { current: pushed.current, score: w.score + 1, ..w })
                &&& pushed.current matches Some(m) && m.ttype == t.ttype && m.rotation == t.rotation
                    && forall|k: int|
                    0 <= k < 4 ==> (#[trigger] m.cells()[k]) == (t.cells()[k].0, t.cells()[k].1 + 1)
            }
            &&& !due ==> fell == (Well { timer: w.timer + 1, ..w })
            &&& due && room ==> {
                &&& fell == (Well { current: fell.current, timer: 0, ..w })
                &&& fell.current matches Some(m) && m.ttype == t.ttype && m.rotation == t.rotation
                    && forall|k: int|
                    0 <= k < 4 ==> (#[trigger] m.cells()[k]) == (t.cells()[k].0, t.cells()[k].1 + 1)
            }
            &&& !room ==> {
                &&& pushed == w.locked(drawn)
                &&& pushed.current matches Some(m) && m.ttype == w.next
                &&& pushed.next == drawn
            }
            &&& due && !room ==> {
                &&& fell == (Well { timer: 0, ..w }).locked(drawn)
                &&& fell.current matches Some(m) && m.ttype == w.next
                &&& fell.next == drawn
                &&& fell.timer == 0
            }
        }),
{
    let t = w.current->0;
    lemma_near(t);
    lemma_room(w.board, t, 0, 1);
}

/// The well after a piece came to rest in it, before rows vanish: every block of the piece that is in
/// the well lies there in the piece's kind, and every other place is as it was.
pub proof fn resting_piece_fills_places(
    board: Seq<Seq<Option<TetrominoType>>>,
    t: Tetromino,
    x: int,
    y: int,
)
    requires
        0 <= x < 10,
        0 <= y < 20,
    ensures
        stamped(board, t)[y][x] == (if exists|k: int| 0 <= k < 4 && #[trigger] t.cells()[k] == (x, y) {
            Some(t.ttype)
        } else {
            board[y][x]
        }),
{
    lemma_near(t);
    if t.cells().contains((x, y)) {
        let k = choose|k: int| 0 <= k < t.cells().len() && t.cells()[k] == (x, y);
        assert(t.cells()[k] == (x, y));
    }
}

/// A piece that comes to rest and fills no row leaves its blocks in the well, and nothing else changes
/// there; nothing is scored. The next piece comes into play; the game is over if one of its places is
/// taken.
pub proof fn piece_comes_to_rest(w: Well, drawn: TetrominoType)
    requires
        w.wf(),
        w.current is Some,
        forall|y: int| 0 <= y < 20 ==> !full(#[trigger] stamped(w.board, w.current->0)[y]),
    ensures
        ({
            let n = w.locked(drawn);
            &&& n.board == stamped(w.board, w.current->0)
            &&& n.score == w.score && n.lines == w.lines && n.level == w.level
            &&& n.next == drawn
            &&& n.current matches Some(m) && m.ttype == w.next && m.rotation == 0 && m.x == 3 && m.y == 0
            &&& n.over == (w.over || exists|k: int|
                0 <= k < 4 && {
                    let c = #[trigger] n.current->0.cells()[k];
                    0 <= c.0 < 10 && 0 <= c.1 < 20 && n.board[c.1][c.0] is Some
                })
        }),
{
    let n = w.locked(drawn);
    let t = n.current->0;
    lemma_near(t);
    let overlaps = exists|k: int| 0 <= k < 4 && taken(n.board, #[trigger] t.cells()[k]);
    if overlaps {
        let k = choose|k: int| 0 <= k < 4 && taken(n.board, #[trigger] t.cells()[k]);
        let c = t.cells()[k];
        assert(0 <= c.0 < 10 && 0 <= c.1 < 20 && n.board[c.1][c.0] is Some);
    }
    if exists|k: int|
        0 <= k < 4 && {
            let c = #[trigger] t.cells()[k];
            0 <= c.0 < 10 && 0 <= c.1 < 20 && n.board[c.1][c.0] is Some
        } {
        let k = choose|k: int|
            0 <= k < 4 && {
                let c = #[trigger] t.cells()[k];
                0 <= c.0 < 10 && 0 <= c.1 < 20 && n.board[c.1][c.0] is Some
            };
        assert(taken(n.board, t.cells()[k]));
    }
}

/// Of rows in a row those stay that have an empty place, in their order.
pub proof fn rows_with_gaps_stay(
    above: Seq<Seq<Option<TetrominoType>>>,
    row: Seq<Option<TetrominoType>>,
    below: Seq<Seq<Option<TetrominoType>>>,
)
    ensures
        (forall|x: int| 0 <= x < row.len() ==> (#[trigger] row[x]) is Some) ==> kept(
            above + seq![row] + below,
        ) == kept(above) + kept(below),
        (exists|x: int| 0 <= x < row.len() && (#[trigger] row[x]) is None) ==> kept(
            above + seq![row] + below,
        ) == kept(above) + seq![row] + kept(below),
    decreases above.len(),
{
    let all = above + seq![row] + below;
    if above.len() == 0 {
        assert(all[0] == row);
        assert(all.drop_first() =~= below);
        assert(kept(above) =~= Seq::empty());
        assert(kept(above) + kept(below) =~= kept(below));
        assert(kept(above) + seq![row] + kept(below) =~= seq![row] + kept(below));
    } else {
        let rest = above.drop_first();
        rows_with_gaps_stay(rest, row, below);
        assert(all[0] == above[0]);
        assert(all.drop_first() =~= rest + seq![row] + below);
        let head = seq![above[0]];
        assert(head + (kept(rest) + kept(below)) =~= head + kept(rest) + kept(below));
        assert(head + (kept(rest) + seq![row] + kept(below)) =~= head + kept(rest) + seq![row] + kept(
            below,
        ));
    }
}

/// When full rows below the top vanish, the others sink to the bottom in their order and empty rows come
/// in above them. The rows are counted, the score grows by what so many rows earn at the level, and every
/// tenth row raises the level.
pub proof fn full_rows_vanish(w: Well)
    requires
        w.wf(),
    ensures
        ({
            let n = w.swept();
            let gone = 20 - kept(w.board).len();
            let some = exists|y: int| 1 <= y < 20 && full(#[trigger] w.board[y]);
            &&& n.board.len() == 20
            &&& some ==> {
                &&& gone > 0
                &&& n.board.skip(gone) == kept(w.board)
                &&& forall|y: int, x: int|
                    0 <= y < gone && 0 <= x < 10 ==> (#[trigger] n.board[y][x]) is None
                &&& n.lines == w.lines + gone
                &&& n.score == w.score + reward(gone, w.level)
                &&& n.level == (w.lines + gone) / 10 + 1
            }
            &&& !some ==> n == w
            &&& n.current == w.current && n.next == w.next && n.over == w.over
        }),
{
    no_full_row_stays(w.board);
    if exists|y: int| 1 <= y < 20 && full(#[trigger] w.board[y]) {
        let j = choose|j: int| 1 <= j < 20 && full(#[trigger] w.board[j]);
        lemma_some_vanish(w.board, j);
        let gone = 20 - kept(w.board).len();
        let n = w.swept();
        assert(n.board.skip(gone) =~= kept(w.board));
    }
}

/// More rows at once earn more than as many one by one, and a higher level earns more.
pub proof fn rewards_grow(rows: int, level: int)
    requires
        1 <= rows <= 4,
        0 <= level,
    ensures
        reward(1, 0) == 40,
        reward(2, 0) == 100,
        reward(3, 0) == 300,
        reward(4, 0) == 1200,
        reward(rows, level) == reward(rows, 0) * (level + 1),
        reward(rows, level + 1) > reward(rows, level),
        rows < 4 ==> reward(rows + 1, level) > reward(rows, level) + reward(1, level),
        reward(0, level) == 0,
{
}

/// Pieces fall faster at a higher level: by five ticks less for a row with each level up to the ninth.
pub proof fn levels_quicken(level: int)
    requires
        1 <= level,
    ensures
        speed(1) == 48,
        level < 9 ==> speed(level + 1) == speed(level) - 5,
        level == 9 ==> speed(level + 1) == 5,
        level > 9 ==> speed(level) == 5,
{
}

/// The key for up turns the falling piece by a quarter where it is or, where it finds no room there, one
/// column to the left or right, then two; it stays as it is where it finds no room in any of these
/// places. Its row stays, and so does everything else in the game.
pub proof fn turns_find_room(w: Well, drawn: TetrominoType)
    requires
        w.wf(),
        !w.over,
        w.current is Some,
    ensures
        ({
            let t = w.current->0;
            let r = Tetromino { rotation: ((t.rotation + 1) % 4) as u8, ..t };
            let n = w.keyed(KB_UP, drawn);
            let fits = |dx: int| has_room(w.board, r, dx, 0);
            &&& n == (Well { current: n.current, ..w })
            &&& n.current matches Some(m) && m.ttype == t.ttype && m.y == t.y
            &&& fits(0) ==> n.current == Some(r)
            &&& !fits(0) && fits(-1) ==> n.current->0.rotation == r.rotation && n.current->0.x == t.x - 1
            &&& !fits(0) && !fits(-1) && fits(1) ==> n.current->0.rotation == r.rotation && n.current->0.x
                == t.x + 1
            &&& !fits(0) && !fits(-1) && !fits(1) && fits(-2) ==> n.current->0.rotation == r.rotation
                && n.current->0.x == t.x - 2
            &&& !fits(0) && !fits(-1) && !fits(1) && !fits(-2) && fits(2) ==> n.current->0.rotation == r.rotation
                && n.current->0.x == t.x + 2
            &&& !fits(0) && !fits(-1) && !fits(1) && !fits(-2) && !fits(2) ==> n.current == Some(t)
        }),
{
    let t = w.current->0;
    let r = t.turned();
    lemma_near(t);
    assert(r.shifted(0, 0) == r);
    lemma_room(w.board, r, 0, 0);
    lemma_room(w.board, r, -1, 0);
    lemma_room(w.board, r, 1, 0);
    lemma_room(w.board, r, -2, 0);
    lemma_room(w.board, r, 2, 0);
}

proof fn lemma_landed_same(board: Seq<Seq<Option<TetrominoType>>>, t: Tetromino)
    requires
        t.wf(),
        placeable(board, t),
    ensures
        ({
            let low = landed(board, t);
            &&& low.ttype == t.ttype && low.rotation == t.rotation && low.x == t.x
            &&& forall|d: int| 0 <= d <= low.y - t.y ==> placeable(board, #[trigger] t.shifted(0, d))
            &&& t.y <= low.y < 20
        }),
    decreases 20 - t.y,
{
    lemma_near(t);
    let down = t.shifted(0, 1);
    lemma_near(down);
    assert(t.shifted(0, 0) == t);
    if placeable(board, down) {
        lemma_landed_same(board, down);
        let low = landed(board, t);
        assert forall|d: int| 0 <= d <= low.y - t.y implies placeable(
            board,
            #[trigger] t.shifted(0, d),
        ) by {
            if d > 0 {
                assert(t.shifted(0, d) == down.shifted(0, d - 1));
            }
        }
    }
}

/// The space bar drops the falling piece straight down, as far as there is room on the whole way, for two
/// points a row, and there it comes to rest.
pub proof fn space_drops_piece(w: Well, drawn: TetrominoType)
    requires
        w.wf(),
        !w.over,
        w.clear(),
    ensures
        ({
            let t = w.current->0;
            let low = landed(w.board, t);
            let rows = low.y - t.y;
            &&& low == (Tetromino { y: low.y, ..t })
            &&& rows >= 0
            &&& forall|d: int| 0 <= d <= rows ==> #[trigger] has_room(w.board, t, 0, d)
            &&& !has_room(w.board, t, 0, rows + 1)
            &&& w.keyed(KB_SPACE, drawn) == (Well {
                current: Some(low),
                score: w.score + 2 * rows,
                ..w
            }).locked(drawn)
        }),
{
    let t = w.current->0;
    lemma_near(t);
    lemma_landed_same(w.board, t);
    landed_piece_rests(w.board, t);
    let low = landed(w.board, t);
    let rows = low.y - t.y;
    assert forall|d: int| 0 <= d <= rows implies #[trigger] has_room(w.board, t, 0, d) by {
        lemma_room(w.board, t, 0, d);
        assert(placeable(w.board, t.shifted(0, d)));
    }
    lemma_room(w.board, t, 0, rows + 1);
    assert(t.shifted(0, rows + 1) == low.shifted(0, 1));
}

/// The picture shows a block of the well on two columns beside each other, in the color of its kind:
/// further right for a larger column, and further down for a larger row.
pub proof fn picture_shows_well(w: Well, width: int, height: int, x: int, y: int)
    requires
        w.wf(),
        w.current is None,
        !w.over,
        0 <= x < 10,
        0 <= y < 20,
        left_edge(width) + 20 < width,
    ensures
        ({
            let col = left_edge(width) + 2 * x;
            let row = top_edge(height) + y;
            let shown = match w.board[y][x] {
                Some(kind) => ('█', (0x10 + color(kind)) as u8),
                None => (' ', screen::NORMAL),
            };
            &&& pixel(w, width, height, col, row) == shown
            &&& pixel(w, width, height, col + 1, row) == shown
        }),
{
    let left = left_edge(width);
    let col = left + 2 * x;
    assert((col - left) / 2 == x);
    assert((col + 1 - left) / 2 == x);
    shape_is_compact(w.next, 0);
    let s = shape(w.next, 0);
    assert forall|k: int| 0 <= k < 4 implies (#[trigger] s[k]).0 >= -2 by {}
}

/// The picture shows every block of the falling piece on two columns beside each other, in the color of
/// the piece, on top of what lies there.
pub proof fn picture_shows_piece(w: Well, width: int, height: int, k: int)
    requires
        w.wf(),
        w.current is Some,
        !w.over,
        0 <= k < 4,
        w.current->0.cells()[k].1 >= 0,
        left_edge(width) + 20 < width,
    ensures
        ({
            let t = w.current->0;
            let col = left_edge(width) + 2 * t.cells()[k].0;
            let row = top_edge(height) + t.cells()[k].1;
            let shown = ('█', (0x10 + color(t.ttype)) as u8);
            &&& pixel(w, width, height, col, row) == shown
            &&& pixel(w, width, height, col + 1, row) == shown
        }),
{
    let t = w.current->0;
    let c = t.cells()[k];
    assert(0 <= c.0 < TETRIS_WIDTH && c.1 < TETRIS_HEIGHT);
    assert(in_well(t.cells()[k]));
    let left = left_edge(width);
    let col = left + 2 * c.0;
    let row = top_edge(height) + c.1;
    assert(covers(left + 2 * t.cells()[k].0, top_edge(height) + t.cells()[k].1, width, col, row));
    assert(covers(left + 2 * t.cells()[k].0, top_edge(height) + t.cells()[k].1, width, col + 1, row));
    shape_is_compact(w.next, 0);
    let s = shape(w.next, 0);
    assert forall|j: int| 0 <= j < 4 implies (#[trigger] s[j]).0 >= -2 by {}
}

/// Different kinds of pieces have different colors.
pub proof fn kinds_look_different(a: TetrominoType, b: TetrominoType)
    ensures
        color(a) == color(b) ==> a == b,
        8 < color(a) <= 15,
{
}

/// The lines beside the well tell score, rows and level.
pub proof fn side_tells_score(w: Well)
    requires
        w.wf(),
    ensures
        text::begins(side_lines(w)[0], "Score:"@),
        text::ends(side_lines(w)[0], text::decimal(w.score as nat)),
        text::begins(side_lines(w)[1], "Lines:"@),
        text::ends(side_lines(w)[1], text::decimal(w.lines as nat)),
        text::begins(side_lines(w)[2], "Level:"@),
        text::ends(side_lines(w)[2], text::decimal(w.level as nat)),
{
    lemma_labelled("Score:"@, text::decimal(w.score as nat));
    lemma_labelled("Lines:"@, text::decimal(w.lines as nat));
    lemma_labelled("Level:"@, text::decimal(w.level as nat));
}

proof fn lemma_labelled(label: Seq<char>, number: Seq<char>)
    ensures
        text::begins(label + text::padded_left(number, 5), label),
        text::ends(label + text::padded_left(number, 5), number),
{
    let s = label + text::padded_left(number, 5);
    assert(s.subrange(0, label.len() as int) =~= label);
    assert(s.subrange(s.len() - number.len(), s.len() as int) =~= number);
}

/// Every kind of piece has exactly one of the numbers that are drawn.
pub proof fn every_kind_is_drawn(kind: TetrominoType, n: int, m: int)
    ensures
        exists|k: int| 0 <= k < 7 && #[trigger] kind_with(k) == kind,
        0 <= n < m < 7 ==> kind_with(n) != kind_with(m),
{
    assert(kind_with(0) == kind || kind_with(1) == kind || kind_with(2) == kind || kind_with(3) == kind
        || kind_with(4) == kind || kind_with(5) == kind || kind_with(6) == kind);
}

/// Well and text stand in the middle of the picture: what is free on two opposite sides differs by one
/// at most.
pub proof fn picture_is_centered(width: int, height: int)
    ensures
        width >= 34 ==> 0 <= (width - 34 - left_edge(width)) - left_edge(width) <= 1,
        width < 34 ==> left_edge(width) == 0,
        height >= 20 ==> 0 <= (height - 20 - top_edge(height)) - top_edge(height) <= 1,
        height < 20 ==> top_edge(height) == 0,
{
}

/// Each block of a piece lies off the piece's place as far as it lies off the center of the shape.
pub proof fn blocks_lie_around_place(t: Tetromino, k: int)
    requires
        0 <= k < 4,
    ensures
        t.cells().len() == 4,
        t.cells()[k].0 - t.x == shape(t.ttype, t.rotation as int)[k].0,
        t.cells()[k].1 - t.y == shape(t.ttype, t.rotation as int)[k].1,
{
    lemma_near(t);
}

/// The picture shows a border to the left and to the right of the well, in every row of it, and below it.
pub proof fn picture_shows_border(w: Well, width: int, height: int, k: int)
    requires
        w.wf(),
        !w.over,
        0 <= k < 20,
        left_edge(width) + 20 < width,
    ensures
        ({
            let left = left_edge(width);
            let top = top_edge(height);
            &&& pixel(w, width, height, left - 1, top + k) == ('│', 0x1bu8)
            &&& pixel(w, width, height, left + 20, top + k) == ('│', 0x1bu8)
            &&& pixel(w, width, height, left + k, top + 20) == ('─', 0x1bu8)
        }),
{
    let left = left_edge(width);
    let top = top_edge(height);
    shape_is_compact(w.next, 0);
    let s = shape(w.next, 0);
    assert forall|j: int| 0 <= j < 4 implies (#[trigger] s[j]).0 >= -2 by {}
    assert((left - 1 - left) / 2 == -1);
    assert((left + 20 - left) / 2 == 10);
    if let Some(t) = w.current {
        lemma_near(t);
        assert forall|j: int| 0 <= j < 4 implies 0 <= (#[trigger] t.cells()[j]).0 < 10
            && t.cells()[j].1 < 20 by {
            assert(0 <= t.cells()[j].0 < TETRIS_WIDTH && t.cells()[j].1 < TETRIS_HEIGHT);
        }
    }
}

/// The text beside the well stands line by line below each other, where there is room for it; a game that
/// is over says so in the middle of the picture.
pub proof fn picture_shows_text(w: Well, width: int, height: int, k: int, i: int)
    requires
        has_side(width),
        0 <= k < side_lines(w).len(),
        0 <= i < side_lines(w)[k].len(),
    ensures
        ({
            let x = left_edge(width) + 22 + i;
            let y = top_edge(height) + k;
            !w.over ==> pixel(w, width, height, x, y) == (side_lines(w)[k][i], screen::DIALOG)
        }),
        w.over && i < 9 ==> pixel(w, width, height, (width - 9) / 2 + i, top_edge(height) + 10) == (
            "GAME OVER"@[i],
            0x7cu8,
        ),
{
    shape_is_compact(w.next, 0);
    let s = shape(w.next, 0);
    assert forall|j: int| 0 <= j < 4 implies (#[trigger] s[j]).1 >= -2 by {}
}

/// Every game begins with an empty well and nothing scored, at the first level; the first piece comes in
/// at the top, and the second is the next one.
pub proof fn games_begin_alike(first: TetrominoType, second: TetrominoType, x: int, y: int)
    requires
        0 <= x < 10,
        0 <= y < 20,
    ensures
        ({
            let w = opening(first, second);
            &&& w.board.len() == 20
            &&& w.board[y].len() == 10
            &&& w.board[y][x] is None
            &&& w.current matches Some(t) && t.ttype == first && t.rotation == 0 && t.x == 3 && t.y == 0
            &&& w.next == second
            &&& w.score == 0 && w.lines == 0 && w.level == 1 && w.timer == 0 && !w.over
        }),
{
}

} // verus!
