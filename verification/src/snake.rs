//! Snake (Help > Snake).
//!
//! The snake crawls over a field; each piece of food scores ten points and makes the snake longer
//! and faster. Arrow keys steer, by at most one turn per move and never straight back. Leaving the
//! field or running into itself ends the game; Escape then starts a new one.
use std::collections::VecDeque;
use vstd::prelude::*;
use vstd::string::*;
use crate::geometry;
use crate::geometry::Rect;
use crate::keys::{KB_DOWN, KB_ESC, KB_LEFT, KB_RIGHT, KB_UP};
use crate::random;
use crate::screen;
use crate::screen::Canvas;
use crate::text;

verus! {

/// The size of the field in cells, without the border.
pub const SNAKE_WIDTH: i16 = 22;

pub const SNAKE_HEIGHT: i16 = 20;

/// How many ticks a move takes at first, and at least.
pub const BASE_INTERVAL: u32 = 12;

pub const MIN_INTERVAL: u32 = 3;

/// A direction of travel.
#[derive(Clone, Copy, PartialEq, Eq, Debug, Structural)]
pub enum Dir {
    Up,
    Down,
    Left,
    Right,
}

impl Dir {
    /// The direction straight back.
    pub open spec fn reverse(self) -> Dir {
        match self {
            Dir::Up => Dir::Down,
            Dir::Down => Dir::Up,
            Dir::Left => Dir::Right,
            Dir::Right => Dir::Left,
        }
    }

    /// Whether the two directions are opposite.
    pub fn is_opposite(self, other: Dir) -> (r: bool)
        ensures
            r == (other == self.reverse()),
    {
        match (self, other) {
            (Dir::Up, Dir::Down) => true,
            (Dir::Down, Dir::Up) => true,
            (Dir::Left, Dir::Right) => true,
            (Dir::Right, Dir::Left) => true,
            _ => false,
        }
    }
}

/// A game and the rectangle that it is shown in.
pub struct SnakeView {
    pub bounds: Rect,
    /// The cells of the snake, its head first.
    pub snake: VecDeque<(i16, i16)>,
    pub dir: Dir,
    /// A turn that waits for the next move.
    pub pending: Option<Dir>,
    pub food: (i16, i16),
    pub score: u32,
    pub game_over: bool,
    pub tick_timer: u32,
    /// How many ticks a move takes.
    pub interval: u32,
}

/// The state of a game.
#[verifier::ext_equal]
pub struct Game {
    pub snake: Seq<(i16, i16)>,
    pub dir: Dir,
    pub pending: Option<Dir>,
    pub food: (i16, i16),
    pub score: int,
    pub over: bool,
    pub timer: int,
    pub interval: int,
}

/// Whether a cell is in the field.
pub open spec fn in_field(c: (i16, i16)) -> bool {
    0 <= c.0 < SNAKE_WIDTH && 0 <= c.1 < SNAKE_HEIGHT
}

/// The next cell in a direction.
pub open spec fn beside(c: (i16, i16), dir: Dir) -> (int, int) {
    match dir {
        Dir::Up => (c.0 as int, c.1 - 1),
        Dir::Down => (c.0 as int, c.1 + 1),
        Dir::Left => (c.0 - 1, c.1 as int),
        Dir::Right => (c.0 + 1, c.1 as int),
    }
}

/// Whether two cells share an edge.
pub open spec fn adjacent(a: (i16, i16), b: (i16, i16)) -> bool {
    ||| a.0 == b.0 && (a.1 - b.1 == 1 || b.1 - a.1 == 1)
    ||| a.1 == b.1 && (a.0 - b.0 == 1 || b.0 - a.0 == 1)
}

/// Whether each cell shares an edge with the next one.
pub open spec fn connected(cells: Seq<(i16, i16)>) -> bool {
    forall|i: int, j: int|
        0 <= i && j == i + 1 && j < cells.len() ==> adjacent(
            #[trigger] cells[i],
            #[trigger] cells[j],
        )
}

/// How many ticks a move takes at a score.
pub open spec fn pace(score: int) -> int {
    geometry::larger(BASE_INTERVAL - score / 50, MIN_INTERVAL as int)
}

/// A new game with the given food.
pub open spec fn fresh(food: (i16, i16)) -> Game {
    Game {
        snake: seq![(2i16, 10i16), (1i16, 10i16), (0i16, 10i16)],
        dir: Dir::Right,
        pending: None,
        food,
        score: 0,
        over: false,
        timer: 0,
        interval: BASE_INTERVAL as int,
    }
}

impl Game {
    /// What holds of every game: the snake has at least three cells, all different, in the field and
    /// each beside the next one; the food is in the field, off the snake; the score tells how much
    /// the snake has eaten.
    pub open spec fn wf(self) -> bool {
        &&& self.snake.len() >= 3
        &&& self.snake.no_duplicates()
        &&& connected(self.snake)
        &&& forall|i: int| 0 <= i < self.snake.len() ==> in_field(#[trigger] self.snake[i])
        &&& in_field(self.food)
        &&& !self.snake.contains(self.food)
        &&& self.score == 10 * (self.snake.len() - 3)
        &&& 0 <= self.timer < self.interval
    }

    /// The direction of the next move: the waiting turn, unless that leads straight back.
    pub open spec fn heading(self) -> Dir {
        match self.pending {
            Some(d) => if d == self.dir.reverse() {
                self.dir
            } else {
                d
            },
            None => self.dir,
        }
    }

    /// Where the head goes with the next move.
    pub open spec fn target(self) -> (i16, i16) {
        let t = beside(self.snake[0], self.heading());
        (t.0 as i16, t.1 as i16)
    }

    /// Whether the next tick is a move.
    pub open spec fn due(self) -> bool {
        !self.over && self.timer + 1 >= self.interval
    }

    /// Whether the next move ends the game: it leads out of the field or into the snake. The last
    /// cell of the snake is free by then.
    pub open spec fn crashes(self) -> bool {
        ||| !in_field(self.target())
        ||| self.snake.contains(self.target()) && self.target() != self.snake.last()
    }

    /// Whether the next move reaches the food.
    pub open spec fn eats(self) -> bool {
        !self.crashes() && self.target() == self.food
    }

    /// The game after a tick; `food` is where new food lies, if the snake eats.
    pub open spec fn ticked(self, food: (i16, i16)) -> Game {
        if self.over {
            self
        } else if !self.due() {
            Game { timer: self.timer + 1, ..self }
        } else {
            let next = Game { timer: 0, pending: None, dir: self.heading(), ..self };
            if self.crashes() {
                Game { over: true, ..next }
            } else if self.eats() {
                Game {
                    snake: seq![self.target()] + self.snake,
                    score: self.score + 10,
                    interval: pace(self.score + 10),
                    food,
                    ..next
                }
            } else {
                Game { snake: seq![self.target()] + self.snake.drop_last(), ..next }
            }
        }
    }

    /// The game after a key; `food` is where food lies in a new game.
    pub open spec fn keyed(self, key: u16, food: (i16, i16)) -> Game {
        if self.over {
            if key == KB_ESC {
                fresh(food)
            } else {
                self
            }
        } else if key == KB_UP {
            Game { pending: Some(Dir::Up), ..self }
        } else if key == KB_DOWN {
            Game { pending: Some(Dir::Down), ..self }
        } else if key == KB_LEFT {
            Game { pending: Some(Dir::Left), ..self }
        } else if key == KB_RIGHT {
            Game { pending: Some(Dir::Right), ..self }
        } else {
            self
        }
    }

    /// Whether a cell is left for food, should the snake eat with the next tick.
    pub open spec fn has_room(self) -> bool {
        self.due() && self.eats() ==> self.snake.len() + 1 < SNAKE_WIDTH * SNAKE_HEIGHT
    }
}

impl View for SnakeView {
    type V = Game;

    open spec fn view(&self) -> Game {
        Game {
            snake: self.snake@,
            dir: self.dir,
            pending: self.pending,
            food: self.food,
            score: self.score as int,
            over: self.game_over,
            timer: self.tick_timer as int,
            interval: self.interval as int,
        }
    }
}

/// The cell with the number `n`, counted row by row.
pub open spec fn nth_cell(n: int) -> (i16, i16) {
    ((n % 22) as i16, (n / 22) as i16)
}

/// Those of the first `n` cells that are not taken, in order.
pub open spec fn free(taken: Seq<(i16, i16)>, n: nat) -> Seq<(i16, i16)>
    decreases n,
{
    if n == 0 {
        Seq::empty()
    } else {
        let before = free(taken, (n - 1) as nat);
        if taken.contains(nth_cell(n - 1)) {
            before
        } else {
            before.push(nth_cell(n - 1))
        }
    }
}

/// Whether a list of cells holds a cell.
fn holds_cell(cells: &VecDeque<(i16, i16)>, c: (i16, i16)) -> (r: bool)
    ensures
        r == cells@.contains(c),
{
    let mut i: usize = 0;
    while i < cells.len()
        invariant
            i <= cells@.len(),
            forall|j: int| 0 <= j < i ==> cells@[j] != c,
        decreases cells.len() - i,
    {
        let d: (i16, i16) = cells[i];
        if d.0 == c.0 && d.1 == c.1 {
            assert(cells@[i as int] == c);
            return true;
        }
        i += 1;
    }
    false
}

proof fn lemma_free(taken: Seq<(i16, i16)>, n: nat)
    requires
        n <= 440,
    ensures
        forall|i: int|
            0 <= i < free(taken, n).len() ==> in_field(#[trigger] free(taken, n)[i])
                && !taken.contains(free(taken, n)[i]),
        forall|k: int|
            0 <= k < n && !taken.contains(#[trigger] nth_cell(k)) ==> free(taken, n).contains(
                nth_cell(k),
            ),
    decreases n,
{
    if n > 0 {
        let before = free(taken, (n - 1) as nat);
        lemma_free(taken, (n - 1) as nat);
        assert forall|k: int|
            0 <= k < n && !taken.contains(#[trigger] nth_cell(k)) implies free(taken, n).contains(
            nth_cell(k),
        ) by {
            if k < n - 1 {
                let i = choose|i: int| 0 <= i < before.len() && before[i] == nth_cell(k);
                assert(free(taken, n)[i] == nth_cell(k));
            } else {
                assert(free(taken, n)[before.len() as int] == nth_cell(k));
            }
        }
    }
}

/// As long as the snake does not cover the field, some cell beside it is free.
proof fn lemma_room(taken: Seq<(i16, i16)>)
    requires
        taken.len() < 440,
    ensures
        free(taken, 440).len() > 0,
{
    lemma_free(taken, 440);
    if free(taken, 440).len() == 0 {
        let all = Seq::new(440, |n: int| nth_cell(n));
        assert forall|c: (i16, i16)| all.contains(c) implies taken.contains(c) by {
            let k = choose|k: int| 0 <= k < 440 && all[k] == c;
            assert(nth_cell(k) == c);
        }
        assert(all.no_duplicates()) by {
            assert forall|i: int, j: int| 0 <= i < 440 && 0 <= j < 440 && i != j implies all[i]
                != all[j] by {
                assert(i == 22 * (i / 22) + i % 22);
                assert(j == 22 * (j / 22) + j % 22);
            }
        }
        all.unique_seq_to_set();
        taken.lemma_cardinality_of_set();
        assert(all.to_set().subset_of(taken.to_set()));
        vstd::set_lib::lemma_len_subset(all.to_set(), taken.to_set());
    }
}

impl SnakeView {
    /// The cells of the field beside the snake, row by row.
    pub fn free_cells(&self) -> (r: Vec<(i16, i16)>)
        ensures
            r@ == free(self.snake@, 440),
    {
        let mut cells: Vec<(i16, i16)> = Vec::new();
        let mut n: i16 = 0;
        while n < 440
            invariant
                0 <= n <= 440,
                cells@ == free(self.snake@, n as nat),
            decreases 440 - n,
        {
            let c: (i16, i16) = (n % SNAKE_WIDTH, n / SNAKE_WIDTH);
            if !holds_cell(&self.snake, c) {
                cells.push(c);
            }
            n += 1;
        }
        cells
    }

    /// Puts food on the free cell with the number `k`.
    pub fn place_food(&mut self, k: usize)
        requires
            k < free(old(self).snake@, 440).len(),
        ensures
            final(self)@ == (Game { food: free(old(self).snake@, 440)[k as int], ..old(self)@ }),
            final(self).bounds == old(self).bounds,
    {
        let cells: Vec<(i16, i16)> = self.free_cells();
        self.food = cells[k];
    }

    /// Puts food on some free cell.
    pub fn spawn_food(&mut self)
        requires
            old(self).snake@.len() < SNAKE_WIDTH * SNAKE_HEIGHT,
        ensures
            final(self)@ == (Game { food: final(self).food, ..old(self)@ }),
            in_field(final(self).food),
            !old(self).snake@.contains(final(self).food),
            final(self).bounds == old(self).bounds,
    {
        proof {
            lemma_room(self.snake@);
            lemma_free(self.snake@, 440);
        }
        let count: usize = self.free_cells().len();
        self.place_food(random::below(count));
    }

    /// A new game.
    pub fn new(bounds: Rect) -> (r: SnakeView)
        ensures
            r@ == fresh(r.food),
            r@.wf(),
            r.bounds == bounds,
    {
        let mut view: SnakeView = SnakeView {
            bounds,
            snake: VecDeque::new(),
            dir: Dir::Right,
            pending: None,
            food: (0, 0),
            score: 0,
            game_over: false,
            tick_timer: 0,
            interval: BASE_INTERVAL,
        };
        view.reset();
        view
    }

    /// Starts anew.
    pub fn reset(&mut self)
        ensures
            final(self)@ == fresh(final(self).food),
            final(self)@.wf(),
            final(self).bounds == old(self).bounds,
    {
        self.snake.clear();
        let middle: i16 = SNAKE_HEIGHT / 2;
        self.snake.push_back((2, middle));
        self.snake.push_back((1, middle));
        self.snake.push_back((0, middle));
        self.dir = Dir::Right;
        self.pending = None;
        self.score = 0;
        self.game_over = false;
        self.tick_timer = 0;
        self.interval = BASE_INTERVAL;
        self.spawn_food();
        assert(self.snake@ =~= fresh(self.food).snake);
    }

    /// The cell before the head.
    pub fn next_head(&self) -> (r: (i16, i16))
        requires
            self.snake@.len() > 0,
            i16::MIN < self.snake@[0].0 < i16::MAX,
            i16::MIN < self.snake@[0].1 < i16::MAX,
        ensures
            (r.0 as int, r.1 as int) == beside(self.snake@[0], self.dir),
    {
        let head: (i16, i16) = self.snake[0];
        match self.dir {
            Dir::Up => (head.0, head.1 - 1),
            Dir::Down => (head.0, head.1 + 1),
            Dir::Left => (head.0 - 1, head.1),
            Dir::Right => (head.0 + 1, head.1),
        }
    }

    /// Lets a tick pass. When a move is due the snake turns, as far as it may, and moves by a cell:
    /// it eats, moves on, or ends the game.
    pub fn tick(&mut self)
        requires
            old(self)@.wf(),
            old(self)@.has_room(),
        ensures
            final(self)@ == old(self)@.ticked(final(self).food),
            final(self)@.wf(),
            final(self).bounds == old(self).bounds,
    {
        let ghost g = self@;
        if self.game_over {
            return;
        }
        self.tick_timer = self.tick_timer + 1;
        if self.tick_timer < self.interval {
            return;
        }
        self.tick_timer = 0;
        if let Some(d) = self.pending {
            if !d.is_opposite(self.dir) {
                self.dir = d;
            }
            self.pending = None;
        }
        let head: (i16, i16) = self.next_head();
        assert(head == g.target());
        if head.0 < 0 || head.0 >= SNAKE_WIDTH || head.1 < 0 || head.1 >= SNAKE_HEIGHT {
            self.game_over = true;
            return;
        }
        let tail: (i16, i16) = self.snake[self.snake.len() - 1];
        if holds_cell(&self.snake, head) && !(head.0 == tail.0 && head.1 == tail.1) {
            self.game_over = true;
            return;
        }
        proof {
            lemma_moved(g);
        }
        self.snake.push_front(head);
        if head.0 == self.food.0 && head.1 == self.food.1 {
            proof {
                lemma_bounded(g.snake);
            }
            self.score = self.score + 10;
            let faster: u32 = self.score / 50;
            self.interval = if faster < BASE_INTERVAL - MIN_INTERVAL {
                BASE_INTERVAL - faster
            } else {
                MIN_INTERVAL
            };
            self.spawn_food();
        } else {
            self.snake.pop_back();
            assert(self.snake@ =~= seq![head] + g.snake.drop_last());
        }
    }

    /// Reacts to a key.
    pub fn handle_key(&mut self, key: u16)
        requires
            old(self)@.wf(),
        ensures
            final(self)@ == old(self)@.keyed(key, final(self).food),
            final(self)@.wf(),
            final(self).bounds == old(self).bounds,
    {
        if self.game_over {
            if key == KB_ESC {
                self.reset();
            }
        } else if key == KB_UP {
            self.pending = Some(Dir::Up);
        } else if key == KB_DOWN {
            self.pending = Some(Dir::Down);
        } else if key == KB_LEFT {
            self.pending = Some(Dir::Left);
        } else if key == KB_RIGHT {
            self.pending = Some(Dir::Right);
        }
    }
}

/// The lines beside the field.
pub open spec fn side_lines(g: Game) -> Seq<Seq<char>> {
    seq![
        "Score:"@ + text::padded_left(text::decimal(g.score as nat), 5),
        "Length:"@ + text::padded_left(text::decimal(g.snake.len()), 4),
        Seq::empty(),
        "Arrows: move"@,
        "ESC: restart"@,
    ]
}

/// Where the border of the field begins in a picture with `width` columns: the border, a gap of two
/// columns and twelve columns for text stand in the middle.
pub open spec fn left_edge(width: int) -> int {
    geometry::larger(width - 38, 0) / 2
}

/// Where the border of the field begins in a picture with `height` rows.
pub open spec fn top_edge(height: int) -> int {
    geometry::larger(height - 22, 0) / 2
}

/// The background of the picture: the application's, the field's, and the text's where it fits.
pub open spec fn ground(width: int, height: int, x: int, y: int) -> (char, u8) {
    let left = left_edge(width);
    let top = top_edge(height);
    if top < y < top + 21 && left < x < left + 23 {
        (' ', 0x00)
    } else if top < y < top + 21 && left + 26 <= x < left + 38 <= width {
        (' ', screen::DIALOG)
    } else {
        (' ', screen::NORMAL)
    }
}

/// The background, and the border of the field on it, light green on black.
pub open spec fn bordered(width: int, height: int, x: int, y: int) -> (char, u8) {
    let left = left_edge(width);
    let top = top_edge(height);
    if (y == top || y == top + 21) && left < x < left + 23 {
        ('─', 0x0a)
    } else if top < y < top + 21 && (x == left || x == left + 23) {
        ('│', 0x0a)
    } else if y == top && x == left {
        ('┌', 0x0a)
    } else if y == top && x == left + 23 {
        ('┐', 0x0a)
    } else if y == top + 21 && x == left {
        ('└', 0x0a)
    } else if y == top + 21 && x == left + 23 {
        ('┘', 0x0a)
    } else {
        ground(width, height, x, y)
    }
}

/// The field with the snake in it, light green on black, and the food, light red on black.
pub open spec fn populated(g: Game, width: int, height: int, x: int, y: int) -> (char, u8) {
    let c = (x - left_edge(width) - 1, y - top_edge(height) - 1);
    if c == (g.food.0 as int, g.food.1 as int) {
        ('●', 0x0c)
    } else if is_at(g.snake, c) {
        ('█', 0x0a)
    } else {
        bordered(width, height, x, y)
    }
}

/// Whether one of the cells is `c`.
pub open spec fn is_at(cells: Seq<(i16, i16)>, c: (int, int)) -> bool {
    exists|i: int|
        0 <= i < cells.len() && (#[trigger] cells[i]).0 as int == c.0 && cells[i].1 as int == c.1
}

/// The picture with the text beside the field, where it fits.
pub open spec fn captioned(g: Game, width: int, height: int, x: int, y: int) -> (char, u8) {
    let below = populated(g, width, height, x, y);
    if left_edge(width) + 38 <= width {
        screen::lined(
            below,
            left_edge(width) + 26,
            top_edge(height) + 1,
            side_lines(g),
            screen::DIALOG,
            x,
            y,
        )
    } else {
        below
    }
}

/// The cell in column `x` of row `y` of the picture of a game.
pub open spec fn pixel(g: Game, width: int, height: int, x: int, y: int) -> (char, u8) {
    if g.over {
        screen::over_pixel(captioned(g, width, height, x, y), width, top_edge(height) + 12, x, y)
    } else {
        captioned(g, width, height, x, y)
    }
}

proof fn lemma_side_lines(g: Game)
    ensures
        forall|k: int|
            0 <= k < side_lines(g).len() ==> screen::all_narrow(#[trigger] side_lines(g)[k]),
{
    reveal_strlit("Score:");
    reveal_strlit("Length:");
    reveal_strlit("Arrows: move");
    reveal_strlit("ESC: restart");
    screen::lemma_decimal_narrow(g.score as nat);
    screen::lemma_decimal_narrow(g.snake.len());
}

impl SnakeView {
    fn draw_border(c: &mut Canvas, left: usize, top: usize)
        requires
            old(c).wf(),
            left == left_edge(old(c).width as int),
            top == top_edge(old(c).rows@.len() as int),
            left <= 0x7fff,
            top <= 0x7fff,
            old(c).shows(
                |x: int, y: int|
                    ground(old(c).width as int, old(c).rows@.len() as int, x, y),
            ),
        ensures
            final(c).wf(),
            final(c).width == old(c).width,
            final(c).rows@.len() == old(c).rows@.len(),
            final(c).shows(
                |x: int, y: int|
                    bordered(old(c).width as int, old(c).rows@.len() as int, x, y),
            ),
    {
        c.fill(left, top, '┌', 0x0a, 1);
        c.fill(left + 1, top, '─', 0x0a, 22);
        c.fill(left + 23, top, '┐', 0x0a, 1);
        c.fill(left, top + 21, '└', 0x0a, 1);
        c.fill(left + 1, top + 21, '─', 0x0a, 22);
        c.fill(left + 23, top + 21, '┘', 0x0a, 1);
        let ghost before = *c;
        let mut n: usize = 1;
        while n < 21
            invariant
                1 <= n <= 21,
                left <= 0x7fff,
                top <= 0x7fff,
                c.wf(),
                c.width == before.width,
                c.rows@.len() == before.rows@.len(),
                forall|i: int, j: int|
                    before.holds(i, j) ==> #[trigger] c.cell(i, j) == (if top < j < top + n && (i == left || i
                        == left + 23) {
                        ('│', 0x0au8)
                    } else {
                        before.cell(i, j)
                    }),
            decreases 21 - n,
        {
            c.fill(left, top + n, '│', 0x0a, 1);
            c.fill(left + 23, top + n, '│', 0x0a, 1);
            n += 1;
        }
    }

    fn draw_snake(&self, c: &mut Canvas, left: usize, top: usize)
        requires
            self@.wf(),
            old(c).wf(),
            left <= 0x7fff,
            top <= 0x7fff,
        ensures
            final(c).wf(),
            final(c).width == old(c).width,
            final(c).rows@.len() == old(c).rows@.len(),
            forall|x: int, y: int|
                old(c).holds(x, y) ==> #[trigger] final(c).cell(x, y) == (if is_at(
                    self.snake@,
                    (x - left - 1, y - top - 1),
                ) {
                    ('█', 0x0au8)
                } else {
                    old(c).cell(x, y)
                }),
    {
        let mut n: usize = 0;
        while n < self.snake.len()
            invariant
                n <= self.snake@.len(),
                self@.wf(),
                left <= 0x7fff,
                top <= 0x7fff,
                c.wf(),
                c.width == old(c).width,
                c.rows@.len() == old(c).rows@.len(),
                forall|x: int, y: int|
                    old(c).holds(x, y) ==> #[trigger] c.cell(x, y) == (if is_at(
                        self.snake@.take(n as int),
                        (x - left - 1, y - top - 1),
                    ) {
                        ('█', 0x0au8)
                    } else {
                        old(c).cell(x, y)
                    }),
            decreases self.snake.len() - n,
        {
            let ghost before = *c;
            let p: (i16, i16) = self.snake[n];
            assert(self@.snake[n as int] == p);
            assert(in_field(p));
            c.fill(left + 1 + p.0 as usize, top + 1 + p.1 as usize, '█', 0x0a, 1);
            n += 1;
            assert forall|x: int, y: int| #[trigger] old(c).holds(x, y) implies c.cell(x, y) == (
            if is_at(self.snake@.take(n as int), (x - left - 1, y - top - 1)) {
                ('█', 0x0au8)
            } else {
                old(c).cell(x, y)
            }) by {
                assert(before.holds(x, y));
                let less = self.snake@.take(n - 1);
                let more = self.snake@.take(n as int);
                let d = (x - left - 1, y - top - 1);
                assert(more[n - 1] == p);
                if is_at(less, d) {
                    let i = choose|i: int|
                        0 <= i < less.len() && (#[trigger] less[i]).0 as int == d.0
                            && less[i].1 as int == d.1;
                    assert(more[i] == less[i]);
                }
                if is_at(more, d) {
                    let i = choose|i: int|
                        0 <= i < more.len() && (#[trigger] more[i]).0 as int == d.0
                            && more[i].1 as int == d.1;
                    if i < n - 1 {
                        assert(more[i] == less[i]);
                    }
                }
            }
        }
        assert(self.snake@.take(n as int) =~= self.snake@);
    }

    fn side_text(&self) -> (r: Vec<String>)
        ensures
            text::texts(r@) == side_lines(self@),
    {
        let mut lines: Vec<String> = Vec::new();
        let mut score: String = "Score:".to_string();
        score.append(&text::pad_left(&text::dec_u64(self.score as u64), 5));
        let mut length: String = "Length:".to_string();
        length.append(&text::pad_left(&text::dec_usize(self.snake.len()), 4));
        text::push_text(&mut lines, score);
        text::push_text(&mut lines, length);
        text::push_text(&mut lines, String::new());
        text::push_text(&mut lines, "Arrows: move".to_string());
        text::push_text(&mut lines, "ESC: restart".to_string());
        assert(text::texts(lines@) =~= side_lines(self@));
        lines
    }

    /// The picture of the game.
    pub fn frame(&self) -> (c: Canvas)
        requires
            self@.wf(),
            self.bounds.measurable(),
        ensures
            c.wf(),
            c.width == self.bounds.columns(),
            c.rows@.len() == self.bounds.rows(),
            c.shows(
                |x: int, y: int|
                    pixel(self@, self.bounds.columns(), self.bounds.rows(), x, y),
            ),
    {
        let width: usize = self.bounds.width_clamped();
        let height: usize = self.bounds.height_clamped();
        let left: usize = if width > 38 {
            (width - 38) / 2
        } else {
            0
        };
        let top: usize = if height > 22 {
            (height - 22) / 2
        } else {
            0
        };
        let mut c: Canvas = Canvas::new(width, height, screen::NORMAL);
        c.clear(left + 1, top + 1, 22, 20, 0x00);
        if left + 38 <= width {
            c.clear(left + 26, top + 1, 12, 20, screen::DIALOG);
        }
        Self::draw_border(&mut c, left, top);
        self.draw_snake(&mut c, left, top);
        c.fill(
            left + 1 + self.food.0 as usize,
            top + 1 + self.food.1 as usize,
            '●',
            0x0c,
            1,
        );
        if left + 38 <= width {
            let lines: Vec<String> = self.side_text();
            proof {
                lemma_side_lines(self@);
                assert forall|k: int| 0 <= k < lines@.len() implies screen::all_narrow(
                    #[trigger] lines@[k]@,
                ) by {
                    assert(text::texts(lines@)[k] == lines@[k]@);
                }
                assert(text::texts(lines@).len() == 5);
            }
            c.write_lines(left + 26, top + 1, &lines, screen::DIALOG);
        }
        if self.game_over {
            c.draw_over(top + 12);
        }
        c
    }

    /// Lets a tick pass and gives the picture of the game after it.
    pub fn draw(&mut self) -> (c: Canvas)
        requires
            old(self)@.wf(),
            old(self)@.has_room(),
            old(self).bounds.measurable(),
        ensures
            final(self)@ == old(self)@.ticked(final(self).food),
            final(self)@.wf(),
            final(self).bounds == old(self).bounds,
            c.wf(),
            c.width == old(self).bounds.columns(),
            c.rows@.len() == old(self).bounds.rows(),
            c.shows(
                |x: int, y: int|
                    pixel(final(self)@, old(self).bounds.columns(), old(self).bounds.rows(), x, y),
            ),
    {
        self.tick();
        self.frame()
    }
}

/// The snake after a move that does not crash still has different cells in the field, each beside the
/// next one.
proof fn lemma_moved(g: Game)
    requires
        g.wf(),
        !g.crashes(),
    ensures
        ({
            let long = seq![g.target()] + g.snake;
            let moved = seq![g.target()] + g.snake.drop_last();
            &&& forall|i: int| 0 <= i < long.len() ==> in_field(#[trigger] long[i])
            &&& forall|i: int| 0 <= i < moved.len() ==> in_field(#[trigger] moved[i])
            &&& g.eats() ==> long.no_duplicates()
            &&& moved.no_duplicates()
            &&& connected(long)
            &&& connected(moved)
            &&& !g.eats() ==> !moved.contains(g.food)
        }),
{
    let head = g.target();
    let long = seq![head] + g.snake;
    let moved = seq![head] + g.snake.drop_last();
    assert forall|i: int| 0 <= i < long.len() implies in_field(#[trigger] long[i]) by {
        if i > 0 {
            assert(long[i] == g.snake[i - 1]);
        }
    }
    assert forall|i: int| 0 <= i < moved.len() implies in_field(#[trigger] moved[i]) by {
        if i > 0 {
            assert(moved[i] == g.snake[i - 1]);
        }
    }
    assert forall|i: int, j: int| 0 <= i && j == i + 1 && j < long.len() implies adjacent(
        #[trigger] long[i],
        #[trigger] long[j],
    ) by {
        assert(in_field(g.snake[0]));
        assert(long[j] == g.snake[j - 1]);
        if i > 0 {
            assert(long[i] == g.snake[i - 1]);
        }
    }
    assert forall|i: int, j: int| 0 <= i && j == i + 1 && j < moved.len() implies adjacent(
        #[trigger] moved[i],
        #[trigger] moved[j],
    ) by {
        assert(moved[i] == long[i]);
        assert(moved[j] == long[j]);
    }
    if g.eats() {
        assert forall|i: int, j: int| 0 <= i < j < long.len() implies long[i] != long[j] by {
            assert(long[j] == g.snake[j - 1]);
            if i > 0 {
                assert(long[i] == g.snake[i - 1]);
            } else {
                assert(g.snake.contains(g.snake[j - 1]));
            }
        }
    }
    assert forall|i: int, j: int| 0 <= i < j < moved.len() implies moved[i] != moved[j] by {
        assert(moved[j] == g.snake[j - 1]);
        if i > 0 {
            assert(moved[i] == g.snake[i - 1]);
        } else {
            assert(g.snake.contains(g.snake[j - 1]));
            assert(g.snake[j - 1] != g.snake[g.snake.len() - 1]);
        }
    }
    if !g.eats() && moved.contains(g.food) {
        let i = choose|i: int| 0 <= i < moved.len() && moved[i] == g.food;
        if i > 0 {
            assert(g.snake[i - 1] == g.food);
        }
        assert(g.snake.contains(g.food));
    }
}

/// Different cells in the field are at most as many as the field has.
proof fn lemma_bounded(s: Seq<(i16, i16)>)
    requires
        s.no_duplicates(),
        forall|i: int| 0 <= i < s.len() ==> in_field(#[trigger] s[i]),
    ensures
        s.len() <= 440,
{
    let numbers = Seq::new(s.len(), |i: int| s[i].1 * 22 + s[i].0);
    assert(numbers.no_duplicates());
    numbers.unique_seq_to_set();
    let all = vstd::set_lib::set_int_range(0, 440);
    vstd::set_lib::lemma_int_range(0, 440);
    assert(numbers.to_set().subset_of(all)) by {
        assert forall|n: int| numbers.contains(n) implies 0 <= n < 440 by {
            let i = choose|i: int| 0 <= i < numbers.len() && numbers[i] == n;
            assert(in_field(s[i]));
        }
    }
    vstd::set_lib::lemma_len_subset(numbers.to_set(), all);
}

/// The snake stays in one piece: whatever ticks and keys come, its cells are different, in the field and
/// each beside the next one, and the food is off it. `food` is some free cell.
pub proof fn snake_stays_whole(g: Game, key: u16, food: (i16, i16))
    requires
        g.wf(),
        in_field(food),
        g.due() && g.eats() ==> !(seq![g.target()] + g.snake).contains(food),
        g.over ==> !fresh(food).snake.contains(food),
    ensures
        g.ticked(food).wf(),
        g.keyed(key, food).wf(),
{
    if !g.crashes() {
        lemma_moved(g);
        lemma_bounded(g.snake);
        assert(pace(g.score + 10) >= MIN_INTERVAL);
    }
}

/// A move never leads straight back, whatever turn waits.
pub proof fn never_reverses(g: Game)
    ensures
        g.heading() != g.dir.reverse(),
{
}

/// The snake grows by one cell exactly when it eats, and its score by ten points with it; otherwise
/// both stay.
pub proof fn eating_grows_and_scores(g: Game, food: (i16, i16))
    ensures
        ({
            let n = g.ticked(food);
            let ate = g.due() && g.eats();
            &&& g.snake.len() > 0 ==> n.snake.len() == g.snake.len() + (if ate {
                1int
            } else {
                0
            })
            &&& n.score == g.score + (if ate {
                10int
            } else {
                0
            })
        }),
{
}

/// The higher the score, the faster the snake, within bounds.
pub proof fn pace_quickens(low: int, high: int)
    requires
        0 <= low <= high,
    ensures
        MIN_INTERVAL <= pace(high) <= pace(low) <= BASE_INTERVAL,
{
}

/// The snake may follow its own tail: the last cell is free by the time its head gets there.
pub proof fn tail_may_be_followed(g: Game)
    requires
        g.wf(),
        g.target() == g.snake.last(),
    ensures
        !g.crashes(),
{
    assert(in_field(g.snake[g.snake.len() - 1]));
}

/// What is over stays over, whatever ticks and keys come, until Escape starts a new game.
pub proof fn over_until_escape(g: Game, key: u16, food: (i16, i16))
    requires
        g.over,
    ensures
        g.ticked(food) == g,
        key != KB_ESC ==> g.keyed(key, food) == g,
        g.keyed(KB_ESC, food) == fresh(food),
{
}

/// How far a step in a direction leads: columns to the right and rows down.
pub open spec fn step(dir: Dir) -> (int, int) {
    match dir {
        Dir::Up => (0, -1),
        Dir::Down => (0, 1),
        Dir::Left => (-1, 0),
        Dir::Right => (1, 0),
    }
}

/// A step up leads to the row above, one down to the row below, one to the left or right to the column
/// on that side. A cell lies in the middle between those beside it in a direction and in the reverse
/// one, so that going there and back again changes nothing.
pub proof fn steps_lead_their_way(c: (i16, i16), dir: Dir)
    ensures
        beside(c, dir) == (c.0 + step(dir).0, c.1 + step(dir).1),
        beside(c, Dir::Up) == (c.0 as int, c.1 - 1),
        beside(c, Dir::Left) == (c.0 - 1, c.1 as int),
        beside(c, dir) != beside(c, dir.reverse()),
        beside(c, dir).0 + beside(c, dir.reverse()).0 == 2 * c.0,
        beside(c, dir).1 + beside(c, dir.reverse()).1 == 2 * c.1,
        dir.reverse().reverse() == dir,
        dir.reverse() != dir,
{
}

/// Where the next move of a game leads: a turn that waits is taken unless it leads straight back.
pub open spec fn course(g: Game) -> (int, int) {
    let ahead = step(g.dir);
    match g.pending {
        Some(d) => if step(d) == (-ahead.0, -ahead.1) {
            ahead
        } else {
            step(d)
        },
        None => ahead,
    }
}

/// The arrow keys steer: after one, the next move takes the head a cell up, down, left or right, as the
/// key says. Only the key that points straight back is not obeyed: the snake goes on as before. Until
/// the move nothing else changes, and other keys change nothing.
pub proof fn arrows_steer(g: Game, key: u16, food: (i16, i16), more: (i16, i16))
    requires
        g.wf(),
        !g.over,
    ensures
        ({
            let told = g.keyed(key, food);
            let n = told.ticked(more);
            let ahead = step(g.dir);
            let way = if key == KB_UP {
                (0int, -1int)
            } else if key == KB_DOWN {
                (0int, 1int)
            } else if key == KB_LEFT {
                (-1int, 0int)
            } else {
                (1int, 0int)
            };
            let arrow = key == KB_UP || key == KB_DOWN || key == KB_LEFT || key == KB_RIGHT;
            let go = if way == (-ahead.0, -ahead.1) {
                ahead
            } else {
                way
            };
            &&& told.snake == g.snake && told.food == g.food && told.score == g.score && !told.over
                && told.timer == g.timer && told.interval == g.interval && told.dir == g.dir
            &&& !arrow ==> told == g
            &&& arrow && told.due() && !n.over ==> {
                &&& n.snake[0].0 == g.snake[0].0 + go.0
                &&& n.snake[0].1 == g.snake[0].1 + go.1
                &&& step(n.dir) == go
                &&& n.pending is None
            }
        }),
{
    assert(in_field(g.snake[0]));
}

/// A move is due after as many ticks as the pace says. Until then a tick changes nothing but the count.
/// A move shifts the snake by a cell: the head goes where it is steered, and every other cell where the
/// one before it was. A snake that eats keeps its last cell too.
pub proof fn moves_shift_snake(g: Game, food: (i16, i16), i: int)
    requires
        g.wf(),
        !g.over,
    ensures
        ({
            let n = g.ticked(food);
            let due = g.timer + 1 >= g.interval;
            let head = (g.snake[0].0 + course(g).0, g.snake[0].1 + course(g).1);
            let eats = head == (g.food.0 as int, g.food.1 as int);
            &&& !due ==> n == (Game { timer: g.timer + 1, ..g })
            &&& due ==> n.timer == 0
            &&& due && !n.over ==> {
                &&& n.snake[0].0 == head.0 && n.snake[0].1 == head.1
                &&& 0 <= i < n.snake.len() - 1 ==> n.snake[i + 1] == g.snake[i]
                &&& n.snake.len() == g.snake.len() + (if eats {
                    1int
                } else {
                    0int
                })
                &&& n.score == g.score + (if eats {
                    10int
                } else {
                    0int
                })
                &&& n.food == if eats {
                    food
                } else {
                    g.food
                }
            }
            &&& due && n.over ==> n.snake == g.snake && n.score == g.score
        }),
{
    assert(in_field(g.snake[0]));
    assert(in_field(g.food));
}

/// A move ends the game exactly where it leads out of the field, or onto a cell of the snake that is
/// not its last one.
pub proof fn crashes_end_game(g: Game, food: (i16, i16))
    requires
        g.wf(),
        !g.over,
        g.timer + 1 >= g.interval,
    ensures
        ({
            let x = g.snake[0].0 + course(g).0;
            let y = g.snake[0].1 + course(g).1;
            let outside = x < 0 || x >= 22 || y < 0 || y >= 20;
            let bites = exists|i: int|
                0 <= i < g.snake.len() - 1 && (#[trigger] g.snake[i]).0 == x && g.snake[i].1 == y;
            g.ticked(food).over == (outside || bites)
        }),
{
    let s = g.snake;
    assert(in_field(s[0]));
    let x = s[0].0 + course(g).0;
    let y = s[0].1 + course(g).1;
    let t = g.target();
    assert(t.0 == x && t.1 == y);
    let bites = exists|i: int| 0 <= i < s.len() - 1 && (#[trigger] s[i]).0 == x && s[i].1 == y;
    if bites {
        let i = choose|i: int| 0 <= i < s.len() - 1 && (#[trigger] s[i]).0 == x && s[i].1 == y;
        assert(s[i] == t);
        assert(s.contains(t));
        assert(s[i] != s[s.len() - 1]);
    } else if s.contains(t) && t != s.last() {
        let i = choose|i: int| 0 <= i < s.len() && s[i] == t;
        assert(s[i].0 == x && s[i].1 == y);
        assert(i < s.len() - 1);
    }
}

/// Every fifty points make the snake faster by a tick, down to three; in between its pace stays.
pub proof fn pace_follows_score(score: int)
    requires
        0 <= score,
    ensures
        pace(0) == 12,
        pace(score + 50) == if pace(score) > 3 {
            pace(score) - 1
        } else {
            3
        },
        score % 50 < 49 ==> pace(score + 1) == pace(score),
{
}

/// A new game begins with a snake of three cells in a row, in the middle of the field's height, that
/// heads away from its other cells with its way free, and with nothing scored.
pub proof fn games_begin_alike(food: (i16, i16))
    ensures
        ({
            let g = fresh(food);
            &&& g.snake.len() == 3 && g.score == 0 && !g.over && g.timer == 0 && g.interval == 12
                && g.pending is None && g.food == food
            &&& forall|i: int|
                0 <= i < 3 ==> (#[trigger] g.snake[i]).1 == 10 && g.snake[i].0 == 2 - i
            &&& step(g.dir) == (1int, 0int)
        }),
{
}

/// Food can lie on any cell of the field that is not taken, and on no other.
pub proof fn food_lies_on_free_cells(taken: Seq<(i16, i16)>, c: (i16, i16))
    ensures
        free(taken, 440).contains(c) <==> (0 <= c.0 < 22 && 0 <= c.1 < 20 && !taken.contains(c)),
{
    lemma_free(taken, 440);
    let all = free(taken, 440);
    if all.contains(c) {
        let i = choose|i: int| 0 <= i < all.len() && all[i] == c;
        assert(in_field(all[i]));
    }
    if 0 <= c.0 < 22 && 0 <= c.1 < 20 && !taken.contains(c) {
        let n = c.1 * 22 + c.0;
        assert(0 <= n < 440);
        assert(n % 22 == c.0 && n / 22 == c.1);
        assert(nth_cell(n) == c);
    }
}

/// The picture shows every cell of a snake as a green block and the food as a red ball: further right
/// for a larger column, and further down for a larger row, by as much.
pub proof fn picture_shows_field(g: Game, width: int, height: int, i: int)
    requires
        g.wf(),
        !g.over,
        0 <= i < g.snake.len(),
    ensures
        ({
            let left = left_edge(width) + 1;
            let top = top_edge(height) + 1;
            &&& pixel(g, width, height, left + g.snake[i].0, top + g.snake[i].1) == ('█', 0x0au8)
            &&& pixel(g, width, height, left + g.food.0, top + g.food.1) == ('●', 0x0cu8)
        }),
{
    let c = g.snake[i];
    assert(in_field(c));
    assert(in_field(g.food));
    assert(g.snake.contains(c));
    let p = (c.0 as int, c.1 as int);
    assert(is_at(g.snake, p)) by {
        assert(g.snake[i].0 as int == p.0);
    }
}

/// A cell of the field with neither snake nor food on it is shown empty, on black.
pub proof fn picture_shows_free_cells(g: Game, width: int, height: int, c: (i16, i16))
    requires
        g.wf(),
        !g.over,
        in_field(c),
        !g.snake.contains(c),
        c != g.food,
    ensures
        pixel(g, width, height, left_edge(width) + 1 + c.0, top_edge(height) + 1 + c.1) == (
            ' ',
            0x00u8,
        ),
{
    let p = (c.0 as int, c.1 as int);
    if is_at(g.snake, p) {
        let i = choose|i: int|
            0 <= i < g.snake.len() && (#[trigger] g.snake[i]).0 as int == p.0 && g.snake[i].1 as int
                == p.1;
        assert(g.snake[i] == c);
    }
}

/// The picture stands in the middle of a window that is large enough for it.
pub proof fn picture_is_centered(width: int, height: int)
    requires
        38 <= width,
        22 <= height,
    ensures
        ({
            let right = width - 38 - left_edge(width);
            let below = height - 22 - top_edge(height);
            &&& left_edge(width) >= 0 && 0 <= right - left_edge(width) <= 1
            &&& top_edge(height) >= 0 && 0 <= below - top_edge(height) <= 1
        }),
{
}

/// The lines beside the field tell score and length.
pub proof fn side_tells_score(g: Game)
    requires
        g.score >= 0,
    ensures
        text::begins(side_lines(g)[0], "Score:"@),
        text::ends(side_lines(g)[0], text::decimal(g.score as nat)),
        text::begins(side_lines(g)[1], "Length:"@),
        text::ends(side_lines(g)[1], text::decimal(g.snake.len())),
{
    let a = side_lines(g)[0];
    let b = side_lines(g)[1];
    let s = text::decimal(g.score as nat);
    let l = text::decimal(g.snake.len());
    assert(a.subrange(0, "Score:"@.len() as int) =~= "Score:"@);
    assert(a.subrange(a.len() - s.len(), a.len() as int) =~= s);
    assert(b.subrange(0, "Length:"@.len() as int) =~= "Length:"@);
    assert(b.subrange(b.len() - l.len(), b.len() as int) =~= l);
}

/// The text beside the field stands line by line below each other, where there is room for it; a game
/// that is over says so in the middle of the picture.
pub proof fn picture_shows_text(g: Game, width: int, height: int, k: int, i: int)
    requires
        width >= 38,
        0 <= k < side_lines(g).len(),
        0 <= i < side_lines(g)[k].len(),
    ensures
        ({
            let x = left_edge(width) + 26 + i;
            let y = top_edge(height) + 1 + k;
            !g.over ==> pixel(g, width, height, x, y) == (side_lines(g)[k][i], screen::DIALOG)
        }),
        g.over && i < 9 ==> pixel(g, width, height, (width - 9) / 2 + i, top_edge(height) + 12) == (
            "GAME OVER"@[i],
            0x7cu8,
        ),
{
}

} // verus!
