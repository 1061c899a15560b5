//! Cells of text on the screen: single rows, and canvases of rows.
use vstd::prelude::*;
use vstd::string::*;
use crate::geometry;
use crate::text;

verus! {

/// A row of screen cells.
#[verifier::external_type_specification]
#[verifier::external_body]
pub struct ExDrawBuffer(turbo_vision::core::draw::DrawBuffer);

/// The cells of a row: for each its character and its colors, foreground in the lower half of the
/// byte and background in the upper half.
pub uninterp spec fn cells(b: turbo_vision::core::draw::DrawBuffer) -> Seq<(char, u8)>;

/// How many cells `UnicodeWidthChar::width` gives a character; 0, where it gives none.
pub uninterp spec fn unicode_width(c: char) -> nat;

/// The colors of the background of the application: light gray on blue.
pub const NORMAL: u8 = 0x17;

/// The colors of a dialog: black on light gray.
pub const DIALOG: u8 = 0x70;

/// How many cells a character takes that has the width `width` in Unicode: the printable characters of
/// ASCII, the letters of Latin-1 and the full block take one, all others their width.
pub open spec fn cell_width(c: char, width: nat) -> nat {
    if ' ' <= c <= '~' || 'À' <= c <= 'ÿ' || c == '█' {
        1
    } else {
        width
    }
}

/// Whether a character takes exactly one cell.
pub open spec fn narrow(c: char) -> bool {
    cell_width(c, unicode_width(c)) == 1
}

/// Whether all characters of a text take exactly one cell.
pub open spec fn all_narrow(s: Seq<char>) -> bool {
    forall|i: int| 0 <= i < s.len() ==> narrow(#[trigger] s[i])
}

/// Some cells with a text in them, one cell for each character, from `pos` on as far as they reach.
pub open spec fn overlaid(
    before: Seq<(char, u8)>,
    pos: int,
    text: Seq<char>,
    colors: u8,
) -> Seq<(char, u8)> {
    Seq::new(
        before.len(),
        |i: int|
            if pos <= i < pos + text.len() {
                (text[i - pos], colors)
            } else {
                before[i]
            },
    )
}

/// Some cells with a character in them that takes `width` cells from `pos` on, as far as they reach:
/// the first holds the character, the others hold nothing.
pub open spec fn put(before: Seq<(char, u8)>, pos: int, c: char, width: nat, colors: u8) -> Seq<
    (char, u8),
> {
    Seq::new(
        before.len(),
        |i: int|
            if i == pos {
                (c, colors)
            } else if pos < i < pos + width {
                ('\0', colors)
            } else {
                before[i]
            },
    )
}

/// Some cells with a text in them, whose characters have the given widths, from `pos` on as far as they
/// reach: each character takes its cells, one after the other; those that take none are left out.
pub open spec fn spread(
    before: Seq<(char, u8)>,
    pos: int,
    text: Seq<char>,
    widths: Seq<nat>,
    colors: u8,
) -> Seq<(char, u8)>
    decreases text.len(),
{
    if text.len() == 0 || pos >= before.len() {
        before
    } else {
        let width = cell_width(text[0], widths[0]);
        spread(
            if width == 0 {
                before
            } else {
                put(before, pos, text[0], width, colors)
            },
            pos + width,
            text.drop_first(),
            widths.drop_first(),
            colors,
        )
    }
}

/// The widths of the characters of a text.
pub open spec fn widths(text: Seq<char>) -> Seq<nat> {
    Seq::new(text.len(), |i: int| unicode_width(text[i]))
}

/// Some cells with a text in them, from `pos` on as far as they reach.
pub open spec fn painted(
    before: Seq<(char, u8)>,
    pos: int,
    text: Seq<char>,
    colors: u8,
) -> Seq<(char, u8)> {
    spread(before, pos, text, widths(text), colors)
}

/// `width` cells without anything in them, light gray on black.
pub open spec fn blank(width: nat) -> Seq<(char, u8)> {
    Seq::new(width, |i: int| (' ', 0x07u8))
}

/// `DrawBuffer::new` makes a row of blank cells.
#[verifier::external_body]
pub(crate) fn new_row(width: usize) -> (r: turbo_vision::core::draw::DrawBuffer)
    requires
        width <= 0x7fff,
    ensures
        cells(r) == blank(width as nat),
{
    turbo_vision::core::draw::DrawBuffer::new(width)
}

/// `DrawBuffer::move_char` fills `count` cells from `pos` on with a character, as far as the row
/// reaches.
#[verifier::external_body]
fn fill_cells(b: &mut turbo_vision::core::draw::DrawBuffer, pos: usize, c: char, colors: u8, count: usize)
    requires
        pos + count <= usize::MAX,
    ensures
        cells(*final(b)) == overlaid(
            cells(*old(b)),
            pos as int,
            text::repeated(c, count as nat),
            colors,
        ),
{
    b.move_char(pos, c, turbo_vision::core::palette::Attr::from_u8(colors), count)
}

/// `DrawBuffer::move_str` writes a text from `pos` on, as far as the row reaches: characters without
/// width are left out, others take as many cells as `UnicodeWidthChar::width` says, of which those
/// after the first hold the character zero.
#[verifier::external_body]
fn move_text(b: &mut turbo_vision::core::draw::DrawBuffer, pos: usize, s: &str, colors: u8)
    ensures
        cells(*final(b)) == spread(
            cells(*old(b)),
            pos as int,
            s@,
            Seq::new(s@.len(), |i: int| unicode_width(s@[i])),
            colors,
        ),
{
    b.move_str(pos, s, turbo_vision::core::palette::Attr::from_u8(colors))
}

/// Writes a text from `pos` on, as far as the row reaches.
pub(crate) fn paint(b: &mut turbo_vision::core::draw::DrawBuffer, pos: usize, s: &str, colors: u8)
    ensures
        cells(*final(b)) == painted(cells(*old(b)), pos as int, s@, colors),
{
    move_text(b, pos, s, colors);
    assert(widths(s@) =~= Seq::new(s@.len(), |i: int| unicode_width(s@[i])));
}

/// Painting keeps the number of cells. A text of characters that take one cell each is laid over the
/// cells.
pub proof fn painted_cells(before: Seq<(char, u8)>, pos: int, text: Seq<char>, colors: u8)
    requires
        0 <= pos,
    ensures
        painted(before, pos, text, colors).len() == before.len(),
        all_narrow(text) ==> painted(before, pos, text, colors) == overlaid(
            before,
            pos,
            text,
            colors,
        ),
    decreases text.len(),
{
    if text.len() == 0 || pos >= before.len() {
        assert(overlaid(before, pos, text, colors) =~= before);
    } else {
        let width = cell_width(text[0], unicode_width(text[0]));
        let rest = text.drop_first();
        assert(widths(text).drop_first() =~= widths(rest));
        if width == 0 {
            painted_cells(before, pos, rest, colors);
            assert(!narrow(text[0]));
        } else {
            let next = put(before, pos, text[0], width, colors);
            painted_cells(next, pos + width, rest, colors);
            if all_narrow(text) {
                assert(narrow(text[0]));
                assert forall|i: int| 0 <= i < rest.len() implies narrow(#[trigger] rest[i]) by {
                    assert(narrow(text[i + 1]));
                }
                assert(overlaid(next, pos + 1, rest, colors) =~= overlaid(before, pos, text, colors));
            }
        }
    }
}

/// Rows of screen cells, one below the other, all of the same width.
pub struct Canvas {
    pub width: usize,
    pub rows: Vec<turbo_vision::core::draw::DrawBuffer>,
}

impl Canvas {
    /// Whether all rows have the width of the canvas.
    pub open spec fn wf(self) -> bool {
        forall|y: int|
            0 <= y < self.rows@.len() ==> cells(#[trigger] self.rows@[y]).len() == self.width
    }

    /// Whether column `x` of row `y` is on the canvas.
    pub open spec fn holds(self, x: int, y: int) -> bool {
        0 <= x < self.width && 0 <= y < self.rows@.len()
    }

    /// The cell in column `x` of row `y`.
    pub open spec fn cell(self, x: int, y: int) -> (char, u8) {
        cells(self.rows@[y])[x]
    }

    /// Whether the canvas shows what `f` says of each cell.
    pub open spec fn shows(self, f: spec_fn(int, int) -> (char, u8)) -> bool {
        forall|x: int, y: int| self.holds(x, y) ==> #[trigger] self.cell(x, y) == f(x, y)
    }

    /// A canvas whose cells all hold a space in the given colors.
    pub fn new(width: usize, height: usize, colors: u8) -> (r: Canvas)
        requires
            width <= 0x7fff,
        ensures
            r.wf(),
            r.width == width,
            r.rows@.len() == height,
            r.shows(|x: int, y: int| (' ', colors)),
    {
        let mut r: Canvas = Canvas { width, rows: Vec::new() };
        let line: String = text::repeat(' ', width);
        let mut n: usize = 0;
        while n < height
            invariant
                width <= 0x7fff,
                n <= height,
                line@ == text::repeated(' ', width as nat),
                r.wf(),
                r.width == width,
                r.rows@.len() == n,
                r.shows(|x: int, y: int| (' ', colors)),
            decreases height - n,
        {
            let mut row: turbo_vision::core::draw::DrawBuffer = new_row(width);
            proof {
                painted_cells(cells(row), 0, line@, colors);
            }
            paint(&mut row, 0, &line, colors);
            let ghost before = r;
            r.rows.push(row);
            n += 1;
            assert forall|x: int, y: int| r.holds(x, y) implies #[trigger] r.cell(x, y) == (
                ' ',
                colors,
            ) by {
                if y < before.rows@.len() {
                    assert(r.cell(x, y) == before.cell(x, y));
                }
            }
        }
        r
    }

    /// Fills `count` cells of a row from `x` on with a character, as far as the canvas reaches.
    pub fn fill(&mut self, x: usize, y: usize, c: char, colors: u8, count: usize)
        requires
            old(self).wf(),
            x + count <= usize::MAX,
        ensures
            final(self).wf(),
            final(self).width == old(self).width,
            final(self).rows@.len() == old(self).rows@.len(),
            forall|i: int, j: int|
                old(self).holds(i, j) ==> #[trigger] final(self).cell(i, j) == (if j == y && x <= i < x
                    + count {
                    (c, colors)
                } else {
                    old(self).cell(i, j)
                }),
    {
        if y < self.rows.len() {
            fill_cells(&mut self.rows[y], x, c, colors, count);
        }
    }

    /// Writes a text of narrow characters into a row from `x` on, as far as the canvas reaches.
    pub fn write(&mut self, x: usize, y: usize, s: &str, colors: u8)
        requires
            old(self).wf(),
            all_narrow(s@),
        ensures
            final(self).wf(),
            final(self).width == old(self).width,
            final(self).rows@.len() == old(self).rows@.len(),
            forall|i: int, j: int|
                old(self).holds(i, j) ==> #[trigger] final(self).cell(i, j) == (if j == y && x <= i < x
                    + s@.len() {
                    (s@[i - x], colors)
                } else {
                    old(self).cell(i, j)
                }),
    {
        if y < self.rows.len() {
            proof {
                painted_cells(cells(self.rows@[y as int]), x as int, s@, colors);
            }
            paint(&mut self.rows[y], x, s, colors);
        }
    }

    /// Fills a rectangle with spaces in the given colors, as far as the canvas reaches.
    pub fn clear(&mut self, x: usize, y: usize, width: usize, height: usize, colors: u8)
        requires
            old(self).wf(),
            x + width <= usize::MAX,
            y + height <= usize::MAX,
        ensures
            final(self).wf(),
            final(self).width == old(self).width,
            final(self).rows@.len() == old(self).rows@.len(),
            forall|i: int, j: int|
                old(self).holds(i, j) ==> #[trigger] final(self).cell(i, j) == (if y <= j < y + height && x <= i
                    < x + width {
                    (' ', colors)
                } else {
                    old(self).cell(i, j)
                }),
    {
        let mut n: usize = 0;
        while n < height
            invariant
                n <= height,
                x + width <= usize::MAX,
                y + height <= usize::MAX,
                self.wf(),
                self.width == old(self).width,
                self.rows@.len() == old(self).rows@.len(),
                forall|i: int, j: int|
                    old(self).holds(i, j) ==> #[trigger] self.cell(i, j) == (if y <= j < y + n && x <= i < x
                        + width {
                        (' ', colors)
                    } else {
                        old(self).cell(i, j)
                    }),
            decreases height - n,
        {
            self.fill(x, y + n, ' ', colors, width);
            n += 1;
        }
    }

    /// Writes lines of narrow characters, one below the other, as far as the canvas reaches.
    pub fn write_lines(&mut self, x: usize, y: usize, lines: &Vec<String>, colors: u8)
        requires
            old(self).wf(),
            y + lines@.len() <= usize::MAX,
            forall|k: int| 0 <= k < lines@.len() ==> all_narrow(#[trigger] lines@[k]@),
        ensures
            final(self).wf(),
            final(self).width == old(self).width,
            final(self).rows@.len() == old(self).rows@.len(),
            forall|i: int, j: int|
                old(self).holds(i, j) ==> #[trigger] final(self).cell(i, j) == lined(
                    old(self).cell(i, j),
                    x as int,
                    y as int,
                    text::texts(lines@),
                    colors,
                    i,
                    j,
                ),
    {
        let ghost all = text::texts(lines@);
        let mut n: usize = 0;
        while n < lines.len()
            invariant
                n <= lines@.len(),
                all == text::texts(lines@),
                y + lines@.len() <= usize::MAX,
                forall|k: int| 0 <= k < lines@.len() ==> all_narrow(#[trigger] lines@[k]@),
                self.wf(),
                self.width == old(self).width,
                self.rows@.len() == old(self).rows@.len(),
                forall|i: int, j: int|
                    old(self).holds(i, j) ==> #[trigger] self.cell(i, j) == lined(
                        old(self).cell(i, j),
                        x as int,
                        y as int,
                        all.take(n as int),
                        colors,
                        i,
                        j,
                    ),
            decreases lines.len() - n,
        {
            self.write(x, y + n, &lines[n], colors);
            n += 1;
        }
        assert(all.take(n as int) =~= all);
    }

    /// Writes into the middle of the rows `y` and `y + 1` that the game is over.
    pub fn draw_over(&mut self, y: usize)
        requires
            old(self).wf(),
            old(self).width <= 0x7fff,
            y < usize::MAX,
        ensures
            final(self).wf(),
            final(self).width == old(self).width,
            final(self).rows@.len() == old(self).rows@.len(),
            forall|i: int, j: int|
                old(self).holds(i, j) ==> #[trigger] final(self).cell(i, j) == over_pixel(
                    old(self).cell(i, j),
                    old(self).width as int,
                    y as int,
                    i,
                    j,
                ),
    {
        proof {
            reveal_strlit("GAME OVER");
            reveal_strlit("Press ESC to restart");
        }
        let first: usize = if self.width > 9 {
            (self.width - 9) / 2
        } else {
            0
        };
        let second: usize = if self.width > 20 {
            (self.width - 20) / 2
        } else {
            0
        };
        self.write(first, y, "GAME OVER", 0x7c);
        self.write(second, y + 1, "Press ESC to restart", DIALOG);
    }
}

/// What a cell shows, when the rows `row` and `row + 1` say that the game is over.
pub open spec fn over_pixel(below: (char, u8), width: int, row: int, x: int, y: int) -> (char, u8) {
    let first = geometry::larger(width - 9, 0) / 2;
    let second = geometry::larger(width - 20, 0) / 2;
    if y == row && first <= x < first + 9 {
        ("GAME OVER"@[x - first], 0x7c)
    } else if y == row + 1 && second <= x < second + 20 {
        ("Press ESC to restart"@[x - second], DIALOG)
    } else {
        below
    }
}

/// What a cell shows, when lines are written over it: the first from column `left` of row `top` on,
/// the others below it.
pub open spec fn lined(
    below: (char, u8),
    left: int,
    top: int,
    lines: Seq<Seq<char>>,
    colors: u8,
    x: int,
    y: int,
) -> (char, u8) {
    if 0 <= y - top < lines.len() && left <= x < left + lines[y - top].len() {
        (lines[y - top][x - left], colors)
    } else {
        below
    }
}

/// Digits are narrow.
pub proof fn lemma_decimal_narrow(n: nat)
    ensures
        all_narrow(text::decimal(n)),
    decreases n,
{
    if n >= 10 {
        lemma_decimal_narrow(n / 10);
    }
}

/// When a game is over, two rows say so in the middle of the picture; all other rows stay as they are.
pub proof fn over_is_told_in_middle(below: (char, u8), width: int, row: int, k: int, x: int, y: int)
    requires
        width >= 20,
        0 <= k,
        y != row && y != row + 1,
    ensures
        k < 9 ==> over_pixel(below, width, row, (width - 9) / 2 + k, row) == ("GAME OVER"@[k], 0x7cu8),
        k < 20 ==> over_pixel(below, width, row, (width - 20) / 2 + k, row + 1) == (
            "Press ESC to restart"@[k],
            DIALOG,
        ),
        over_pixel(below, width, row, x, y) == below,
{
}

/// Lines stand below each other, each from the same column on; where there is no line, and in front of
/// it and behind it, nothing changes.
pub proof fn lines_stand_below_each_other(
    below: (char, u8),
    left: int,
    top: int,
    lines: Seq<Seq<char>>,
    colors: u8,
    k: int,
    i: int,
)
    requires
        0 <= k < lines.len(),
    ensures
        0 <= i < lines[k].len() ==> lined(below, left, top, lines, colors, left + i, top + k) == (
            lines[k][i],
            colors,
        ),
        i < 0 || i >= lines[k].len() ==> lined(below, left, top, lines, colors, left + i, top + k)
            == below,
        lined(below, left, top, lines, colors, left + i, top + lines.len()) == below,
        lined(below, left, top, lines, colors, left + i, top - 1) == below,
{
}

} // verus!
