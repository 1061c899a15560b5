//! The contents of windows: the server's log and certificate sets, and how they scroll.
use vstd::prelude::*;
use vstd::string::*;
use crate::certs::CertSet;
use crate::clock;
use crate::clock::Moment;
use crate::geometry;
use crate::geometry::Rect;
use crate::highlight;
use crate::keys::{KB_DOWN, KB_LEFT, KB_RIGHT, KB_UP};
use crate::screen;
use crate::text;

verus! {

/// What a window is told.
#[derive(Debug, Clone, Copy, PartialEq, Eq, Structural)]
pub enum Input {
    Key(u16),
    WheelUp,
    WheelDown,
    Other,
}

/// The first line that the log shows after some input; `None` where the input is for someone else.
pub open spec fn scrolled(offset: int, input: Input) -> Option<int> {
    match input {
        Input::Key(k) => if k == KB_UP {
            Some(geometry::larger(offset - 4, 0))
        } else if k == KB_DOWN {
            Some(geometry::smaller(offset + 4, usize::MAX as int))
        } else {
            None
        },
        Input::WheelUp => Some(geometry::larger(offset - 2, 0)),
        Input::WheelDown => Some(geometry::smaller(offset + 2, usize::MAX as int)),
        Input::Other => None,
    }
}

/// Scrolls the log by keys and by the wheel. The result tells whether the input was for it.
pub fn scroll_handler(input: Input, offset: &mut usize) -> (r: bool)
    ensures
        r == (scrolled(*old(offset) as int, input) is Some),
        *final(offset) as int == (match scrolled(*old(offset) as int, input) {
            Some(n) => n,
            None => *old(offset) as int,
        }),
{
    match input {
        Input::Key(k) => if k == KB_UP {
            *offset = offset.saturating_sub(4);
            true
        } else if k == KB_DOWN {
            *offset = offset.saturating_add(4);
            true
        } else {
            false
        },
        Input::WheelUp => {
            *offset = offset.saturating_sub(2);
            true
        },
        Input::WheelDown => {
            *offset = offset.saturating_add(2);
            true
        },
        Input::Other => false,
    }
}

/// A text cut or filled up with spaces to `width` characters.
pub open spec fn fitted(line: Seq<char>, width: nat) -> Seq<char> {
    text::padded_right(
        if line.len() > width {
            line.take(width as int)
        } else {
            line
        },
        width,
    )
}

/// The cells that show a line of text.
pub open spec fn plain_row(line: Seq<char>, width: nat) -> Seq<(char, u8)> {
    screen::painted(screen::blank(width), 0, fitted(line, width), screen::NORMAL)
}

/// The cells of an empty row.
pub open spec fn empty_row(width: nat) -> Seq<(char, u8)> {
    screen::painted(screen::blank(width), 0, text::repeated(' ', width), screen::NORMAL)
}

/// The cells of some rows.
pub open spec fn rows_view(rows: Seq<turbo_vision::core::draw::DrawBuffer>) -> Seq<
    Seq<(char, u8)>,
> {
    Seq::new(rows.len(), |y: int| screen::cells(rows[y]))
}

/// Draws a line of text into a row.
pub fn draw_text_line(line: &str, width: usize) -> (r: turbo_vision::core::draw::DrawBuffer)
    requires
        width <= 0x7fff,
    ensures
        screen::cells(r) == plain_row(line@, width as nat),
{
    let cs: Vec<char> = text::chars_of(line);
    let cut: String = if cs.len() > width {
        text::slice_of(&cs, 0, width)
    } else {
        line.to_string()
    };
    assert(cs@.len() > width ==> cs@.subrange(0, width as int) =~= line@.take(width as int));
    let mut row: turbo_vision::core::draw::DrawBuffer = screen::new_row(width);
    screen::paint(&mut row, 0, &text::pad_right(&cut, width), screen::NORMAL);
    row
}

/// An empty row.
fn draw_empty(width: usize) -> (r: turbo_vision::core::draw::DrawBuffer)
    requires
        width <= 0x7fff,
    ensures
        screen::cells(r) == empty_row(width as nat),
{
    let mut row: turbo_vision::core::draw::DrawBuffer = screen::new_row(width);
    screen::paint(&mut row, 0, &text::repeat(' ', width), screen::NORMAL);
    row
}

/// The first line that a window of some height shows, so that it is full as far as there are lines.
pub open spec fn first_line(offset: int, total: int, height: int) -> int {
    geometry::smaller(offset, geometry::larger(total - height, 0))
}

/// The rows of the window with the server's log: its lines from the first that is shown on; a hint
/// where there are none; nothing where the log cannot be read.
pub open spec fn log_rows(
    log: Option<Seq<Seq<char>>>,
    offset: int,
    width: nat,
    height: nat,
) -> Seq<Seq<(char, u8)>> {
    Seq::new(
        height,
        |y: int|
            match log {
                Some(lines) => if width > 0 && lines.len() == 0 && y == 0 {
                    screen::painted(
                        screen::blank(width),
                        0,
                        "(no API activity yet)"@,
                        screen::NORMAL,
                    )
                } else if width > 0 && first_line(offset, lines.len() as int, height as int) + y
                    < lines.len() {
                    plain_row(
                        lines[first_line(offset, lines.len() as int, height as int) + y],
                        width,
                    )
                } else {
                    empty_row(width)
                },
                None => empty_row(width),
            },
    )
}

/// The contents of an optional list of strings.
pub open spec fn log_view(log: Option<&Vec<String>>) -> Option<Seq<Seq<char>>> {
    match log {
        Some(v) => Some(text::texts(v@)),
        None => None,
    }
}

/// The offset of the log after it was drawn: back to where the window is full, if anything is shown.
pub open spec fn settled(total: Option<int>, offset: int, columns: int, rows: int) -> int {
    match total {
        Some(n) => if columns > 0 && rows > 0 && n > 0 {
            first_line(offset, n, rows)
        } else {
            offset
        },
        None => offset,
    }
}

/// Draws the server's log, and moves its offset back to where the window is full.
pub fn draw_log(log: Option<&Vec<String>>, offset: &mut usize, bounds: Rect) -> (r: Vec<
    turbo_vision::core::draw::DrawBuffer,
>)
    requires
        bounds.measurable(),
    ensures
        rows_view(r@) == log_rows(
            log_view(log),
            *old(offset) as int,
            bounds.columns() as nat,
            bounds.rows() as nat,
        ),
        *final(offset) == settled(
            match log {
                Some(v) => Some(v@.len() as int),
                None => None,
            },
            *old(offset) as int,
            bounds.columns(),
            bounds.rows(),
        ),
        *final(offset) == (match log {
            Some(v) => if bounds.columns() > 0 && bounds.rows() > 0 && v@.len() > 0 {
                first_line(*old(offset) as int, v@.len() as int, bounds.rows())
            } else {
                *old(offset) as int
            },
            None => *old(offset) as int,
        }),
{
    let width: usize = bounds.width_clamped();
    let height: usize = bounds.height_clamped();
    let ghost goal = log_rows(log_view(log), *offset as int, width as nat, height as nat);
    let ghost first = match log {
        Some(v) => first_line(*offset as int, v@.len() as int, height as int),
        None => 0,
    };
    let mut rows: Vec<turbo_vision::core::draw::DrawBuffer> = Vec::new();
    if width > 0 && height > 0 {
        if let Some(lines) = log {
            let total: usize = lines.len();
            assert(text::texts(lines@).len() == total);
            if total == 0 {
                let mut row: turbo_vision::core::draw::DrawBuffer = screen::new_row(width);
                screen::paint(&mut row, 0, "(no API activity yet)", screen::NORMAL);
                rows.push(row);
            } else {
                let last: usize = total.saturating_sub(height);
                if *offset > last {
                    *offset = last;
                }
                let mut n: usize = 0;
                while n < height && n < total - *offset
                    invariant
                        n <= height,
                        *offset == first,
                        n <= total - *offset,
                        *offset <= total,
                        total == lines@.len(),
                        total > 0,
                        width > 0,
                        width <= 0x7fff,
                        log == Some(lines),
                        height > 0,
                        first == first_line(*old(offset) as int, total as int, height as int),
                        goal == log_rows(
                            log_view(log),
                            *old(offset) as int,
                            width as nat,
                            height as nat,
                        ),
                        rows@.len() == n,
                        forall|y: int| 0 <= y < n ==> screen::cells(#[trigger] rows@[y]) == goal[y],
                    decreases height - n,
                {
                    assert(text::texts(lines@)[*offset + n] == lines@[*offset + n]@);
                    rows.push(draw_text_line(&lines[*offset + n], width));
                    n += 1;
                }
            }
        }
    }
    while rows.len() < height
        invariant
            width <= 0x7fff,
            rows@.len() <= height,
            goal.len() == height,
            forall|y: int| 0 <= y < rows@.len() ==> screen::cells(#[trigger] rows@[y]) == goal[y],
            forall|y: int|
                rows@.len() <= y < height ==> #[trigger] goal[y] == empty_row(width as nat),
        decreases height - rows.len(),
    {
        rows.push(draw_empty(width));
    }
    assert(rows_view(rows@) =~= goal);
    rows
}

/// The text of a certificate set's window, and the version of the set that it was made of.
pub struct SetPane {
    pub lines: Vec<String>,
    pub seen: u64,
}

impl SetPane {
    /// A pane that has seen nothing yet.
    pub fn new() -> (r: SetPane)
        ensures
            r.lines@.len() == 0,
            r.seen == u64::MAX,
    {
        SetPane { lines: Vec::new(), seen: u64::MAX }
    }

    /// Whether the text has to be made anew for a set.
    pub open spec fn stale(self, set: CertSet) -> bool {
        set.version != self.seen || self.lines@.len() == 0
    }

    /// Makes the text anew as of the moment `now`, if the set has changed.
    pub fn refresh_at(&mut self, set: &CertSet, now: Moment)
        ensures
            final(self).seen == set.version,
            old(self).stale(*set) ==> text::texts(final(self).lines@) == set.window(now),
            !old(self).stale(*set) ==> final(self).lines == old(self).lines,
    {
        if set.version != self.seen || self.lines.len() == 0 {
            self.lines = set.render_at(now);
            self.seen = set.version;
        }
    }

    /// Makes the text anew as of some moment, if the set has changed.
    pub fn refresh_if_needed(&mut self, set: &CertSet)
        ensures
            final(self).seen == set.version,
            old(self).stale(*set) ==> exists|now: Moment|
                text::texts(final(self).lines@) == #[trigger] set.window(now),
            !old(self).stale(*set) ==> final(self).lines == old(self).lines,
    {
        self.refresh_at(set, clock::now());
    }
}

/// How far a scroll bar reaches.
#[derive(Debug, Clone, Copy, PartialEq, Eq, Structural)]
pub struct BarParams {
    /// The largest value; the smallest is 0.
    pub max: i32,
    /// By how much a page scrolls.
    pub page: i32,
    /// How much there is to show.
    pub total: i32,
}

/// The reach of a scroll bar for something `total` long, of which `extent` can be seen.
pub open spec fn reach(total: int, extent: int) -> BarParams {
    let page = geometry::larger(extent, 1);
    BarParams {
        max: geometry::larger(total - page, 0) as i32,
        page: (page - 1) as i32,
        total: total as i32,
    }
}

/// How many characters the longest line has.
pub open spec fn longest(lines: Seq<Seq<char>>) -> int
    decreases lines.len(),
{
    if lines.len() == 0 {
        0
    } else {
        geometry::larger(longest(lines.drop_last()), lines.last().len() as int)
    }
}

/// How many characters the longest line has.
pub fn longest_line(lines: &Vec<String>) -> (r: usize)
    ensures
        r == longest(text::texts(lines@)),
{
    let ghost all = text::texts(lines@);
    let mut most: usize = 0;
    let mut i: usize = 0;
    assert(all.take(0) =~= Seq::empty());
    while i < lines.len()
        invariant
            i <= lines@.len(),
            all == text::texts(lines@),
            most == longest(all.take(i as int)),
        decreases lines.len() - i,
    {
        let n: usize = text::chars_of(&lines[i]).len();
        assert(all[i as int].len() == n);
        if n > most {
            most = n;
        }
        i += 1;
        assert(all.take(i as int).drop_last() =~= all.take(i - 1));
    }
    assert(all.take(i as int) =~= all);
    most
}

/// Whether numbers of lines and characters fit the scroll bars.
pub open spec fn scrollable(lines: Seq<Seq<char>>) -> bool {
    lines.len() <= i32::MAX - 3 && longest(lines) <= i32::MAX - 3
}

fn reach_of(total: usize, extent: usize) -> (r: BarParams)
    requires
        total <= i32::MAX,
        extent <= 0x7fff,
    ensures
        r == reach(total as int, extent as int),
{
    let page: i32 = if extent > 1 {
        extent as i32
    } else {
        1
    };
    let max: i32 = if total as i32 > page {
        total as i32 - page
    } else {
        0
    };
    BarParams { max, page: page - 1, total: total as i32 }
}

/// The reach of the vertical and of the horizontal scroll bar for some lines.
pub fn scrollbar_params(lines: &Vec<String>, bounds: Rect) -> (r: (BarParams, BarParams))
    requires
        bounds.measurable(),
        scrollable(text::texts(lines@)),
    ensures
        r.0 == reach(lines@.len() as int, bounds.rows()),
        r.1 == reach(longest(text::texts(lines@)), bounds.columns()),
{
    assert(text::texts(lines@).len() == lines@.len());
    (
        reach_of(lines.len(), bounds.height_clamped()),
        reach_of(longest_line(lines), bounds.width_clamped()),
    )
}

/// One of the scroll bars of a window.
#[derive(Debug, Clone, Copy, PartialEq, Eq, Structural)]
pub enum Bar {
    Vertical,
    Horizontal,
}

/// By which bar and to which value some input scrolls, when the bars stand at `v` and `h` and reach
/// up to `max_v` and `max_h`; `None` where the input does not scroll. The wheel may ask for a value
/// beyond the bar's ends, at which the bar stops.
pub open spec fn set_scrolled(input: Input, v: int, h: int, max_v: int, max_h: int) -> Option<
    (Bar, int),
> {
    match input {
        Input::Key(k) => if k == KB_DOWN && v < max_v {
            Some((Bar::Vertical, v + 1))
        } else if k == KB_UP && v > 0 {
            Some((Bar::Vertical, v - 1))
        } else if k == KB_LEFT && h > 0 {
            Some((Bar::Horizontal, h - 1))
        } else if k == KB_RIGHT && h < max_h {
            Some((Bar::Horizontal, h + 1))
        } else {
            None
        },
        Input::WheelUp => if v > 0 {
            Some((Bar::Vertical, v - 3))
        } else {
            None
        },
        Input::WheelDown => if v < max_v {
            Some((Bar::Vertical, v + 3))
        } else {
            None
        },
        Input::Other => None,
    }
}

/// How many lines or columns are beyond what can be seen.
pub open spec fn hidden(total: int, extent: int) -> int {
    geometry::larger(total - extent, 0)
}

/// Scrolls the text of a certificate set: by which bar and to which value.
pub fn scroll_set(input: Input, v: i32, h: i32, lines: &Vec<String>, bounds: Rect) -> (r: Option<
    (Bar, i32),
>)
    requires
        bounds.measurable(),
        scrollable(text::texts(lines@)),
    ensures
        ({
            let scroll = set_scrolled(
                input,
                v as int,
                h as int,
                if bounds.rows() > 0 {
                    hidden(lines@.len() as int, bounds.rows())
                } else {
                    0
                },
                hidden(longest(text::texts(lines@)), bounds.columns()),
            );
            match r {
                Some(s) => scroll == Some((s.0, s.1 as int)),
                None => scroll is None,
            }
        }),
{
    assert(text::texts(lines@).len() == lines@.len());
    let height: usize = bounds.height_clamped();
    let max_v: i32 = if height > 0 {
        lines.len().saturating_sub(height) as i32
    } else {
        0
    };
    let max_h: i32 = longest_line(lines).saturating_sub(bounds.width_clamped()) as i32;
    match input {
        Input::Key(k) => if k == KB_DOWN && v < max_v {
            Some((Bar::Vertical, v + 1))
        } else if k == KB_UP && v > 0 {
            Some((Bar::Vertical, v - 1))
        } else if k == KB_LEFT && h > 0 {
            Some((Bar::Horizontal, h - 1))
        } else if k == KB_RIGHT && h < max_h {
            Some((Bar::Horizontal, h + 1))
        } else {
            None
        },
        Input::WheelUp => if v > 0 {
            Some((Bar::Vertical, v - 3))
        } else {
            None
        },
        Input::WheelDown => if v < max_v {
            Some((Bar::Vertical, v + 3))
        } else {
            None
        },
        Input::Other => None,
    }
}

/// The rows of a certificate set's window: its lines in color, from the first that is shown and from
/// the column `h` on.
pub open spec fn set_rows(lines: Seq<Seq<char>>, v: int, h: int, width: nat, height: nat) -> Seq<
    Seq<(char, u8)>,
> {
    Seq::new(
        height,
        |y: int|
            if width > 0 && first_line(v, lines.len() as int, height as int) + y < lines.len() {
                highlight::colored(
                    lines[first_line(v, lines.len() as int, height as int) + y],
                    width as int,
                    h,
                )
            } else {
                empty_row(width)
            },
    )
}

/// Draws the text of a certificate set.
pub fn draw_set(lines: &Vec<String>, v: usize, h: usize, bounds: Rect) -> (r: Vec<
    turbo_vision::core::draw::DrawBuffer,
>)
    requires
        bounds.measurable(),
        h + bounds.columns() <= usize::MAX,
    ensures
        rows_view(r@) == set_rows(
            text::texts(lines@),
            v as int,
            h as int,
            bounds.columns() as nat,
            bounds.rows() as nat,
        ),
{
    let width: usize = bounds.width_clamped();
    let height: usize = bounds.height_clamped();
    let total: usize = lines.len();
    let ghost goal = set_rows(
        text::texts(lines@),
        v as int,
        h as int,
        width as nat,
        height as nat,
    );
    assert(text::texts(lines@).len() == total);
    let last: usize = total.saturating_sub(height);
    let first: usize = if v < last {
        v
    } else {
        last
    };
    let mut rows: Vec<turbo_vision::core::draw::DrawBuffer> = Vec::new();
    let mut n: usize = 0;
    while n < height
        invariant
            n <= height,
            width <= 0x7fff,
            width == bounds.columns(),
            total == lines@.len(),
            first <= total,
            first == first_line(v as int, total as int, height as int),
            goal == set_rows(
                text::texts(lines@),
                v as int,
                h as int,
                width as nat,
                height as nat,
            ),
            h + width <= usize::MAX,
            rows@.len() == n,
            forall|y: int| 0 <= y < n ==> screen::cells(#[trigger] rows@[y]) == goal[y],
        decreases height - n,
    {
        assert(text::texts(lines@).len() == total);
        if n < total - first {
            assert(text::texts(lines@)[first + n] == lines@[first + n]@);
            match highlight::draw_colored_line(&lines[first + n], width, h) {
                Some(row) => rows.push(row),
                None => rows.push(draw_empty(width)),
            }
        } else {
            rows.push(draw_empty(width));
        }
        n += 1;
    }
    assert(rows_view(rows@) =~= goal);
    rows
}

/// A row shows a line of narrow characters as it is, cut or filled up with spaces to the row's width.
pub proof fn row_shows_line(line: Seq<char>, width: nat)
    requires
        screen::all_narrow(line),
    ensures
        plain_row(line, width).len() == width,
        forall|x: int|
            0 <= x < width ==> #[trigger] plain_row(line, width)[x] == (
                fitted(line, width)[x],
                screen::NORMAL,
            ),
{
    let s = fitted(line, width);
    assert forall|i: int| 0 <= i < s.len() implies screen::narrow(#[trigger] s[i]) by {
        if i < line.len() {
            assert(screen::narrow(line[i]));
        }
    }
    screen::painted_cells(screen::blank(width), 0, s, screen::NORMAL);
}

/// Scrolling by keys never leaves the text: the new value is between 0 and the end.
pub proof fn keys_stay_inside(k: u16, v: int, h: int, max_v: int, max_h: int)
    requires
        0 <= v <= max_v,
        0 <= h <= max_h,
    ensures
        match set_scrolled(Input::Key(k), v, h, max_v, max_h) {
            Some((Bar::Vertical, n)) => 0 <= n <= max_v,
            Some((Bar::Horizontal, n)) => 0 <= n <= max_h,
            None => true,
        },
{
}

/// However far a window is scrolled, it shows as many lines as it can.
pub proof fn window_is_full(offset: int, total: int, height: int)
    requires
        0 <= offset,
        0 <= height,
        0 <= total,
    ensures
        ({
            let first = first_line(offset, total, height);
            &&& 0 <= first <= total
            &&& geometry::smaller(total - first, height) == geometry::smaller(total, height)
        }),
{
}

/// A set that was changed since a pane showed it is shown anew: every change takes its version one
/// further.
pub proof fn changes_are_redrawn(pane: SetPane, before: CertSet, after: CertSet)
    requires
        pane.seen == before.version,
        after.version == before.version + 1,
    ensures
        pane.stale(after),
{
}

/// The log scrolls down and up: down by what the next step up takes back, by keys twice as far as by the
/// wheel, and no further up than to its start. Other input is not for it.
pub proof fn log_scrolls_both_ways(offset: int, other: u16)
    requires
        0 <= offset <= usize::MAX - 4,
        other != KB_UP && other != KB_DOWN,
    ensures
        scrolled(offset, Input::Key(KB_DOWN)) == Some(offset + 4),
        scrolled(offset, Input::WheelDown) == Some(offset + 2),
        scrolled(offset + 4, Input::Key(KB_UP)) == Some(offset),
        scrolled(offset + 2, Input::WheelUp) == Some(offset),
        offset <= 4 ==> scrolled(offset, Input::Key(KB_UP)) == Some(0int),
        offset <= 2 ==> scrolled(offset, Input::WheelUp) == Some(0int),
        scrolled(offset, Input::Key(other)) is None,
        scrolled(offset, Input::Other) is None,
{
}

/// The text of a set scrolls by a line or a column to the side of the key, by three lines with the
/// wheel, and only as long as there is something to see on that side.
pub proof fn set_scrolls_its_way(v: int, h: int, max_v: int, max_h: int, other: u16)
    requires
        other != KB_UP && other != KB_DOWN && other != KB_LEFT && other != KB_RIGHT,
    ensures
        ({
            &&& v < max_v ==> set_scrolled(Input::Key(KB_DOWN), v, h, max_v, max_h) == Some(
                (Bar::Vertical, v + 1),
            ) && set_scrolled(Input::WheelDown, v, h, max_v, max_h) == Some((Bar::Vertical, v + 3))
            &&& v >= max_v ==> set_scrolled(Input::Key(KB_DOWN), v, h, max_v, max_h) is None
                && set_scrolled(Input::WheelDown, v, h, max_v, max_h) is None
            &&& v > 0 ==> set_scrolled(Input::Key(KB_UP), v, h, max_v, max_h) == Some(
                (Bar::Vertical, v - 1),
            ) && set_scrolled(Input::WheelUp, v, h, max_v, max_h) == Some((Bar::Vertical, v - 3))
            &&& v <= 0 ==> set_scrolled(Input::Key(KB_UP), v, h, max_v, max_h) is None
                && set_scrolled(Input::WheelUp, v, h, max_v, max_h) is None
            &&& set_scrolled(Input::Key(KB_RIGHT), v, h, max_v, max_h) == (if h < max_h {
                Some((Bar::Horizontal, h + 1))
            } else {
                None
            })
            &&& set_scrolled(Input::Key(KB_LEFT), v, h, max_v, max_h) == (if h > 0 {
                Some((Bar::Horizontal, h - 1))
            } else {
                None
            })
            &&& set_scrolled(Input::Key(other), v, h, max_v, max_h) is None
            &&& set_scrolled(Input::Other, v, h, max_v, max_h) is None
        }),
{
}

/// Each row of the log's window shows one line: the first the one that the window was scrolled to, or an
/// earlier one where the window would not be full otherwise, and each further row the next line. Below
/// the last line rows are empty.
pub proof fn log_shows_lines(lines: Seq<Seq<char>>, offset: int, width: nat, height: nat, x: int, y: int)
    requires
        0 <= offset,
        0 <= y < height,
        0 <= x < width,
        lines.len() > 0,
        forall|k: int| 0 <= k < lines.len() ==> screen::all_narrow(#[trigger] lines[k]),
    ensures
        ({
            let first = if offset + height <= lines.len() {
                offset
            } else if height <= lines.len() {
                lines.len() - height
            } else {
                0
            };
            let shown = log_rows(Some(lines), offset, width, height)[y][x];
            &&& shown.1 == screen::NORMAL
            &&& shown.0 == (if first + y < lines.len() && x < lines[first + y].len() {
                lines[first + y][x]
            } else {
                ' '
            })
        }),
{
    let first = first_line(offset, lines.len() as int, height as int);
    let row = log_rows(Some(lines), offset, width, height)[y];
    if first + y < lines.len() {
        let line = lines[first + y];
        assert(screen::all_narrow(line));
        row_shows_line(line, width);
        assert(row == plain_row(line, width));
        assert(fitted(line, width)[x] == if x < line.len() {
            line[x]
        } else {
            ' '
        });
    } else {
        lemma_empty_row(width, x);
    }
}

proof fn lemma_empty_row(width: nat, x: int)
    requires
        0 <= x < width,
    ensures
        empty_row(width).len() == width,
        empty_row(width)[x] == (' ', screen::NORMAL),
{
    screen::painted_cells(screen::blank(width), 0, text::repeated(' ', width), screen::NORMAL);
}

/// Each row of a set's window shows one line in color: the first the one that the window was scrolled
/// to, or an earlier one where the window would not be full otherwise, and each further row the next.
pub proof fn set_shows_lines(lines: Seq<Seq<char>>, v: int, h: int, width: nat, height: nat, y: int)
    requires
        0 <= v,
        0 <= y < height,
        0 < width,
    ensures
        ({
            let first = if v + height <= lines.len() {
                v
            } else if height <= lines.len() {
                lines.len() - height
            } else {
                0
            };
            set_rows(lines, v, h, width, height)[y] == if first + y < lines.len() {
                highlight::colored(lines[first + y], width as int, h)
            } else {
                empty_row(width)
            }
        }),
{
}

/// A scroll bar reaches as far as there is something beyond what can be seen: at its end what is seen is
/// the end.
pub proof fn bars_reach_end(total: int, extent: int)
    requires
        0 <= total <= i32::MAX,
        1 <= extent <= i16::MAX,
    ensures
        reach(total, extent).total == total,
        reach(total, extent).page == extent - 1,
        total > extent ==> reach(total, extent).max + extent == total,
        total <= extent ==> reach(total, extent).max == 0,
        total > extent ==> hidden(total, extent) == reach(total, extent).max,
        total <= extent ==> hidden(total, extent) == 0,
{
}

/// The longest line is as long as any, and one of the lines.
pub proof fn longest_is_a_line(lines: Seq<Seq<char>>, k: int)
    requires
        0 <= k < lines.len(),
    ensures
        lines[k].len() <= longest(lines),
        exists|j: int| 0 <= j < lines.len() && (#[trigger] lines[j]).len() == longest(lines),
    decreases lines.len(),
{
    let fewer = lines.drop_last();
    let n = lines.len() - 1;
    assert(lines[n] == lines.last());
    if n == 0 {
        assert(longest(fewer) == 0);
    } else {
        longest_is_a_line(fewer, 0);
        let j = choose|j: int| 0 <= j < fewer.len() && (#[trigger] fewer[j]).len() == longest(fewer);
        assert(lines[j] == fewer[j]);
        if k < n {
            longest_is_a_line(fewer, k);
            assert(lines[k] == fewer[k]);
        }
    }
}

/// A pane without text makes one; a pane with the text of the set as it is keeps it.
pub proof fn unchanged_text_is_kept(pane: SetPane, set: CertSet)
    ensures
        pane.lines@.len() == 0 ==> pane.stale(set),
        pane.lines@.len() > 0 && pane.seen == set.version ==> !pane.stale(set),
{
}

/// The log stays where it was scrolled to, unless its last lines would leave the window partly empty: it
/// then goes back so far that the last line stands on the last row.
pub proof fn log_settles(total: int, offset: int, columns: int, rows: int)
    requires
        0 <= offset,
        0 < total,
        0 < columns,
        0 < rows,
    ensures
        ({
            let n = settled(Some(total), offset, columns, rows);
            &&& offset + rows <= total ==> n == offset
            &&& offset + rows > total && rows <= total ==> n + rows == total
            &&& rows > total ==> n == 0
        }),
        settled(None, offset, columns, rows) == offset,
{
}

} // verus!
