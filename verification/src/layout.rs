//! Where windows, dialogs and scroll bars stand on the screen.
use vstd::prelude::*;
use crate::geometry;
use crate::geometry::{Point, Rect};

verus! {

/// Half of a number, rounded towards zero.
pub open spec fn half(n: int) -> int {
    if n < 0 {
        -((-n) / 2)
    } else {
        n / 2
    }
}

/// `n`, moved into the range from `low` to `high`.
pub open spec fn clamped(n: int, low: int, high: int) -> int {
    if n < low {
        low
    } else if n > high {
        high
    } else {
        n
    }
}

/// A rectangle by its corner and its size.
pub open spec fn sized(x: int, y: int, width: int, height: int) -> Rect {
    Rect {
        a: Point { x: x as i16, y: y as i16 },
        b: Point { x: (x + width) as i16, y: (y + height) as i16 },
    }
}

fn half_of(n: i32) -> (r: i32)
    requires
        n > i32::MIN,
    ensures
        r == half(n as int),
{
    if n < 0 {
        -((-n) / 2)
    } else {
        n / 2
    }
}

fn max_of(a: i32, b: i32) -> (r: i32)
    ensures
        r == geometry::larger(a as int, b as int),
{
    if a >= b {
        a
    } else {
        b
    }
}

fn min_of(a: i32, b: i32) -> (r: i32)
    ensures
        r == geometry::smaller(a as int, b as int),
{
    if a <= b {
        a
    } else {
        b
    }
}

fn clamp_to(n: i64, low: i32, high: i32) -> (r: i32)
    requires
        low <= high,
    ensures
        r == clamped(n as int, low as int, high as int),
{
    if n < low as i64 {
        low
    } else if n > high as i64 {
        high
    } else {
        n as i32
    }
}

fn rect_of(x: i32, y: i32, width: i32, height: i32) -> (r: Rect)
    requires
        i16::MIN <= x <= i16::MAX,
        i16::MIN <= y <= i16::MAX,
        i16::MIN <= x + width <= i16::MAX,
        i16::MIN <= y + height <= i16::MAX,
    ensures
        r == sized(x as int, y as int, width as int, height as int),
{
    Rect::new(x as i16, y as i16, (x + width) as i16, (y + height) as i16)
}

/// Where the window with the server's log stands on a screen of the given size.
pub open spec fn server_place(w: int, h: int) -> Rect {
    sized(
        2,
        1,
        geometry::larger(geometry::smaller(58, w - 4), 24),
        geometry::larger(geometry::smaller(11, h - 3), 6),
    )
}

/// Where the window with the server's log stands on a screen of the given size.
pub fn server_window(w: i16, h: i16) -> (r: Rect)
    ensures
        r == server_place(w as int, h as int),
{
    let width: i32 = max_of(min_of(58, w as i32 - 4), 24);
    let height: i32 = max_of(min_of(11, h as i32 - 3), 6);
    rect_of(2, 1, width, height)
}

/// A window in the middle of the screen.
pub open spec fn centered(w: int, h: int, width: int, height: int) -> Rect {
    sized(half(w - width), half(h - height), width, height)
}

fn center(w: i16, h: i16, width: i32, height: i32) -> (r: Rect)
    requires
        0 <= width <= geometry::larger(w as int, 0x1000),
        0 <= height <= geometry::larger(h as int, 0x1000),
    ensures
        r == centered(w as int, h as int, width as int, height as int),
{
    rect_of(half_of(w as i32 - width), half_of(h as i32 - height), width, height)
}

/// Where the welcome window stands.
pub open spec fn welcome_place(w: int, h: int) -> Rect {
    centered(w, h, geometry::larger(w - 8, 30), geometry::larger(h - 6, 8))
}

/// Where the welcome window stands.
pub fn welcome_window(w: i16, h: i16) -> (r: Rect)
    ensures
        r == welcome_place(w as int, h as int),
        r == centered(
            w as int,
            h as int,
            geometry::larger(w - 8, 30),
            geometry::larger(h - 6, 8),
        ),
{
    center(w, h, max_of(w as i32 - 8, 30), max_of(h as i32 - 6, 8))
}

/// Where a file dialog stands.
pub open spec fn dialog_place(w: int, h: int) -> Rect {
    centered(
        w,
        h,
        geometry::larger(geometry::smaller(62, w - 4), 30),
        geometry::larger(geometry::smaller(20, h - 4), 12),
    )
}

/// Where a file dialog stands.
pub fn dialog_window(w: i16, h: i16) -> (r: Rect)
    ensures
        r == dialog_place(w as int, h as int),
        r == centered(
            w as int,
            h as int,
            geometry::larger(geometry::smaller(62, w - 4), 30),
            geometry::larger(geometry::smaller(20, h - 4), 12),
        ),
{
    center(w, h, max_of(min_of(62, w as i32 - 4), 30), max_of(min_of(20, h as i32 - 4), 12))
}

/// Where the window of a game stands.
pub open spec fn game_place(w: int, h: int) -> Rect {
    centered(w, h, 40, 26)
}

/// Where the window of a game stands.
pub fn game_window(w: i16, h: i16) -> (r: Rect)
    ensures
        r == game_place(w as int, h as int),
        r == centered(w as int, h as int, 40, 26),
{
    center(w, h, 40, 26)
}

/// A window off the middle of the screen by `dx` and `dy`, as far as the screen allows: one row
/// stays free at the bottom.
pub open spec fn cascaded(w: int, h: int, width: int, height: int, dx: int, dy: int) -> Rect {
    sized(
        clamped(half(w - width) + dx, 0, geometry::larger(w - width, 0)),
        clamped(half(h - height) + dy, 0, geometry::larger(h - height - 1, 0)),
        width,
        height,
    )
}

fn cascade(w: i16, h: i16, width: i32, height: i32, dx: i64, dy: i64) -> (r: Rect)
    requires
        0 <= width <= geometry::larger(w as int, 0x1000),
        0 <= height <= geometry::larger(h as int, 0x1000),
        -0x1_0000_0000_0000 <= dx <= 0x1_0000_0000_0000,
        -0x1_0000_0000_0000 <= dy <= 0x1_0000_0000_0000,
    ensures
        r == cascaded(w as int, h as int, width as int, height as int, dx as int, dy as int),
{
    let x: i32 = clamp_to(
        half_of(w as i32 - width) as i64 + dx,
        0,
        max_of(w as i32 - width, 0),
    );
    let y: i32 = clamp_to(
        half_of(h as i32 - height) as i64 + dy,
        0,
        max_of(h as i32 - height - 1, 0),
    );
    rect_of(x, y, width, height)
}

/// Where a window with text stands, `steps` steps off the middle.
pub open spec fn text_place(w: int, h: int, steps: int) -> Rect {
    cascaded(w, h, geometry::larger(w - 8, 30), geometry::larger(h - 6, 8), steps * 2, steps * 2)
}

/// Where a window with text stands, `steps` steps off the middle.
pub fn text_window(w: i16, h: i16, steps: i16) -> (r: Rect)
    ensures
        r == text_place(w as int, h as int, steps as int),
        r == cascaded(
            w as int,
            h as int,
            geometry::larger(w - 8, 30),
            geometry::larger(h - 6, 8),
            steps * 2,
            steps * 2,
        ),
{
    cascade(
        w,
        h,
        max_of(w as i32 - 8, 30),
        max_of(h as i32 - 6, 8),
        steps as i64 * 2,
        steps as i64 * 2,
    )
}

/// Where the window of the certificate set with the number `id` stands.
pub open spec fn set_place(w: int, h: int, id: int) -> Rect {
    cascaded(w, h, geometry::larger(w - 10, 40), geometry::larger(h - 8, 12), id * 3, id * 2)
}

/// Where the window of the certificate set with the number `id` stands.
pub fn set_window(w: i16, h: i16, id: usize) -> (r: Rect)
    ensures
        r == set_place(w as int, h as int, id as int),
        r == cascaded(
            w as int,
            h as int,
            geometry::larger(w - 10, 40),
            geometry::larger(h - 8, 12),
            id * 3,
            id * 2,
        ),
{
    let far: i64 = if id < 0x1_0000 {
        id as i64
    } else {
        0x1_0000
    };
    cascade(w, h, max_of(w as i32 - 10, 40), max_of(h as i32 - 8, 12), far * 3, far * 2)
}

/// The rectangle inside the frame of a window, relative to it.
pub open spec fn inside(window: Rect) -> Rect {
    sized(0, 0, window.b.x - window.a.x - 2, window.b.y - window.a.y - 2)
}

/// The rectangle inside the frame of a window, relative to it.
pub fn interior(window: Rect) -> (r: Rect)
    requires
        i16::MIN + 2 <= window.b.x - window.a.x <= i16::MAX,
        i16::MIN + 2 <= window.b.y - window.a.y <= i16::MAX,
    ensures
        r == inside(window),
        r == sized(0, 0, window.b.x - window.a.x - 2, window.b.y - window.a.y - 2),
{
    rect_of(
        0,
        0,
        window.b.x as i32 - window.a.x as i32 - 2,
        window.b.y as i32 - window.a.y as i32 - 2,
    )
}

/// Where the scroll bars of a window of the given size stand, relative to it: on its right edge and
/// on its lower edge, between the corners.
pub open spec fn bar_places(width: int, height: int) -> (Rect, Rect) {
    (sized(width - 1, 1, 1, height - 2), sized(1, height - 1, width - 2, 1))
}

/// Where the scroll bars of a window stand, relative to it.
pub fn scroll_bars(width: i16, height: i16) -> (r: (Rect, Rect))
    requires
        width > i16::MIN,
        height > i16::MIN,
    ensures
        r == bar_places(width as int, height as int),
{
    (
        rect_of(width as i32 - 1, 1, 1, height as i32 - 2),
        rect_of(1, height as i32 - 1, width as i32 - 2, 1),
    )
}

/// Where the scroll bars of a window go after it was resized.
pub open spec fn bars_after(window: Rect) -> Option<(Rect, Rect)> {
    let width = window.b.x - window.a.x;
    let height = window.b.y - window.a.y;
    if width < 4 || height < 4 {
        None
    } else {
        Some(bar_places(width, height))
    }
}

/// Where the scroll bars of a window go after it was resized; a window that is too small for them
/// keeps them where they are.
pub fn moved_bars(window: Rect) -> (r: Option<(Rect, Rect)>)
    requires
        window.measurable(),
    ensures
        r == bars_after(window),
        ({
            let width = window.b.x - window.a.x;
            let height = window.b.y - window.a.y;
            r == if width < 4 || height < 4 {
                None
            } else {
                Some(bar_places(width, height))
            }
        }),
{
    let width: i16 = window.b.x - window.a.x;
    let height: i16 = window.b.y - window.a.y;
    if width < 4 || height < 4 {
        None
    } else {
        Some(scroll_bars(width, height))
    }
}

/// A screen position relative to a window's corner is inside a rectangle of that window.
pub open spec fn hits(window: Rect, bar: Rect, p: Point) -> bool {
    let x = p.x - window.a.x;
    let y = p.y - window.a.y;
    bar.a.x <= x < bar.b.x && bar.a.y <= y < bar.b.y
}

/// A window and its scroll bars.
pub struct Barred {
    pub bounds: Rect,
    pub bars: Vec<Rect>,
}

/// A scroll bar under the mouse: which window, which of its bars, and the place within the bar.
#[derive(Clone, Copy, PartialEq, Eq, Debug, Structural)]
pub struct Hit {
    pub window: usize,
    pub bar: usize,
    pub place: Point,
}

/// Whether `r` is the scroll bar that a position is on: the first one of the first window that has one
/// there.
pub open spec fn is_hit(windows: Seq<Barred>, p: Point, r: Option<Hit>) -> bool {
    match r {
        Some(h) => {
            &&& h.window < windows.len()
            &&& h.bar < windows[h.window as int].bars@.len()
            &&& ({
                let w = windows[h.window as int];
                let bar = w.bars@[h.bar as int];
                &&& hits(w.bounds, bar, p)
                &&& h.place.x == p.x - w.bounds.a.x - bar.a.x
                &&& h.place.y == p.y - w.bounds.a.y - bar.a.y
            })
            &&& forall|i: int, j: int|
                0 <= i < windows.len() && 0 <= j < windows[i].bars@.len() && (i < h.window || i
                    == h.window && j < h.bar) ==> !hits(
                    windows[i].bounds,
                    #[trigger] windows[i].bars@[j],
                    p,
                )
        },
        None => forall|i: int, j: int|
            0 <= i < windows.len() && 0 <= j < windows[i].bars@.len() ==> !hits(
                windows[i].bounds,
                #[trigger] windows[i].bars@[j],
                p,
            ),
    }
}

/// Finds the scroll bar that a mouse position is on: the first one of the first window that has
/// one there.
pub fn bar_under(windows: &Vec<Barred>, p: Point) -> (r: Option<Hit>)
    requires
        forall|i: int, j: int|
            0 <= i < windows@.len() && 0 <= j < windows@[i].bars@.len() ==> (
            #[trigger] windows@[i].bars@[j]).measurable(),
    ensures
        is_hit(windows@, p, r),
        match r {
            Some(h) => {
                &&& h.window < windows@.len()
                &&& h.bar < windows@[h.window as int].bars@.len()
                &&& ({
                    let w = windows@[h.window as int];
                    let bar = w.bars@[h.bar as int];
                    &&& hits(w.bounds, bar, p)
                    &&& h.place.x == p.x - w.bounds.a.x - bar.a.x
                    &&& h.place.y == p.y - w.bounds.a.y - bar.a.y
                })
                &&& forall|i: int, j: int|
                    0 <= i < windows@.len() && 0 <= j < windows@[i].bars@.len() && (i < h.window || i
                        == h.window && j < h.bar) ==> !hits(
                        windows@[i].bounds,
                        #[trigger] windows@[i].bars@[j],
                        p,
                    )
            },
            None => forall|i: int, j: int|
                0 <= i < windows@.len() && 0 <= j < windows@[i].bars@.len() ==> !hits(
                    windows@[i].bounds,
                    #[trigger] windows@[i].bars@[j],
                    p,
                ),
        },
{
    let mut n: usize = 0;
    while n < windows.len()
        invariant
            n <= windows@.len(),
            forall|i: int, j: int|
                0 <= i < windows@.len() && 0 <= j < windows@[i].bars@.len() ==> (
                #[trigger] windows@[i].bars@[j]).measurable(),
            forall|i: int, j: int|
                0 <= i < n && 0 <= j < windows@[i].bars@.len() ==> !hits(
                    windows@[i].bounds,
                    #[trigger] windows@[i].bars@[j],
                    p,
                ),
        decreases windows.len() - n,
    {
        let window: &Barred = &windows[n];
        let x: i32 = p.x as i32 - window.bounds.a.x as i32;
        let y: i32 = p.y as i32 - window.bounds.a.y as i32;
        let mut k: usize = 0;
        while k < window.bars.len()
            invariant
                n < windows@.len(),
                k <= window.bars@.len(),
                *window == windows@[n as int],
                forall|i: int, j: int|
                    0 <= i < windows@.len() && 0 <= j < windows@[i].bars@.len() ==> (
                    #[trigger] windows@[i].bars@[j]).measurable(),
                x == p.x - window.bounds.a.x,
                y == p.y - window.bounds.a.y,
                forall|i: int, j: int|
                    0 <= i < windows@.len() && 0 <= j < windows@[i].bars@.len() && (i < n || i == n
                        && j < k) ==> !hits(
                        windows@[i].bounds,
                        #[trigger] windows@[i].bars@[j],
                        p,
                    ),
            decreases window.bars.len() - k,
        {
            let bar: Rect = window.bars[k];
            assert(windows@[n as int].bars@[k as int].measurable());
            if bar.a.x as i32 <= x && x < bar.b.x as i32 && bar.a.y as i32 <= y && y
                < bar.b.y as i32 {
                let dx: i32 = x - bar.a.x as i32;
                let dy: i32 = y - bar.a.y as i32;
                return Some(
                    Hit { window: n, bar: k, place: Point { x: dx as i16, y: dy as i16 } },
                );
            }
            k += 1;
        }
        n += 1;
    }
    None
}

/// However far a window is moved off the middle, it stays on a screen that is large enough for it,
/// above the last row.
pub proof fn cascade_stays_on_screen(w: int, h: int, width: int, height: int, dx: int, dy: int)
    requires
        0 <= width <= w <= i16::MAX,
        0 <= height < h <= i16::MAX,
    ensures
        ({
            let r = cascaded(w, h, width, height, dx, dy);
            &&& 0 <= r.a.x <= r.b.x <= w
            &&& 0 <= r.a.y <= r.b.y < h
            &&& r.b.x - r.a.x == width
            &&& r.b.y - r.a.y == height
        }),
{
}

/// The scroll bars of a window that is large enough for them stand on its frame and do not overlap.
pub proof fn bars_stand_on_frame(width: int, height: int)
    requires
        4 <= width <= i16::MAX,
        4 <= height <= i16::MAX,
    ensures
        ({
            let (v, h) = bar_places(width, height);
            &&& v.a.x == width - 1 && v.b.x == width && 0 < v.a.y < v.b.y == height - 1
            &&& h.a.y == height - 1 && h.b.y == height && 0 < h.a.x < h.b.x == width - 1
            &&& v.b.y <= h.a.y
        }),
{
}

/// Whether a rectangle of the given size lies in the middle of a screen: what is free on two opposite
/// sides differs by one at most.
pub open spec fn in_middle(r: Rect, w: int, h: int, width: int, height: int) -> bool {
    &&& r.b.x - r.a.x == width
    &&& r.b.y - r.a.y == height
    &&& -1 <= (w - r.b.x) - r.a.x <= 1
    &&& -1 <= (h - r.b.y) - r.a.y <= 1
}

/// The welcome window, dialogs and games stand in the middle of the screen: the first with a fixed
/// margin around it, dialogs no larger than they need, games in their size.
pub proof fn windows_stand_in_middle(w: int, h: int)
    requires
        0 <= w <= i16::MAX,
        0 <= h <= i16::MAX,
    ensures
        w >= 38 && h >= 14 ==> in_middle(welcome_place(w, h), w, h, w - 8, h - 6),
        w < 38 && h < 14 ==> in_middle(welcome_place(w, h), w, h, 30, 8),
        w >= 66 && h >= 24 ==> in_middle(dialog_place(w, h), w, h, 62, 20),
        34 <= w < 66 && 16 <= h < 24 ==> in_middle(dialog_place(w, h), w, h, w - 4, h - 4),
        w < 34 && h < 16 ==> in_middle(dialog_place(w, h), w, h, 30, 12),
        in_middle(game_place(w, h), w, h, 40, 26),
{
}

/// The window with the server's log stands in the upper left corner: as large as it needs, but it leaves
/// room on a smaller screen, and stays usable on a very small one.
pub proof fn log_stands_in_corner(w: int, h: int)
    requires
        0 <= w <= i16::MAX,
        0 <= h <= i16::MAX,
    ensures
        ({
            let r = server_place(w, h);
            &&& r.a.x == 2 && r.a.y == 1
            &&& w >= 62 ==> r.b.x == 60
            &&& 28 <= w < 62 ==> r.b.x == w - 2
            &&& w < 28 ==> r.b.x == 26
            &&& h >= 14 ==> r.b.y == 12
            &&& 9 <= h < 14 ==> r.b.y == h - 2
            &&& h < 9 ==> r.b.y == 7
        }),
{
}

/// A window that is moved off the middle goes to the right and down by the distance, as long as the
/// screen has room; beyond that it stays at the edge.
pub proof fn cascade_moves_off(w: int, h: int, width: int, height: int, dx: int, dy: int)
    requires
        0 <= width <= w <= i16::MAX,
        0 <= height < h <= i16::MAX,
        0 <= dx,
        0 <= dy,
    ensures
        ({
            let middle = cascaded(w, h, width, height, 0, 0);
            let r = cascaded(w, h, width, height, dx, dy);
            &&& -1 <= (w - middle.b.x) - middle.a.x <= 1
            &&& -1 <= (h - middle.b.y) - middle.a.y <= 1
            &&& middle.b.x + dx <= w ==> r.a.x == middle.a.x + dx
            &&& middle.b.x + dx > w ==> r.b.x == w
            &&& middle.b.y + dy < h ==> r.a.y == middle.a.y + dy
            &&& middle.b.y + dy >= h ==> r.b.y == h - 1
        }),
{
}

/// The windows of texts and of certificate sets leave a margin on the screen, and each one stands off the
/// one before it: a text by two columns and rows, a set by three columns and two rows.
pub proof fn windows_stand_off_each_other(w: int, h: int, n: int)
    requires
        50 <= w <= i16::MAX,
        20 <= h <= i16::MAX,
        0 <= n,
    ensures
        ({
            let one = text_place(w, h, n);
            let two = text_place(w, h, n + 1);
            &&& one.b.x - one.a.x == w - 8 && one.b.y - one.a.y == h - 6
            &&& one.b.x + 2 <= w ==> two.a.x == one.a.x + 2
            &&& one.b.y + 2 < h ==> two.a.y == one.a.y + 2
        }),
        ({
            let one = set_place(w, h, n);
            let two = set_place(w, h, n + 1);
            &&& one.b.x - one.a.x == w - 10 && one.b.y - one.a.y == h - 8
            &&& one.b.x + 3 <= w ==> two.a.x == one.a.x + 3
            &&& one.b.y + 2 < h ==> two.a.y == one.a.y + 2
        }),
{
}

/// The inside of a window is smaller than the window by its frame, on all four sides.
pub proof fn frame_is_left_out(window: Rect)
    requires
        2 <= window.b.x - window.a.x <= i16::MAX,
        2 <= window.b.y - window.a.y <= i16::MAX,
    ensures
        inside(window).columns() == window.columns() - 2,
        inside(window).rows() == window.rows() - 2,
        inside(window).a.x == 0 && inside(window).a.y == 0,
{
}

/// The scroll bars follow a window that is resized, as long as it is large enough for them.
pub proof fn bars_follow_window(window: Rect)
    requires
        window.measurable(),
    ensures
        (bars_after(window) is Some) == (window.columns() >= 4 && window.rows() >= 4),
        bars_after(window) matches Some((v, h)) ==> {
            &&& v.b.x == window.columns() && v.columns() == 1 && v.rows() == window.rows() - 2
            &&& h.b.y == window.rows() && h.rows() == 1 && h.columns() == window.columns() - 2
        },
{
}

/// The bar that is hit reaches over the position, and the place within it is counted from its corner; if
/// none is hit, no bar of any window reaches over the position.
pub proof fn hit_lies_in_bar(windows: Seq<Barred>, p: Point, r: Option<Hit>)
    requires
        is_hit(windows, p, r),
    ensures
        match r {
            Some(h) => {
                let w = windows[h.window as int];
                let bar = w.bars@[h.bar as int];
                &&& 0 <= h.place.x < bar.b.x - bar.a.x
                &&& 0 <= h.place.y < bar.b.y - bar.a.y
                &&& w.bounds.a.x + bar.a.x + h.place.x == p.x
                &&& w.bounds.a.y + bar.a.y + h.place.y == p.y
            },
            None => forall|i: int, j: int|
                0 <= i < windows.len() && 0 <= j < windows[i].bars@.len() ==> {
                    let a = windows[i].bounds.a;
                    let bar = #[trigger] windows[i].bars@[j];
                    ||| p.x < a.x + bar.a.x
                    ||| p.x >= a.x + bar.b.x
                    ||| p.y < a.y + bar.a.y
                    ||| p.y >= a.y + bar.b.y
                },
        },
{
}

} // verus!
