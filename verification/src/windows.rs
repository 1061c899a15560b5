//! The windows that the application manages: which is which, which is active, and which are shaded.
use vstd::prelude::*;
use crate::api;
use crate::geometry::{Point, Rect};

verus! {

/// Identifies a managed window.
#[derive(Debug, Clone, Copy, PartialEq, Eq, Structural)]
pub enum WinKey {
    /// The server's log.
    Server,
    /// The certificate set with this number.
    Certs(usize),
    /// A window with text or a game.
    Aux(u32),
}

/// What the Window menu does.
#[derive(Debug, Clone, Copy, PartialEq, Eq, Structural)]
pub enum WinAction {
    Zoom,
    Minimize,
    Restore,
}

/// What a command of the application asks for.
#[derive(Debug, Clone, Copy, PartialEq, Eq, Structural)]
pub enum Command {
    NewSet,
    LoadCert,
    LoadIntermediate,
    LoadKey,
    Shortcuts,
    Inspect,
    Window(WinAction),
    About,
    Tetris,
    Snake,
}

pub const CM_NEW_SET: u16 = 200;

pub const CM_LOAD_CERT: u16 = 201;

pub const CM_LOAD_INT: u16 = 202;

pub const CM_LOAD_KEY: u16 = 203;

pub const CM_SHORTCUTS: u16 = 204;

pub const CM_INSPECT: u16 = 205;

pub const CM_WIN_ZOOM: u16 = 206;

pub const CM_WIN_MINIMIZE: u16 = 207;

pub const CM_WIN_RESTORE: u16 = 208;

pub const CM_ABOUT: u16 = 209;

pub const CM_TETRIS: u16 = 210;

pub const CM_SNAKE: u16 = 211;

/// The command with a number, if it is one of the application's own.
pub open spec fn command_with(id: u16) -> Option<Command> {
    if id == CM_NEW_SET {
        Some(Command::NewSet)
    } else if id == CM_LOAD_CERT {
        Some(Command::LoadCert)
    } else if id == CM_LOAD_INT {
        Some(Command::LoadIntermediate)
    } else if id == CM_LOAD_KEY {
        Some(Command::LoadKey)
    } else if id == CM_SHORTCUTS {
        Some(Command::Shortcuts)
    } else if id == CM_INSPECT {
        Some(Command::Inspect)
    } else if id == CM_WIN_ZOOM {
        Some(Command::Window(WinAction::Zoom))
    } else if id == CM_WIN_MINIMIZE {
        Some(Command::Window(WinAction::Minimize))
    } else if id == CM_WIN_RESTORE {
        Some(Command::Window(WinAction::Restore))
    } else if id == CM_ABOUT {
        Some(Command::About)
    } else if id == CM_TETRIS {
        Some(Command::Tetris)
    } else if id == CM_SNAKE {
        Some(Command::Snake)
    } else {
        None
    }
}

/// The command with a number, if it is one of the application's own.
pub fn command_of(id: u16) -> (r: Option<Command>)
    ensures
        r == command_with(id),
{
    match id {
        CM_NEW_SET => Some(Command::NewSet),
        CM_LOAD_CERT => Some(Command::LoadCert),
        CM_LOAD_INT => Some(Command::LoadIntermediate),
        CM_LOAD_KEY => Some(Command::LoadKey),
        CM_SHORTCUTS => Some(Command::Shortcuts),
        CM_INSPECT => Some(Command::Inspect),
        CM_WIN_ZOOM => Some(Command::Window(WinAction::Zoom)),
        CM_WIN_MINIMIZE => Some(Command::Window(WinAction::Minimize)),
        CM_WIN_RESTORE => Some(Command::Window(WinAction::Restore)),
        CM_ABOUT => Some(Command::About),
        CM_TETRIS => Some(Command::Tetris),
        CM_SNAKE => Some(Command::Snake),
        _ => None,
    }
}

/// The number of the next text or game window.
pub open spec fn number_after(n: u32) -> u32 {
    if n == u32::MAX {
        0
    } else {
        (n + 1) as u32
    }
}

impl WinKey {
    /// The key of a new text or game window: the counter's, which then grows.
    pub fn next_aux(counter: &mut u32) -> (r: WinKey)
        ensures
            *final(counter) == number_after(*old(counter)),
            r == WinKey::Aux(*old(counter)),
            *final(counter) == (if *old(counter) == u32::MAX {
                0
            } else {
                (*old(counter) + 1) as u32
            }),
    {
        let n: u32 = *counter;
        *counter = if n == u32::MAX {
            0
        } else {
            n + 1
        };
        WinKey::Aux(n)
    }
}

/// The shade state of the managed windows: for each key the bounds that its window had before it
/// was shaded, while it is.
pub struct WinStates {
    pub list: Vec<(WinKey, Option<Rect>)>,
}

impl WinStates {
    /// Whether no key stands in the list twice.
    pub open spec fn wf(self) -> bool {
        forall|i: int, j: int|
            0 <= i < j < self.list@.len() ==> (#[trigger] self.list@[i]).0 != (
            #[trigger] self.list@[j]).0
    }

    /// The bounds that the window with the key had before it was shaded; `None` where it is not
    /// shaded.
    pub open spec fn saved(self, key: WinKey) -> Option<Rect> {
        if exists|i: int| 0 <= i < self.list@.len() && (#[trigger] self.list@[i]).0 == key {
            let i = choose|i: int|
                0 <= i < self.list@.len() && (#[trigger] self.list@[i]).0 == key;
            self.list@[i].1
        } else {
            None
        }
    }

    /// Whether the states are those of `before`, but with `bounds` saved for a key.
    pub open spec fn differs(self, before: WinStates, key: WinKey, bounds: Option<Rect>) -> bool {
        forall|k: WinKey| #[trigger]
            self.saved(k) == (if k == key {
                bounds
            } else {
                before.saved(k)
            })
    }

    /// No windows.
    pub fn new() -> (r: WinStates)
        ensures
            r.wf(),
            forall|k: WinKey| #[trigger] r.saved(k) is None,
    {
        WinStates { list: Vec::new() }
    }

    fn position(&self, key: WinKey) -> (r: Option<usize>)
        requires
            self.wf(),
        ensures
            match r {
                Some(i) => i < self.list@.len() && self.list@[i as int].0 == key && self.saved(key)
                    == self.list@[i as int].1,
                None => (forall|i: int|
                    0 <= i < self.list@.len() ==> (#[trigger] self.list@[i]).0 != key) && self.saved(
                    key,
                ) is None,
            },
    {
        let mut i: usize = 0;
        while i < self.list.len()
            invariant
                self.wf(),
                i <= self.list@.len(),
                forall|j: int| 0 <= j < i ==> (#[trigger] self.list@[j]).0 != key,
            decreases self.list.len() - i,
        {
            let k: WinKey = self.list[i].0;
            if k == key {
                proof {
                    lemma_saved(*self, i as int);
                }
                return Some(i);
            }
            i += 1;
        }
        None
    }

    fn put(&mut self, key: WinKey, bounds: Option<Rect>)
        requires
            old(self).wf(),
        ensures
            final(self).wf(),
            final(self).differs(*old(self), key, bounds),
    {
        let ghost before = *self;
        match self.position(key) {
            Some(i) => {
                self.list.set(i, (key, bounds));
                assert forall|k: WinKey| #[trigger] self.saved(k) == (if k == key {
                    bounds
                } else {
                    before.saved(k)
                }) by {
                    lemma_saved(*self, i as int);
                    if k != key {
                        if exists|j: int|
                            0 <= j < before.list@.len() && (#[trigger] before.list@[j]).0 == k {
                            let j = choose|j: int|
                                0 <= j < before.list@.len() && (#[trigger] before.list@[j]).0 == k;
                            assert(self.list@[j] == before.list@[j]);
                            lemma_saved(*self, j);
                            lemma_saved(before, j);
                        } else if exists|j: int|
                            0 <= j < self.list@.len() && (#[trigger] self.list@[j]).0 == k {
                            let j = choose|j: int|
                                0 <= j < self.list@.len() && (#[trigger] self.list@[j]).0 == k;
                            assert(before.list@[j].0 == k);
                        }
                    }
                }
            },
            None => {
                self.list.push((key, bounds));
                assert forall|k: WinKey| #[trigger] self.saved(k) == (if k == key {
                    bounds
                } else {
                    before.saved(k)
                }) by {
                    let n = before.list@.len() as int;
                    assert(self.list@[n].0 == key);
                    lemma_saved(*self, n);
                    if k != key {
                        if exists|j: int|
                            0 <= j < before.list@.len() && (#[trigger] before.list@[j]).0 == k {
                            let j = choose|j: int|
                                0 <= j < before.list@.len() && (#[trigger] before.list@[j]).0 == k;
                            assert(self.list@[j] == before.list@[j]);
                            lemma_saved(*self, j);
                            lemma_saved(before, j);
                        } else if exists|j: int|
                            0 <= j < self.list@.len() && (#[trigger] self.list@[j]).0 == k {
                            let j = choose|j: int|
                                0 <= j < self.list@.len() && (#[trigger] self.list@[j]).0 == k;
                            assert(before.list@[j].0 == k);
                        }
                    }
                }
            },
        }
    }

    /// What an action means for a window: one that is shaded is restored by any action.
    pub open spec fn effective(self, key: WinKey, action: WinAction) -> WinAction {
        if self.saved(key) is Some {
            WinAction::Restore
        } else {
            action
        }
    }

    /// What an action means for a window, given its state.
    pub fn effective_action(&self, key: WinKey, action: WinAction) -> (r: WinAction)
        requires
            self.wf(),
        ensures
            r == self.effective(key, action),
    {
        let minimized: bool = match self.position(key) {
            Some(i) => self.list[i].1.is_some(),
            None => false,
        };
        match action {
            WinAction::Restore => WinAction::Restore,
            _ => if minimized {
                WinAction::Restore
            } else {
                action
            },
        }
    }

    /// Where a shaded window with the given bounds goes: its title bar and its lower border stay.
    pub open spec fn folded(bounds: Rect) -> Rect {
        Rect { a: bounds.a, b: Point { x: bounds.b.x, y: (bounds.a.y + 2) as i16 } }
    }

    /// Shades a window with the given bounds: it keeps its title bar and its lower border. The
    /// result is where it goes.
    pub fn minimize(&mut self, key: WinKey, bounds: Rect) -> (r: Rect)
        requires
            old(self).wf(),
            bounds.a.y + 2 <= i16::MAX,
        ensures
            final(self).wf(),
            final(self).differs(*old(self), key, Some(bounds)),
            r == Self::folded(bounds),
            r == (Rect {
                a: bounds.a,
                b: Point { x: bounds.b.x, y: (bounds.a.y + 2) as i16 },
            }),
    {
        self.put(key, Some(bounds));
        Rect::new(bounds.a.x, bounds.a.y, bounds.b.x, bounds.a.y + 2)
    }

    /// Ends the shading of a window. The result is where it goes, if it was shaded.
    pub fn restore(&mut self, key: WinKey) -> (r: Option<Rect>)
        requires
            old(self).wf(),
        ensures
            final(self).wf(),
            r == old(self).saved(key),
            final(self).differs(*old(self), key, None),
    {
        let saved: Option<Rect> = match self.position(key) {
            Some(i) => self.list[i].1,
            None => None,
        };
        self.put(key, None);
        saved
    }
}

/// What stands in the list for a key is what is saved for it.
proof fn lemma_saved(s: WinStates, i: int)
    requires
        s.wf(),
        0 <= i < s.list@.len(),
    ensures
        s.saved(s.list@[i].0) == s.list@[i].1,
{
    let key = s.list@[i].0;
    let j = choose|j: int| 0 <= j < s.list@.len() && (#[trigger] s.list@[j]).0 == key;
    assert(s.list@[j].0 == key);
    if i < j {
        assert(s.list@[i].0 != s.list@[j].0);
    } else if j < i {
        assert(s.list@[j].0 != s.list@[i].0);
    }
}

/// Whether `r` is where the window with the key stands among windows with the given keys, from the
/// lowest to the topmost; those without a key are not managed.
pub open spec fn is_first(keys: Seq<Option<WinKey>>, key: WinKey, r: Option<usize>) -> bool {
    match r {
        Some(i) => i < keys.len() && keys[i as int] == Some(key) && forall|j: int|
            0 <= j < i ==> #[trigger] keys[j] != Some(key),
        None => forall|j: int| 0 <= j < keys.len() ==> #[trigger] keys[j] != Some(key),
    }
}

/// Finds the window with a key.
pub fn find_window_index(keys: &Vec<Option<WinKey>>, key: WinKey) -> (r: Option<usize>)
    ensures
        is_first(keys@, key, r),
{
    let mut i: usize = 0;
    while i < keys.len()
        invariant
            i <= keys@.len(),
            forall|j: int| 0 <= j < i ==> #[trigger] keys@[j] != Some(key),
        decreases keys.len() - i,
    {
        if let Some(k) = keys[i] {
            if k == key {
                return Some(i);
            }
        }
        i += 1;
    }
    None
}

/// The number of the certificate set whose window is the topmost of such windows.
pub open spec fn topmost_set(keys: Seq<Option<WinKey>>) -> Option<usize>
    decreases keys.len(),
{
    if keys.len() == 0 {
        None
    } else {
        match keys.last() {
            Some(WinKey::Certs(id)) => Some(id),
            _ => topmost_set(keys.drop_last()),
        }
    }
}

/// Finds the certificate set whose window is the topmost of such windows: the active one.
pub fn active_set(keys: &Vec<Option<WinKey>>) -> (r: Option<usize>)
    ensures
        r == topmost_set(keys@),
{
    let mut i: usize = keys.len();
    assert(keys@.take(i as int) =~= keys@);
    while i > 0
        invariant
            i <= keys@.len(),
            topmost_set(keys@.take(i as int)) == topmost_set(keys@),
        decreases i,
    {
        assert(keys@.take(i as int).drop_last() =~= keys@.take(i - 1));
        i -= 1;
        if let Some(WinKey::Certs(id)) = keys[i] {
            return Some(id);
        }
    }
    None
}

/// The focus that the API is to serve from: the active set's number, as long as that set is there.
pub open spec fn focus_for(keys: Seq<Option<WinKey>>, ids: Seq<Option<usize>>) -> usize {
    match topmost_set(keys) {
        Some(id) => if ids.contains(Some(id)) {
            id
        } else {
            api::NO_FOCUS
        },
        None => api::NO_FOCUS,
    }
}

/// The focus that the API is to serve from.
pub fn focus_of(keys: &Vec<Option<WinKey>>, ids: &Vec<Option<usize>>) -> (r: usize)
    ensures
        r == focus_for(keys@, ids@),
{
    match active_set(keys) {
        Some(id) => match api::find_set(ids, id) {
            Some(i) => {
                assert(ids@[i as int] == Some(id));
                id
            },
            None => api::NO_FOCUS,
        },
        None => api::NO_FOCUS,
    }
}

/// The key of the window that the Window menu acts on: the topmost one, if it is managed.
pub open spec fn target_of(keys: Seq<Option<WinKey>>) -> Option<WinKey> {
    if keys.len() > 0 {
        keys.last()
    } else {
        None
    }
}

/// The key of the window that the Window menu acts on: the topmost one, if it is managed.
pub fn menu_target(keys: &Vec<Option<WinKey>>) -> (r: Option<WinKey>)
    ensures
        r == target_of(keys@),
        r == (if keys@.len() > 0 {
            keys@.last()
        } else {
            None
        }),
{
    if keys.len() > 0 {
        keys[keys.len() - 1]
    } else {
        None
    }
}

/// The API serves from the active set: with the focus that the windows give, it finds the set whose
/// window is the topmost of such windows.
pub proof fn api_follows_active_set(
    keys: Seq<Option<WinKey>>,
    ids: Seq<Option<usize>>,
    id: usize,
    i: usize,
)
    requires
        topmost_set(keys) == Some(id),
        id != api::NO_FOCUS,
        i < ids.len(),
        ids[i as int] == Some(id),
    ensures
        focus_for(keys, ids) == id,
        forall|r: Option<usize>| #[trigger]
            api::is_numbered(ids, focus_for(keys, ids), r) ==> r is Some && ids[r->0 as int] == Some(
                id,
            ),
{
}

/// Restoring a window that was just shaded brings back the bounds that it had, and leaves all other
/// windows as they were.
pub proof fn restoring_undoes_shading(
    before: WinStates,
    shaded: WinStates,
    after: WinStates,
    key: WinKey,
    bounds: Rect,
)
    requires
        shaded.differs(before, key, Some(bounds)),
        after.differs(shaded, key, None),
    ensures
        shaded.saved(key) == Some(bounds),
        after.saved(key) is None,
        forall|k: WinKey| k != key ==> #[trigger] after.saved(k) == before.saved(k),
{
    assert forall|k: WinKey| k != key implies #[trigger] after.saved(k) == before.saved(k) by {
        assert(after.saved(k) == shaded.saved(k));
    }
}

/// A shaded window is restored by whatever action comes next.
pub proof fn shaded_window_is_restored(s: WinStates, key: WinKey, action: WinAction)
    requires
        s.wf(),
        s.saved(key) is Some,
    ensures
        s.effective(key, action) == WinAction::Restore,
{
}

/// Whether a window is a set's.
pub open spec fn shows_set(key: Option<WinKey>) -> bool {
    key matches Some(WinKey::Certs(_))
}

/// The active set is the one whose window lies above those of all other sets; there is none exactly if
/// there is no set's window.
pub proof fn active_set_lies_on_top(keys: Seq<Option<WinKey>>)
    ensures
        match topmost_set(keys) {
            Some(id) => exists|i: int|
                0 <= i < keys.len() && #[trigger] keys[i] == Some(WinKey::Certs(id)) && forall|j: int|
                    i < j < keys.len() ==> !shows_set(#[trigger] keys[j]),
            None => forall|j: int| 0 <= j < keys.len() ==> !shows_set(#[trigger] keys[j]),
        },
    decreases keys.len(),
{
    if keys.len() > 0 {
        let n = keys.len() - 1;
        let fewer = keys.drop_last();
        assert(keys[n] == keys.last());
        active_set_lies_on_top(fewer);
        if !shows_set(keys.last()) {
            if let Some(id) = topmost_set(keys) {
                let i = choose|i: int|
                    0 <= i < fewer.len() && #[trigger] fewer[i] == Some(WinKey::Certs(id)) && forall|
                        j: int,
                    |
                        i < j < fewer.len() ==> !shows_set(#[trigger] fewer[j]);
                assert(keys[i] == Some(WinKey::Certs(id)));
                assert forall|j: int| i < j < keys.len() implies !shows_set(#[trigger] keys[j]) by {
                    if j < n {
                        assert(fewer[j] == keys[j]);
                    }
                }
            } else {
                assert forall|j: int| 0 <= j < keys.len() implies !shows_set(#[trigger] keys[j]) by {
                    if j < n {
                        assert(fewer[j] == keys[j]);
                    }
                }
            }
        }
    }
}

/// A window that comes to the top is the one that the Window menu acts on; if it is a set's, that set
/// is the active one, and otherwise the active set stays.
pub proof fn top_window_counts(keys: Seq<Option<WinKey>>, key: Option<WinKey>)
    ensures
        target_of(keys.push(key)) == key,
        topmost_set(keys.push(key)) == match key {
            Some(WinKey::Certs(id)) => Some(id),
            _ => topmost_set(keys),
        },
        target_of(Seq::empty()) is None,
{
    assert(keys.push(key).drop_last() =~= keys);
}

/// The API serves from no set but the active one, and only while that is there.
pub proof fn focus_needs_active_set(keys: Seq<Option<WinKey>>, ids: Seq<Option<usize>>)
    ensures
        focus_for(keys, ids) != api::NO_FOCUS ==> topmost_set(keys) == Some(focus_for(keys, ids))
            && ids.contains(Some(focus_for(keys, ids))),
        (topmost_set(keys) matches Some(id) && ids.contains(Some(id))) ==> Some(focus_for(keys, ids))
            == topmost_set(keys),
{
}

/// The number of a command.
pub open spec fn number_of(c: Command) -> u16 {
    match c {
        Command::NewSet => CM_NEW_SET,
        Command::LoadCert => CM_LOAD_CERT,
        Command::LoadIntermediate => CM_LOAD_INT,
        Command::LoadKey => CM_LOAD_KEY,
        Command::Shortcuts => CM_SHORTCUTS,
        Command::Inspect => CM_INSPECT,
        Command::Window(WinAction::Zoom) => CM_WIN_ZOOM,
        Command::Window(WinAction::Minimize) => CM_WIN_MINIMIZE,
        Command::Window(WinAction::Restore) => CM_WIN_RESTORE,
        Command::About => CM_ABOUT,
        Command::Tetris => CM_TETRIS,
        Command::Snake => CM_SNAKE,
    }
}

/// Every command has a number of its own, and is found by it.
pub proof fn commands_are_found(c: Command, id: u16)
    ensures
        command_with(number_of(c)) == Some(c),
        (command_with(id) == Some(c)) == (id == number_of(c)),
{
}

/// Two text or game windows in a row have different keys, and a key comes again only after all others.
pub proof fn new_windows_differ(n: u32, m: u32)
    ensures
        number_after(n) != n,
        number_after(n) == number_after(m) ==> n == m,
        n < u32::MAX ==> number_after(n) > n,
{
}

/// A shaded window keeps its upper corners and is two rows high.
pub proof fn shaded_window_keeps_title(bounds: Rect)
    requires
        bounds.a.y + 2 <= i16::MAX,
    ensures
        WinStates::folded(bounds).a == bounds.a,
        WinStates::folded(bounds).b.x == bounds.b.x,
        WinStates::folded(bounds).b.y - bounds.a.y == 2,
{
}

/// A window that is not shaded obeys the action.
pub proof fn open_window_obeys(s: WinStates, key: WinKey, action: WinAction)
    requires
        s.wf(),
        s.saved(key) is None,
    ensures
        s.effective(key, action) == action,
{
}

/// A key leads to one window at most: the lowest that has it. A window that has the key is found.
pub proof fn keys_are_unambiguous(
    keys: Seq<Option<WinKey>>,
    key: WinKey,
    r: Option<usize>,
    q: Option<usize>,
)
    requires
        is_first(keys, key, r),
        is_first(keys, key, q),
    ensures
        r == q,
        keys.contains(Some(key)) == (r is Some),
        r matches Some(i) ==> keys[i as int] == Some(key),
{
    if keys.contains(Some(key)) {
        let j = choose|j: int| 0 <= j < keys.len() && keys[j] == Some(key);
        assert(keys[j] == Some(key));
    }
    if let Some(i) = r {
        assert(keys[i as int] == Some(key));
    }
    if let Some(j) = q {
        assert(keys[j as int] == Some(key));
    }
}

} // verus!
