use certik::certs::{CertSet, ExtractedMaterial, LoadSlot};
use certik::clock::Moment;
use certik::crypto::{Certificate, PrivateKey};
use certik::geometry::{Point, Rect};
use certik::highlight::{
    draw_colored_line, CT_CN, CT_DATE, CT_DAYS, CT_DAYS_BAD, CT_HDR, CT_LABEL, CT_PATH, CT_SEP,
    CT_STATUS,
};
use certik::keys::{KB_DOWN, KB_ESC, KB_LEFT, KB_RIGHT, KB_SPACE, KB_UP};
use certik::layout::{
    bar_under, dialog_window, game_window, interior, moved_bars, scroll_bars, server_window,
    set_window, text_window, welcome_window, Barred,
};
use certik::panes::{
    draw_log, draw_set, draw_text_line, longest_line, scroll_handler, scroll_set, scrollbar_params,
    Bar, BarParams, Input, SetPane,
};
use certik::screen::{DIALOG, NORMAL};
use certik::session::{
    dialog_title, load_at, load_component, note_of, overall, preload, preload_files, read_error,
    slot_name, start, start_at, verify_at_start, verify_when_due, Directories, Loaded, StartFile,
};
use certik::tls::self_signed_pem_pair;
use certik::windows::{
    active_set, command_of, find_window_index, focus_of, menu_target, Command, WinAction, WinKey,
    WinStates, CM_ABOUT, CM_LOAD_KEY, CM_NEW_SET, CM_SNAKE, CM_WIN_RESTORE,
};

fn characters(row: &turbo_vision::core::draw::DrawBuffer) -> String {
    row.data.iter().map(|c| c.ch).collect()
}

fn attributes(row: &turbo_vision::core::draw::DrawBuffer) -> Vec<u8> {
    row.data.iter().map(|c| c.attr.to_u8()).collect()
}

fn moment() -> Moment {
    Moment { secs: 1_710_000_000, nanos: 0 }
}

#[test]
fn codes_are_those_of_the_framework() {
    assert_eq!(KB_ESC, turbo_vision::core::event::KB_ESC);
    assert_eq!(KB_UP, turbo_vision::core::event::KB_UP);
    assert_eq!(KB_DOWN, turbo_vision::core::event::KB_DOWN);
    assert_eq!(KB_LEFT, turbo_vision::core::event::KB_LEFT);
    assert_eq!(KB_RIGHT, turbo_vision::core::event::KB_RIGHT);
    assert_eq!(KB_SPACE, ' ' as u16);
    assert_eq!(NORMAL, turbo_vision::core::palette::colors::NORMAL.to_u8());
    assert_eq!(DIALOG, turbo_vision::core::palette::colors::DIALOG_NORMAL.to_u8());
    let id: turbo_vision::core::command::CommandId = CM_NEW_SET;
    assert_eq!(id, 200);
}

// -- coloring -------------------------------------------------------------------

fn colored(line: &str, width: usize, from: usize) -> (String, Vec<u8>) {
    let row = draw_colored_line(line, width, from).unwrap();
    (characters(&row), attributes(&row))
}

/// The colors of `line` as runs: how many columns, and which color.
fn runs(line: &str, width: usize, from: usize) -> Vec<(usize, u8)> {
    let mut out: Vec<(usize, u8)> = Vec::new();
    for c in colored(line, width, from).1 {
        match out.last_mut() {
            Some(last) if last.1 == c => last.0 += 1,
            _ => out.push((1, c)),
        }
    }
    out
}

#[test]
fn rules_and_headings_are_colored() {
    assert_eq!(runs("====", 6, 0), [(6, CT_SEP)]);
    assert_eq!(runs("-=-", 6, 0), [(6, CT_SEP)]);
    assert_eq!(runs("VERIFICATION", 14, 0), [(14, CT_HDR)]);
    assert_eq!(runs("INTERMEDIATES     none", 10, 3), [(10, CT_HDR)]);
    assert_eq!(runs("", 5, 0), [(5, NORMAL)]);
    assert_eq!(runs("plain words", 11, 0), [(11, NORMAL)]);
    assert!(draw_colored_line("x", 0, 0).is_none());
}

#[test]
fn titles_are_colored() {
    let line = "Certificate Set #1   [cert OK] [intermediate(s): 0] [key --]";
    assert_eq!(
        runs(line, 62, 0),
        [
            (21, CT_LABEL),
            (9, CT_STATUS),
            (1, NORMAL),
            (17, CT_LABEL),
            (4, NORMAL),
            (8, CT_SEP),
            (2, NORMAL)
        ]
    );
    assert_eq!(colored(line, 62, 0).0, format!("{line}  "));
    assert_eq!(runs(line, 10, 25), [(5, CT_STATUS), (1, NORMAL), (4, CT_LABEL)]);
    assert_eq!(runs("Certificate Set #1   [cert", 30, 0), [(30, NORMAL)]);
    assert_eq!(runs("Set [cert x]", 14, 0), [(14, CT_LABEL)]);
}

#[test]
fn fields_are_colored() {
    assert_eq!(
        runs("  Subject    : CN=a, O=b", 26, 0),
        [(2, NORMAL), (12, CT_LABEL), (1, NORMAL), (4, CT_CN), (7, NORMAL)]
    );
    let line = "  Not after  : Jan 15 08:00:00 2027 GMT  (5 day(s) remaining)";
    assert_eq!(
        runs(line, 64, 0),
        [
            (2, NORMAL),
            (12, CT_LABEL),
            (1, NORMAL),
            (24, CT_DATE),
            (2, NORMAL),
            (20, CT_DAYS),
            (3, NORMAL)
        ]
    );
    assert_eq!(runs("x (5 day(s) until noon) y", 25, 0), [(2, NORMAL), (21, CT_DAYS), (2, NORMAL)]);
    assert_eq!(runs("x (7 day(s) ago) y", 18, 0), [(2, NORMAL), (14, CT_DAYS), (2, NORMAL)]);
    assert_eq!(runs("  Overall: [CN=x] CN=y", 22, 0), [(12, NORMAL), (4, CT_CN), (2, NORMAL), (4, CT_CN)]);
    assert_eq!(runs("pending...", 12, 0), [(10, CT_SEP), (2, NORMAL)]);
}

#[test]
fn expired_notes_are_colored_as_bad() {
    assert_eq!(runs("(-5 day(s) remaining)", 21, 0), [(21, CT_DAYS_BAD)]);
    assert_eq!(runs("x (-7 day(s) remaining)", 24, 0), [(2, NORMAL), (21, CT_DAYS_BAD), (1, NORMAL)]);
    assert_eq!(runs("(expired 12 day(s) ago) y", 25, 0), [(23, CT_DAYS_BAD), (2, NORMAL)]);
    assert_eq!(runs("(- day(s) remaining)", 20, 0), [(20, NORMAL)]);
    assert_eq!(runs("(expired day(s) ago)", 20, 0), [(20, NORMAL)]);
    assert_eq!(runs("(--5 day(s) remaining)", 22, 0), [(22, NORMAL)]);
}

#[test]
fn paths_in_headings_are_colored() {
    assert_eq!(
        runs("LEAF CERTIFICATE  (/a/b.pem)", 30, 0),
        [(19, CT_HDR), (8, CT_PATH), (3, CT_HDR)]
    );
    assert_eq!(runs("INTERMEDIATE #12  (/c)", 22, 0), [(19, CT_HDR), (2, CT_PATH), (1, CT_HDR)]);
    assert_eq!(runs("PRIVATE KEY  (/k)", 17, 0), [(14, CT_HDR), (2, CT_PATH), (1, CT_HDR)]);
    assert_eq!(runs("PRIVATE KEY  (/k)", 4, 13), [(1, CT_HDR), (2, CT_PATH), (1, CT_HDR)]);
    let line = "INTERMEDIATES     none loaded  --  use File > Open Intermediate... (optional)";
    assert_eq!(runs(line, 80, 0), [(80, CT_HDR)]);
}

#[test]
fn narrow_characters_take_one_cell() {
    let narrow: String =
        (' '..='~').chain('\u{c0}'..='\u{ff}').chain(std::iter::once('\u{2588}')).collect();
    let row = draw_text_line(&narrow, narrow.chars().count());
    assert_eq!(characters(&row), narrow);
}

#[test]
fn coloring_keeps_the_text() {
    let line = "  Issuer     : CN=some issuer, O=org  (12 day(s) remaining) Version: 3   ";
    for from in 0..line.len() + 4 {
        for width in [1, 5, 40, 90] {
            let shown: String = line.chars().chain(std::iter::repeat(' ')).skip(from).take(width).collect();
            assert_eq!(colored(line, width, from).0, shown);
        }
    }
}

#[test]
fn coloring_keeps_names_in_any_script() {
    let line = "  Subject    : CN=Łódź Δοκιμή Проба, O=Δήμος  ";
    for from in 0..50 {
        let shown: String = line.chars().chain(std::iter::repeat(' ')).skip(from).take(20).collect();
        assert_eq!(colored(line, 20, from).0, shown);
    }
}

#[test]
fn columns_are_counted_in_characters() {
    let (shown, attrs) = colored("é CN=a,", 8, 0);
    assert_eq!(shown, "é CN=a, ");
    assert_eq!(attrs, [NORMAL, NORMAL, CT_CN, CT_CN, CT_CN, CT_CN, NORMAL, NORMAL]);
    assert_eq!(
        runs("  Subject    : O=Żółw, CN=λ, L=x  (3 day(s) remaining)", 55, 0),
        [(2, NORMAL), (12, CT_LABEL), (9, NORMAL), (4, CT_CN), (7, NORMAL), (20, CT_DAYS), (1, NORMAL)]
    );
}

#[test]
fn characters_without_width_are_left_out() {
    assert_eq!(characters(&draw_text_line("a\u{301}b\u{7}c", 5)), "abc  ");
    assert_eq!(characters(&draw_text_line("x日", 2)), "x日");
}

#[test]
fn wide_characters_take_two_cells() {
    let row = draw_text_line("日本x", 6);
    assert_eq!(characters(&row), "日\0本\0x ");
    assert_eq!(attributes(&row), [NORMAL; 6]);
}

// -- windows' contents ------------------------------------------------------------

#[test]
fn text_lines_fit() {
    assert_eq!(characters(&draw_text_line("abc", 5)), "abc  ");
    assert_eq!(characters(&draw_text_line("abcdef", 3)), "abc");
    assert_eq!(characters(&draw_text_line("abc", 0)), "");
}

fn log(n: usize) -> Vec<String> {
    (0..n).map(|i| format!("line {i}")).collect()
}

#[test]
fn the_log_is_drawn() {
    let bounds = Rect::new(3, 4, 33, 7);
    let lines = log(5);
    let mut offset = 1;
    let rows = draw_log(Some(&lines), &mut offset, bounds);
    assert_eq!(rows.len(), 3);
    assert_eq!(characters(&rows[0]).trim_end(), "line 1");
    assert_eq!(characters(&rows[2]).trim_end(), "line 3");
    offset = 100;
    let rows = draw_log(Some(&lines), &mut offset, bounds);
    assert_eq!(offset, 2);
    assert_eq!(characters(&rows[2]).trim_end(), "line 4");
    let short = log(1);
    let rows = draw_log(Some(&short), &mut offset, bounds);
    assert_eq!(offset, 0);
    assert_eq!(characters(&rows[0]).trim_end(), "line 0");
    assert_eq!(attributes(&rows[1]), [NORMAL; 30]);
}

#[test]
fn an_empty_log_has_a_hint() {
    let mut offset = 9;
    let none = log(0);
    let rows = draw_log(Some(&none), &mut offset, Rect::new(0, 0, 30, 2));
    assert_eq!(offset, 9);
    assert_eq!(characters(&rows[0]).trim_end(), "(no API activity yet)");
    assert_eq!(attributes(&rows[0])[20], NORMAL);
    assert_eq!(attributes(&rows[0])[21], 0x07);
    assert_eq!(characters(&rows[1]).trim_end(), "");
    let rows = draw_log(None, &mut offset, Rect::new(0, 0, 30, 2));
    assert_eq!(characters(&rows[0]).trim_end(), "");
    assert!(draw_log(Some(&none), &mut offset, Rect::new(0, 0, 5, 0)).is_empty());
}

#[test]
fn the_log_scrolls() {
    let mut offset = 3;
    assert!(scroll_handler(Input::Key(KB_DOWN), &mut offset));
    assert_eq!(offset, 7);
    assert!(scroll_handler(Input::WheelUp, &mut offset));
    assert_eq!(offset, 5);
    assert!(scroll_handler(Input::Key(KB_UP), &mut offset));
    assert!(scroll_handler(Input::Key(KB_UP), &mut offset));
    assert_eq!(offset, 0);
    assert!(scroll_handler(Input::WheelDown, &mut offset));
    assert_eq!(offset, 2);
    assert!(!scroll_handler(Input::Key(KB_LEFT), &mut offset));
    assert!(!scroll_handler(Input::Other, &mut offset));
    offset = usize::MAX - 1;
    scroll_handler(Input::Key(KB_DOWN), &mut offset);
    assert_eq!(offset, usize::MAX);
}

#[test]
fn panes_are_refreshed_when_the_set_changes() {
    let mut set = CertSet::new(1);
    let mut pane = SetPane::new();
    pane.refresh_at(&set, moment());
    assert_eq!(pane.seen, 0);
    assert_eq!(pane.lines, set.render_at(moment()));
    pane.lines.push("kept".to_string());
    pane.refresh_if_needed(&set);
    assert_eq!(pane.lines.last().unwrap(), "kept");
    set.set_verification("news".to_string());
    pane.refresh_if_needed(&set);
    assert_eq!(pane.lines.last().unwrap(), "  news");
}

#[test]
fn scroll_bars_reach_the_end() {
    let lines = vec!["abc".to_string(), "é".repeat(50), String::new()];
    assert_eq!(longest_line(&lines), 50);
    assert_eq!(longest_line(&vec![]), 0);
    let (v, h) = scrollbar_params(&lines, Rect::new(0, 0, 20, 2));
    assert_eq!(v, BarParams { max: 1, page: 1, total: 3 });
    assert_eq!(h, BarParams { max: 30, page: 19, total: 50 });
    let (v, h) = scrollbar_params(&lines, Rect::new(0, 0, 0, 90));
    assert_eq!(v, BarParams { max: 0, page: 89, total: 3 });
    assert_eq!(h, BarParams { max: 49, page: 0, total: 50 });
}

#[test]
fn sets_scroll() {
    let lines: Vec<String> = (0..10).map(|_| "x".repeat(30)).collect();
    let bounds = Rect::new(0, 0, 20, 4);
    let scroll = |input: Input, v: i32, h: i32| scroll_set(input, v, h, &lines, bounds);
    assert_eq!(scroll(Input::Key(KB_DOWN), 5, 0), Some((Bar::Vertical, 6)));
    assert_eq!(scroll(Input::Key(KB_DOWN), 6, 0), None);
    assert_eq!(scroll(Input::Key(KB_UP), 1, 0), Some((Bar::Vertical, 0)));
    assert_eq!(scroll(Input::Key(KB_UP), 0, 0), None);
    assert_eq!(scroll(Input::Key(KB_RIGHT), 0, 9), Some((Bar::Horizontal, 10)));
    assert_eq!(scroll(Input::Key(KB_RIGHT), 0, 10), None);
    assert_eq!(scroll(Input::Key(KB_LEFT), 0, 10), Some((Bar::Horizontal, 9)));
    assert_eq!(scroll(Input::Key(KB_LEFT), 0, 0), None);
    assert_eq!(scroll(Input::WheelUp, 1, 0), Some((Bar::Vertical, -2)));
    assert_eq!(scroll(Input::WheelUp, 0, 0), None);
    assert_eq!(scroll(Input::WheelDown, 5, 0), Some((Bar::Vertical, 8)));
    assert_eq!(scroll(Input::WheelDown, 6, 0), None);
    assert_eq!(scroll(Input::Key(KB_ESC), 3, 3), None);
    assert_eq!(scroll(Input::Other, 3, 3), None);
    assert_eq!(scroll_set(Input::Key(KB_DOWN), 0, 0, &lines, Rect::new(0, 0, 20, 0)), None);
}

#[test]
fn sets_are_drawn() {
    let lines: Vec<String> = ["====", "VERIFICATION", "  text"].iter().map(|s| s.to_string()).collect();
    let rows = draw_set(&lines, 0, 1, Rect::new(0, 0, 6, 4));
    assert_eq!(rows.len(), 4);
    assert_eq!(characters(&rows[0]), "===   ");
    assert_eq!(attributes(&rows[0]), [CT_SEP; 6]);
    assert_eq!(characters(&rows[1]), "ERIFIC");
    assert_eq!(characters(&rows[2]), " text ");
    assert_eq!(attributes(&rows[3]), [NORMAL; 6]);
    let rows = draw_set(&lines, 9, 0, Rect::new(0, 0, 6, 2));
    assert_eq!(characters(&rows[0]), "VERIFI");
    assert_eq!(draw_set(&lines, 0, 0, Rect::new(0, 0, 0, 2)).len(), 2);
}

// -- places -----------------------------------------------------------------------

#[test]
fn windows_have_their_places() {
    assert_eq!(server_window(80, 25), Rect::new(2, 1, 60, 12));
    assert_eq!(server_window(20, 5), Rect::new(2, 1, 26, 7));
    assert_eq!(welcome_window(80, 25), Rect::new(4, 3, 76, 22));
    assert_eq!(welcome_window(21, 5), Rect::new(-4, -1, 26, 7));
    assert_eq!(dialog_window(80, 25), Rect::new(9, 2, 71, 22));
    assert_eq!(dialog_window(40, 10), Rect::new(2, -1, 38, 11));
    assert_eq!(game_window(80, 25), Rect::new(20, 0, 60, 26));
    assert_eq!(text_window(80, 25, 1), Rect::new(6, 5, 78, 24));
    assert_eq!(text_window(80, 25, 100), Rect::new(8, 5, 80, 24));
    assert_eq!(text_window(80, 25, -100), Rect::new(0, 0, 72, 19));
    assert_eq!(set_window(80, 25, 1), Rect::new(8, 6, 78, 23));
    assert_eq!(set_window(80, 25, 2), Rect::new(10, 7, 80, 24));
    assert_eq!(set_window(80, 25, usize::MAX), Rect::new(10, 7, 80, 24));
    assert_eq!(set_window(30, 8, 3), Rect::new(0, 0, 40, 12));
    assert_eq!(interior(Rect::new(5, 5, 25, 15)), Rect::new(0, 0, 18, 8));
}

#[test]
fn scroll_bars_stand_on_the_frame() {
    assert_eq!(scroll_bars(40, 12), (Rect::new(39, 1, 40, 11), Rect::new(1, 11, 39, 12)));
    assert_eq!(
        moved_bars(Rect::new(10, 10, 50, 22)),
        Some((Rect::new(39, 1, 40, 11), Rect::new(1, 11, 39, 12)))
    );
    assert_eq!(moved_bars(Rect::new(10, 10, 13, 22)), None);
    assert_eq!(moved_bars(Rect::new(10, 10, 50, 13)), None);
}

#[test]
fn the_mouse_finds_scroll_bars() {
    let window = |x: i16, y: i16| {
        let (v, h) = scroll_bars(20, 10);
        Barred { bounds: Rect::new(x, y, x + 20, y + 10), bars: vec![v, h] }
    };
    let windows = vec![window(0, 0), window(5, 5), window(19, 1)];
    let hit = bar_under(&windows, Point { x: 19, y: 1 }).unwrap();
    assert_eq!((hit.window, hit.bar, hit.place), (0, 0, Point { x: 0, y: 0 }));
    let hit = bar_under(&windows, Point { x: 24, y: 8 }).unwrap();
    assert_eq!((hit.window, hit.bar, hit.place), (1, 0, Point { x: 0, y: 2 }));
    let hit = bar_under(&windows, Point { x: 22, y: 10 }).unwrap();
    assert_eq!((hit.window, hit.bar, hit.place), (2, 1, Point { x: 2, y: 0 }));
    assert_eq!(bar_under(&windows, Point { x: 3, y: 3 }), None);
}

// -- window states ----------------------------------------------------------------

#[test]
fn restoring_undoes_shading() {
    let mut states = WinStates::new();
    let bounds = Rect::new(3, 4, 33, 14);
    let key = WinKey::Certs(2);
    assert_eq!(states.restore(key), None);
    assert_eq!(states.effective_action(key, WinAction::Zoom), WinAction::Zoom);
    assert_eq!(states.effective_action(key, WinAction::Restore), WinAction::Restore);
    assert_eq!(states.minimize(key, bounds), Rect::new(3, 4, 33, 6));
    states.minimize(WinKey::Server, Rect::new(0, 0, 5, 5));
    for action in [WinAction::Zoom, WinAction::Minimize, WinAction::Restore] {
        assert_eq!(states.effective_action(key, action), WinAction::Restore);
        assert_eq!(states.effective_action(WinKey::Certs(3), action), action);
    }
    assert_eq!(states.restore(key), Some(bounds));
    assert_eq!(states.restore(key), None);
    assert_eq!(states.effective_action(key, WinAction::Minimize), WinAction::Minimize);
    assert_eq!(states.restore(WinKey::Server), Some(Rect::new(0, 0, 5, 5)));
}

#[test]
fn aux_windows_get_new_keys() {
    let mut counter = 1;
    assert_eq!(WinKey::next_aux(&mut counter), WinKey::Aux(1));
    assert_eq!(WinKey::next_aux(&mut counter), WinKey::Aux(2));
    counter = u32::MAX;
    assert_eq!(WinKey::next_aux(&mut counter), WinKey::Aux(u32::MAX));
    assert_eq!(counter, 0);
}

#[test]
fn the_topmost_set_is_active() {
    let keys = vec![
        None,
        Some(WinKey::Server),
        Some(WinKey::Certs(1)),
        Some(WinKey::Certs(2)),
        Some(WinKey::Aux(1)),
    ];
    assert_eq!(active_set(&keys), Some(2));
    assert_eq!(active_set(&vec![None, Some(WinKey::Server)]), None);
    assert_eq!(focus_of(&keys, &vec![Some(1), Some(2)]), 2);
    assert_eq!(focus_of(&keys, &vec![Some(1), None]), usize::MAX);
    assert_eq!(focus_of(&vec![], &vec![Some(1)]), usize::MAX);
    assert_eq!(find_window_index(&keys, WinKey::Certs(1)), Some(2));
    assert_eq!(find_window_index(&keys, WinKey::Aux(7)), None);
    assert_eq!(menu_target(&keys), Some(WinKey::Aux(1)));
    assert_eq!(menu_target(&vec![None]), None);
    assert_eq!(menu_target(&vec![]), None);
}

#[test]
fn commands_have_numbers() {
    assert_eq!(command_of(CM_NEW_SET), Some(Command::NewSet));
    assert_eq!(command_of(CM_LOAD_KEY), Some(Command::LoadKey));
    assert_eq!(command_of(CM_WIN_RESTORE), Some(Command::Window(WinAction::Restore)));
    assert_eq!(command_of(CM_ABOUT), Some(Command::About));
    assert_eq!(command_of(CM_SNAKE), Some(Command::Snake));
    assert_eq!(command_of(199), None);
    assert_eq!(command_of(212), None);
}

// -- loading ----------------------------------------------------------------------

#[test]
fn directories_are_remembered_for_each_component() {
    let mut dirs = Directories::new();
    assert!(dirs.start(LoadSlot::Leaf).is_none());
    dirs.remember(LoadSlot::Leaf, "/certs");
    assert_eq!(dirs.start(LoadSlot::Leaf).as_deref(), Some("/certs"));
    assert_eq!(dirs.start(LoadSlot::Key).as_deref(), Some("/certs"));
    dirs.remember(LoadSlot::Key, "/keys");
    assert_eq!(dirs.start(LoadSlot::Leaf).as_deref(), Some("/certs"));
    assert_eq!(dirs.start(LoadSlot::Key).as_deref(), Some("/keys"));
    assert_eq!(dirs.start(LoadSlot::Intermediates).as_deref(), Some("/keys"));
    assert_eq!(dirs.latest.as_deref(), Some("/keys"));
}

#[test]
fn components_have_names() {
    assert_eq!(slot_name(LoadSlot::Leaf), "certificate");
    assert_eq!(slot_name(LoadSlot::Intermediates), "intermediate(s)");
    assert_eq!(slot_name(LoadSlot::Key), "private key");
    assert_eq!(dialog_title(LoadSlot::Intermediates), "Open Intermediate Certificate(s)");
    assert_eq!(read_error("a/b", "gone"), "cannot read a/b: gone");
}

#[test]
fn verdicts_are_picked_out() {
    assert_eq!(overall("Chain      : x\nOverall    : PASS (y)\nOverall    : z\n"), "PASS (y)");
    assert_eq!(overall("nothing"), "");
    let note = note_of(&Ok("Overall    : PASS (y)\n".to_string()));
    assert!(note.good);
    assert_eq!(note.text, "\x03Verification completed\n\nPASS (y)");
    let note = note_of(&Ok("x FAILED: y\nOverall    : FAIL (y)\n".to_string()));
    assert!(!note.good);
    assert_eq!(note.text, "\x03Verification FAILED\n\nFAIL (y)");
    let note = note_of(&Err("odd".to_string()));
    assert_eq!(note.text, "\x03Verification FAILED\n\nverification error: odd");
}

fn load(set: &mut CertSet, slot: LoadSlot, path: &str, contents: Result<Vec<u8>, String>) -> Loaded {
    load_component(set, &mut Directories::new(), slot, path, None, contents)
}

#[test]
fn only_loaded_files_leave_their_directory() {
    let (cert_pem, key_pem) = self_signed_pem_pair().unwrap();
    let (cert, key) = (cert_pem.into_bytes(), key_pem.into_bytes());
    let mut set = CertSet::new(1);
    let mut dirs = Directories::new();
    let r = load_component(&mut set, &mut dirs, LoadSlot::Leaf, "/z/k", Some("/z"), Ok(key.clone()));
    assert!(matches!(r, Loaded::Failed(_)));
    assert!(dirs.latest.is_none());
    let r = load_component(&mut set, &mut dirs, LoadSlot::Leaf, "/a/c", Some("/a"), Ok(cert));
    assert!(matches!(r, Loaded::Done(_, _)));
    let r = load_component(&mut set, &mut dirs, LoadSlot::Key, "/b/k", Some("/b"), Ok(key.clone()));
    assert!(matches!(r, Loaded::Done(_, _)));
    let gone = Err("gone".to_string());
    load_component(&mut set, &mut dirs, LoadSlot::Leaf, "/d/c", Some("/d"), gone);
    load_component(&mut set, &mut dirs, LoadSlot::Key, "k", None, Ok(key));
    assert_eq!(dirs.start(LoadSlot::Leaf).as_deref(), Some("/a"));
    assert_eq!(dirs.start(LoadSlot::Key).as_deref(), Some("/b"));
    assert_eq!(dirs.start(LoadSlot::Intermediates).as_deref(), Some("/b"));
}

#[test]
fn complete_sets_are_verified() {
    let (cert_pem, key_pem) = self_signed_pem_pair().unwrap();
    let mut set = CertSet::new(5);
    match load(&mut set, LoadSlot::Leaf, "/x/c.pem", Ok(cert_pem.into_bytes())) {
        Loaded::Done(line, note) => {
            assert_eq!(line, "loaded certificate into Certificate Set #5 from /x/c.pem");
            assert!(note.is_none());
        }
        other => panic!("unexpected {other:?}"),
    }
    assert!(set.verification.is_none());
    match load(&mut set, LoadSlot::Key, "/x/k.pem", Ok(key_pem.into_bytes())) {
        Loaded::Done(line, note) => {
            assert_eq!(line, "loaded private key into Certificate Set #5 from /x/k.pem");
            let note = note.unwrap();
            assert!(note.good);
            assert_eq!(note.text, "\x03Verification completed\n\nPASS (full chain verified)");
        }
        other => panic!("unexpected {other:?}"),
    }
    assert!(set.verification.as_ref().unwrap().contains("Overall    : PASS"));
    assert_eq!(set.version, 3);
    assert!(verify_when_due(&mut set, moment()).is_none());
}

#[test]
fn failures_change_nothing() {
    let mut set = CertSet::new(5);
    match load(&mut set, LoadSlot::Leaf, "p", Ok(b"garbage".to_vec())) {
        Loaded::Failed(t) => assert_eq!(t, "Could not load file:\nno certificate found in this file"),
        other => panic!("unexpected {other:?}"),
    }
    match load(&mut set, LoadSlot::Leaf, "p", Err("cannot read p: gone".to_string())) {
        Loaded::Failed(t) => assert_eq!(t, "Could not load file:\ncannot read p: gone"),
        other => panic!("unexpected {other:?}"),
    }
    assert_eq!(set.version, 0);
}

#[test]
fn verification_errors_are_kept() {
    let (cert_pem, key_pem) = self_signed_pem_pair().unwrap();
    let mut odd = Certificate::from_pem(&cert_pem.into_bytes()).unwrap();
    odd.key = Err("bad key".to_string());
    let mut set = CertSet::new(1);
    set.load_key("k", PrivateKey::from_pem(&key_pem.into_bytes()).unwrap());
    let material = Ok(ExtractedMaterial::Certificate(odd));
    match load_at(&mut set, LoadSlot::Leaf, "c", material, moment()) {
        Loaded::Done(_, Some(note)) => {
            assert!(!note.good);
            assert_eq!(
                note.text,
                "\x03Verification FAILED\n\nverification error: cannot get leaf public key: bad key"
            );
        }
        other => panic!("unexpected {other:?}"),
    }
    assert_eq!(
        set.verification.as_deref(),
        Some("verification error: cannot get leaf public key: bad key")
    );
}

#[test]
fn files_are_preloaded() {
    let (cert_pem, key_pem) = self_signed_pem_pair().unwrap();
    let cert = Certificate::from_pem(&cert_pem.into_bytes()).unwrap();
    let key = PrivateKey::from_pem(&key_pem.into_bytes()).unwrap();
    let mut set = CertSet::new(1);
    let line = preload(&mut set, LoadSlot::Leaf, "c", "\"c\"", Err("gone".to_string()));
    assert_eq!(line.unwrap(), "failed to load cert \"c\": gone");
    let line = preload(&mut set, LoadSlot::Key, "k", "\"k\"", Err("gone".to_string()));
    assert_eq!(line.unwrap(), "failed to load key \"k\": gone");
    assert!(verify_at_start(&mut set, moment()).is_none());
    assert!(preload(&mut set, LoadSlot::Leaf, "c", "", Ok(ExtractedMaterial::Certificate(cert))).is_none());
    assert!(preload(&mut set, LoadSlot::Key, "k", "", Ok(ExtractedMaterial::PrivateKey(key))).is_none());
    assert_eq!(set.leaf_path.as_deref(), Some("c"));
    assert_eq!(
        verify_at_start(&mut set, moment()).unwrap(),
        "verification: PASS (full chain verified)"
    );
    assert!(verify_at_start(&mut set, moment()).is_none());
}

#[test]
fn material_of_another_kind_is_left_out() {
    let (cert_pem, _) = self_signed_pem_pair().unwrap();
    let cert = Certificate::from_pem(&cert_pem.into_bytes()).unwrap();
    let mut set = CertSet::new(1);
    assert!(preload(&mut set, LoadSlot::Key, "c", "", Ok(ExtractedMaterial::Certificate(cert))).is_none());
    assert_eq!(set.version, 0);
    assert!(preload(&mut set, LoadSlot::Leaf, "c", "", Ok(ExtractedMaterial::Certificates(vec![]))).is_none());
    assert_eq!(set.version, 0);
}

fn start_file(path: &str, contents: Result<Vec<u8>, String>) -> StartFile {
    StartFile { path: path.to_string(), shown: format!("{path:?}"), contents }
}

#[test]
fn startup_loads_and_verifies() {
    let (cert_pem, key_pem) = self_signed_pem_pair().unwrap();
    let mut set = CertSet::new(1);
    let leaves = vec![
        start_file("none", Err("cannot read none: gone".to_string())),
        start_file("c.pem", Ok(cert_pem.clone().into_bytes())),
        start_file("k.pem", Ok(key_pem.clone().into_bytes())),
    ];
    let keys = vec![start_file("k.pem", Ok(key_pem.into_bytes()))];
    assert_eq!(
        start(&mut set, leaves, keys),
        [
            "failed to load cert \"none\": cannot read none: gone",
            "failed to load cert \"k.pem\": no certificate found in this file",
            "verification: PASS (full chain verified)"
        ]
    );
    assert_eq!(set.leaf_path.as_deref(), Some("c.pem"));
    assert_eq!(set.key_path.as_deref(), Some("k.pem"));
    assert_eq!(set.version, 3);
}

#[test]
fn the_last_file_named_at_startup_stays() {
    let (one, _) = self_signed_pem_pair().unwrap();
    let (two, _) = self_signed_pem_pair().unwrap();
    let mut set = CertSet::new(1);
    let leaves = vec![start_file("1", Ok(one.into_bytes())), start_file("2", Ok(two.into_bytes()))];
    assert!(start_at(&mut set, leaves, vec![], moment()).is_empty());
    assert_eq!(set.leaf_path.as_deref(), Some("2"));
    assert!(set.verification.is_none());
    assert!(preload_files(&mut set, LoadSlot::Key, vec![]).is_empty());
}
