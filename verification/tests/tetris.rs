use certik::geometry::Rect;
use certik::keys::{KB_DOWN, KB_ESC, KB_LEFT, KB_RIGHT, KB_SPACE, KB_UP};
use certik::tetris::{type_of, TetrisView, Tetromino, TetrominoType, TETRIS_HEIGHT, TETRIS_WIDTH};

fn new_game() -> TetrisView {
    TetrisView::new(Rect::new(0, 0, 38, 24))
}

fn with_piece(kind: TetrominoType) -> TetrisView {
    let mut view = new_game();
    view.current = Some(Tetromino::new(kind));
    view
}

fn fill_row(view: &mut TetrisView, y: usize, gap: Option<usize>) {
    for x in 0..TETRIS_WIDTH {
        if Some(x) != gap {
            view.board[y][x] = Some(TetrominoType::Z);
        }
    }
}

#[test]
fn a_new_game_has_a_piece() {
    let view = new_game();
    assert!(!view.game_over);
    let t = view.current.unwrap();
    assert_eq!((t.x, t.y, t.rotation), (3, 0, 0));
    assert_eq!((view.score, view.lines, view.level, view.tick_timer), (0, 0, 1, 0));
    assert!(view.board.iter().all(|row| row.iter().all(|c| c.is_none())));
}

#[test]
fn kinds_have_numbers_and_colors() {
    let kinds: Vec<TetrominoType> = (0..7).map(type_of).collect();
    assert_eq!(
        kinds,
        [
            TetrominoType::I,
            TetrominoType::J,
            TetrominoType::L,
            TetrominoType::O,
            TetrominoType::S,
            TetrominoType::T,
            TetrominoType::Z
        ]
    );
    assert_eq!(type_of(99), TetrominoType::Z);
    let colors: Vec<u8> = kinds.iter().map(|k| k.fg()).collect();
    assert_eq!(colors, [11, 9, 14, 10, 12, 13, 15]);
}

#[test]
fn shapes_turn() {
    let t = Tetromino { ttype: TetrominoType::T, x: 5, y: 5, rotation: 0 };
    assert_eq!(t.blocks(), [(4, 5), (5, 5), (6, 5), (5, 4)]);
    assert_eq!(t.rotated().blocks(), [(5, 4), (5, 5), (5, 6), (6, 5)]);
    let back = t.rotated().rotated().rotated().rotated();
    assert_eq!(back, t);
    let i = Tetromino { ttype: TetrominoType::I, x: 5, y: 5, rotation: 3 };
    assert_eq!(i.blocks(), [(5, 4), (5, 5), (5, 6), (5, 7)]);
    assert_eq!(i.moved(-2, 3), Tetromino { ttype: TetrominoType::I, x: 3, y: 8, rotation: 3 });
    let z = Tetromino { ttype: TetrominoType::Z, x: 0, y: 0, rotation: 5 };
    assert_eq!(z.blocks(), [(0, 0), (0, -1), (1, -1), (1, -2)]);
    let j = Tetromino { ttype: TetrominoType::J, x: 0, y: 0, rotation: 3 };
    assert_eq!(j.blocks(), [(0, -1), (0, 0), (0, 1), (-1, 1)]);
    let l = Tetromino { ttype: TetrominoType::L, x: 0, y: 0, rotation: 2 };
    assert_eq!(l.blocks(), [(-1, 0), (0, 0), (1, 0), (-1, 1)]);
    let s = Tetromino { ttype: TetrominoType::S, x: 0, y: 0, rotation: 1 };
    assert_eq!(s.blocks(), [(0, 0), (0, -1), (-1, -1), (-1, -2)]);
    let o = Tetromino { ttype: TetrominoType::O, x: 0, y: 0, rotation: 2 };
    assert_eq!(o.blocks(), [(0, 0), (1, 0), (0, 1), (1, 1)]);
}

fn sorted(mut places: Vec<(i8, i8)>) -> Vec<(i8, i8)> {
    places.sort();
    places
}

#[test]
fn zigzags_lean_as_they_are_named() {
    let at = |ttype: TetrominoType| Tetromino { ttype, x: 4, y: 5, rotation: 0 };
    let s = sorted(at(TetrominoType::S).blocks().to_vec());
    assert_eq!(s, sorted(vec![(4, 4), (5, 4), (3, 5), (4, 5)]));
    let z = sorted(at(TetrominoType::Z).blocks().to_vec());
    assert_eq!(z, sorted(vec![(3, 4), (4, 4), (4, 5), (5, 5)]));
}

#[test]
fn turns_are_clockwise() {
    for ttype in [TetrominoType::T, TetrominoType::J, TetrominoType::L] {
        let mut t = Tetromino { ttype, x: 5, y: 7, rotation: 0 };
        for _ in 0..4 {
            let turned = t.blocks().iter().map(|b| (5 - (b.1 - 7), 7 + (b.0 - 5))).collect();
            t = t.rotated();
            assert_eq!(sorted(t.blocks().to_vec()), sorted(turned));
        }
    }
}

#[test]
fn the_preview_matches_the_piece() {
    for kind in (0..7).map(type_of) {
        let mut view = TetrisView::new(Rect::new(0, 0, 38, 24));
        view.next = kind;
        let blocks = Tetromino { ttype: kind, x: 2, y: 8, rotation: 0 }.blocks();
        for x in 0..5 {
            for y in 7..10 {
                let shown = cell(&view, 24 + 2 * x, 2 + y).0 == '█';
                assert_eq!(shown, blocks.contains(&(x as i8, y as i8)), "{kind:?} {x} {y}");
            }
        }
    }
}

#[test]
fn places_are_checked() {
    let mut view = new_game();
    let at = |x: i8, y: i8| Tetromino { ttype: TetrominoType::O, x, y, rotation: 0 };
    assert!(view.can_place(&at(0, 0)));
    assert!(view.can_place(&at(8, 18)));
    assert!(view.can_place(&at(0, -5)));
    assert!(!view.can_place(&at(9, 0)));
    assert!(!view.can_place(&at(-1, 0)));
    assert!(!view.can_place(&at(0, 19)));
    view.board[5][5] = Some(TetrominoType::I);
    assert!(!view.can_place(&at(4, 4)));
    assert!(view.can_place(&at(3, 4)));
}

#[test]
fn keys_move_the_piece() {
    let mut view = with_piece(TetrominoType::O);
    view.handle_key(KB_LEFT);
    assert_eq!(view.current.unwrap().x, 2);
    view.handle_key(KB_RIGHT);
    view.handle_key(KB_RIGHT);
    assert_eq!(view.current.unwrap().x, 4);
    view.handle_key(KB_DOWN);
    assert_eq!(view.current.unwrap().y, 1);
    assert_eq!(view.score, 1);
    for _ in 0..20 {
        view.handle_key(KB_LEFT);
    }
    assert_eq!(view.current.unwrap().x, 0);
    view.handle_key(KB_ESC);
    view.handle_key(0x1234);
    assert_eq!(view.current.unwrap().x, 0);
}

#[test]
fn turns_are_kicked_off_the_wall() {
    let mut view = new_game();
    let upright = Tetromino { ttype: TetrominoType::I, x: 0, y: 5, rotation: 1 };
    view.current = Some(upright);
    view.handle_key(KB_UP);
    assert_eq!(view.current.unwrap(), Tetromino { x: 2, rotation: 2, ..upright });
    view.current = Some(Tetromino { x: 9, ..upright });
    view.handle_key(KB_UP);
    assert_eq!(view.current.unwrap(), Tetromino { x: 8, rotation: 2, ..upright });
    view.current = Some(Tetromino { x: 5, ..upright });
    view.handle_key(KB_UP);
    assert_eq!(view.current.unwrap(), Tetromino { x: 5, rotation: 2, ..upright });
    // Between two columns there is no room to turn.
    for y in 0..TETRIS_HEIGHT {
        view.board[y][4] = Some(TetrominoType::J);
        view.board[y][6] = Some(TetrominoType::J);
    }
    view.current = Some(Tetromino { x: 5, ..upright });
    view.handle_key(KB_UP);
    assert_eq!(view.current.unwrap(), Tetromino { x: 5, ..upright });
}

#[test]
fn a_drop_scores_and_locks() {
    let mut view = with_piece(TetrominoType::O);
    let next = view.next;
    view.handle_key(KB_SPACE);
    assert_eq!(view.score, 36);
    assert_eq!(view.board[18][3], Some(TetrominoType::O));
    assert_eq!(view.board[19][4], Some(TetrominoType::O));
    assert_eq!(view.board[17][3], None);
    assert_eq!(view.current.unwrap(), Tetromino::new(next));
}

#[test]
fn pieces_fall_with_time() {
    let mut view = with_piece(TetrominoType::O);
    for _ in 0..47 {
        view.tick();
    }
    assert_eq!(view.current.unwrap().y, 0);
    view.tick();
    assert_eq!(view.current.unwrap().y, 1);
    assert_eq!(view.tick_timer, 0);
    for (level, ticks) in [(1, 48), (2, 43), (3, 38), (4, 33), (5, 28), (6, 23), (7, 18), (8, 13), (9, 8), (10, 5), (40, 5)] {
        let mut view = with_piece(TetrominoType::O);
        view.level = level;
        view.lines = (level - 1) * 10;
        for _ in 0..ticks - 1 {
            view.tick();
        }
        assert_eq!(view.current.unwrap().y, 0);
        view.tick();
        assert_eq!(view.current.unwrap().y, 1);
    }
}

#[test]
fn a_landed_piece_locks() {
    let mut view = new_game();
    view.current = Some(Tetromino { ttype: TetrominoType::O, x: 0, y: 18, rotation: 0 });
    view.tick_timer = 47;
    view.tick();
    assert_eq!(view.board[19][1], Some(TetrominoType::O));
    assert_eq!(view.current.unwrap().y, 0);
    view.current = Some(Tetromino { ttype: TetrominoType::O, x: 2, y: 18, rotation: 0 });
    view.handle_key(KB_DOWN);
    assert_eq!(view.board[18][3], Some(TetrominoType::O));
    assert_eq!(view.score, 0);
}

#[test]
fn full_rows_vanish_and_score() {
    for (rows, score) in [(1, 80), (2, 200), (3, 600), (4, 2400)] {
        let mut view = new_game();
        for k in 0..rows {
            fill_row(&mut view, 19 - k, None);
        }
        view.board[19 - rows][7] = Some(TetrominoType::L);
        view.clear_lines();
        assert_eq!((view.lines, view.score, view.level), (rows as u32, score, 1));
        assert_eq!(view.board[19][7], Some(TetrominoType::L));
        assert_eq!(view.board[19][6], None);
        assert!(view.board[18].iter().all(|c| c.is_none()));
    }
}

#[test]
fn levels_come_with_rows() {
    let mut view = new_game();
    view.lines = 9;
    fill_row(&mut view, 19, None);
    view.clear_lines();
    assert_eq!((view.lines, view.level, view.score), (10, 2, 80));
    fill_row(&mut view, 19, None);
    view.clear_lines();
    assert_eq!((view.lines, view.level, view.score), (11, 2, 200));
}

/// Rows vanish one by one from the bottom, each letting what is above it sink.
fn sink(board: &mut [[Option<TetrominoType>; TETRIS_WIDTH]; TETRIS_HEIGHT]) -> u32 {
    let mut count = 0;
    let mut y = TETRIS_HEIGHT - 1;
    while y > 0 {
        if board[y].iter().all(|c| c.is_some()) {
            count += 1;
            for row in (1..=y).rev() {
                board[row] = board[row - 1];
            }
            board[0] = [None; TETRIS_WIDTH];
        } else {
            y -= 1;
        }
    }
    count
}

#[test]
fn rows_vanish_as_if_one_by_one() {
    for pattern in 0u32..2048 {
        let mut view = new_game();
        for bit in 0..11 {
            // Row 0, row 1 and the nine lowest rows are full or have a gap.
            let y = if bit < 2 { bit } else { 9 + bit };
            let gap = if pattern & (1 << bit) != 0 { None } else { Some(bit % TETRIS_WIDTH) };
            fill_row(&mut view, y, gap);
        }
        let mut board = view.board;
        let count = sink(&mut board);
        view.clear_lines();
        assert_eq!(view.board, board, "pattern {pattern:b}");
        assert_eq!(view.lines, count, "pattern {pattern:b}");
        if count > 4 {
            assert_eq!(view.score, 0);
        }
    }
}

#[test]
fn no_room_for_a_piece_is_game_over() {
    let mut view = new_game();
    view.next = TetrominoType::O;
    view.board[1][4] = Some(TetrominoType::I);
    view.spawn_with(TetrominoType::S);
    assert!(view.game_over);
    assert_eq!(view.next, TetrominoType::S);
    let before = view.current;
    view.tick();
    view.handle_key(KB_LEFT);
    view.handle_key(KB_SPACE);
    assert_eq!(view.current, before);
    view.score = 500;
    view.handle_key(KB_ESC);
    assert!(!view.game_over);
    assert_eq!(view.current.unwrap(), Tetromino::new(TetrominoType::S));
    assert_eq!(view.score, 0);
    assert_eq!(view.board[1][4], None);
}

#[test]
fn the_piece_never_overlaps() {
    let mut view = new_game();
    let keys = [KB_LEFT, KB_UP, KB_DOWN, KB_RIGHT, KB_SPACE, KB_UP, KB_DOWN];
    let mut score = 0;
    for n in 0..3000 {
        view.handle_key(keys[(n * 5 + n / 7) % keys.len()]);
        view.tick();
        if view.game_over {
            return;
        }
        assert!(view.can_place(&view.current.unwrap()));
        assert!(view.score >= score);
        score = view.score;
    }
}

fn cell(view: &TetrisView, x: usize, y: usize) -> (char, u8) {
    let cell = view.frame().rows[y].data[x];
    (cell.ch, cell.attr.to_u8())
}

fn text(view: &TetrisView, x: usize, y: usize, n: usize) -> String {
    view.frame().rows[y].data[x..x + n].iter().map(|c| c.ch).collect()
}

#[test]
fn the_picture_of_the_well() {
    let mut view = TetrisView::new(Rect::new(0, 0, 38, 24));
    view.current = Some(Tetromino { ttype: TetrominoType::O, x: 0, y: 0, rotation: 0 });
    view.next = TetrominoType::T;
    view.board[19][9] = Some(TetrominoType::I);
    view.score = 123;
    // The well begins in column 2 of row 2.
    assert_eq!(cell(&view, 1, 1), ('┌', 0x1b));
    assert_eq!(cell(&view, 22, 1), ('┐', 0x1b));
    assert_eq!(cell(&view, 5, 1), ('─', 0x1b));
    assert_eq!(cell(&view, 1, 22), ('└', 0x1b));
    assert_eq!(cell(&view, 22, 22), ('┘', 0x1b));
    assert_eq!(cell(&view, 22, 10), ('│', 0x1b));
    assert_eq!(cell(&view, 2, 2), ('█', 0x1a));
    assert_eq!(cell(&view, 5, 3), ('█', 0x1a));
    assert_eq!(cell(&view, 6, 3), (' ', 0x17));
    assert_eq!(cell(&view, 20, 21), ('█', 0x1b));
    assert_eq!(cell(&view, 21, 21), ('█', 0x1b));
    assert_eq!(text(&view, 24, 2, 12), "Score:  123 ");
    assert_eq!(text(&view, 24, 3, 12), "Lines:    0 ");
    assert_eq!(text(&view, 24, 4, 12), "Level:    1 ");
    assert_eq!(text(&view, 24, 6, 12), "Next:       ");
    assert_eq!(cell(&view, 24, 20), (' ', 0x70));
    // The next piece: a row of three, and one block above its middle.
    assert_eq!(text(&view, 24, 9, 12), "    ██      ");
    assert_eq!(text(&view, 24, 10, 12), "  ██████    ");
    assert_eq!(text(&view, 24, 11, 12), "            ");
    assert_eq!(cell(&view, 28, 9), ('█', 0x7d));
    view.game_over = true;
    assert_eq!(text(&view, 14, 12, 9), "GAME OVER");
    assert_eq!(text(&view, 9, 13, 20), "Press ESC to restart");
}

#[test]
fn a_small_picture_of_the_well() {
    let view = TetrisView::new(Rect::new(0, 0, 34, 5));
    assert_eq!(view.frame().rows.len(), 5);
    assert_eq!(cell(&view, 30, 2), (' ', 0x17));
    let mut view = TetrisView::new(Rect::new(0, 0, 1, 1));
    view.draw();
    assert_eq!(view.tick_timer, 1);
}
