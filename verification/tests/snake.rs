use certik::geometry::Rect;
use certik::keys::{KB_DOWN, KB_ESC, KB_LEFT, KB_RIGHT, KB_UP};
use certik::snake::{Dir, SnakeView, SNAKE_HEIGHT, SNAKE_WIDTH};

fn new_game() -> SnakeView {
    SnakeView::new(Rect::new(0, 0, 38, 24))
}

#[test]
fn spawns_and_moves_forward_without_dying() {
    let mut view = SnakeView::new(Rect::new(0, 0, 38, 24));
    view.interval = 1;
    // Food out of the way, so that nothing is eaten.
    view.food = (0, 0);
    for _ in 0..5 {
        view.tick();
    }
    assert!(!view.game_over, "snake died while just moving forward");
    assert_eq!(view.snake.len(), 3);
    assert_eq!(*view.snake.front().unwrap(), (2 + 5, SNAKE_HEIGHT / 2));
}

#[test]
fn eating_grows_and_scores() {
    let mut view = SnakeView::new(Rect::new(0, 0, 38, 24));
    view.interval = 1;
    // Place food directly in front of the head.
    let head = *view.snake.front().unwrap();
    view.food = (head.0 + 1, head.1);
    view.tick();
    assert!(!view.game_over);
    assert_eq!(view.score, 10);
    assert_eq!(view.snake.len(), 4);
    assert_eq!(*view.snake.front().unwrap(), (head.0 + 1, head.1));
}

#[test]
fn cannot_reverse_into_self_on_next_tick() {
    let mut view = SnakeView::new(Rect::new(0, 0, 38, 24));
    view.interval = 1;
    // A left turn is opposite to the current direction (Right) and must
    // be ignored rather than killing the snake.
    view.pending = Some(Dir::Left);
    view.tick();
    assert!(!view.game_over);
    assert_eq!(view.dir, Dir::Right);
    assert!(view.pending.is_none());
    assert_eq!(*view.snake.front().unwrap(), (3, SNAKE_HEIGHT / 2));
}

#[test]
fn hitting_the_wall_is_game_over() {
    let mut view = SnakeView::new(Rect::new(0, 0, 38, 24));
    view.interval = 1;
    view.dir = Dir::Up;
    for _ in 0..12 {
        view.tick();
    }
    assert!(view.game_over);
}

#[test]
fn a_move_takes_an_interval() {
    let mut view = new_game();
    for _ in 0..11 {
        view.tick();
    }
    assert_eq!(*view.snake.front().unwrap(), (2, 10));
    view.tick();
    assert_eq!(*view.snake.front().unwrap(), (3, 10));
    assert_eq!(view.tick_timer, 0);
}

#[test]
fn the_snake_speeds_up() {
    let mut view = new_game();
    let row = |y: i16| (0..SNAKE_WIDTH).map(move |x| (x, y));
    // A long snake in rows 0 to 3, about to eat.
    view.snake.clear();
    for y in 0..4 {
        let cells: Vec<(i16, i16)> = if y % 2 == 0 { row(y).collect() } else { row(y).rev().collect() };
        for c in cells {
            view.snake.push_front(c);
        }
    }
    view.score = 10 * (view.snake.len() as u32 - 3);
    assert_eq!(view.score, 850);
    view.dir = Dir::Down;
    view.interval = 1;
    view.food = (0, 4);
    view.tick();
    assert_eq!(view.score, 860);
    assert_eq!(view.interval, 3);
    let mut view = new_game();
    view.interval = 1;
    view.food = (3, 10);
    view.tick();
    assert_eq!(view.interval, 12);
}

#[test]
fn running_into_itself_is_game_over() {
    let mut view = new_game();
    view.snake.clear();
    for c in [(5, 5), (5, 6), (4, 6), (4, 5), (4, 4)] {
        view.snake.push_back(c);
    }
    view.score = 20;
    view.food = (0, 0);
    view.interval = 1;
    view.dir = Dir::Left;
    view.tick();
    assert!(view.game_over);
    assert_eq!(view.snake.len(), 5);
}

#[test]
fn the_tail_may_be_followed() {
    let mut view = new_game();
    view.snake.clear();
    for c in [(5, 5), (5, 6), (4, 6), (4, 5)] {
        view.snake.push_back(c);
    }
    view.score = 10;
    view.food = (0, 0);
    view.interval = 1;
    view.dir = Dir::Left;
    view.tick();
    assert!(!view.game_over);
    assert_eq!(view.snake, [(4, 5), (5, 5), (5, 6), (4, 6)]);
}

#[test]
fn food_lies_beside_the_snake() {
    let mut view = new_game();
    assert_eq!(view.free_cells().len(), 437);
    for _ in 0..200 {
        view.spawn_food();
        assert!(!view.snake.contains(&view.food));
        assert!((0..SNAKE_WIDTH).contains(&view.food.0) && (0..SNAKE_HEIGHT).contains(&view.food.1));
    }
    view.place_food(0);
    assert_eq!(view.food, (0, 0));
    view.place_food(220);
    assert_eq!(view.food, (3, 10));
    view.place_food(436);
    assert_eq!(view.food, (21, 19));
}

#[test]
fn keys_turn_the_snake() {
    let mut view = new_game();
    for (key, dir) in [(KB_UP, Dir::Up), (KB_DOWN, Dir::Down), (KB_LEFT, Dir::Left), (KB_RIGHT, Dir::Right)] {
        view.handle_key(key);
        assert_eq!(view.pending, Some(dir));
    }
    view.handle_key(KB_ESC);
    assert_eq!(view.pending, Some(Dir::Right));
    assert!(Dir::Up.is_opposite(Dir::Down) && !Dir::Up.is_opposite(Dir::Left));
}

#[test]
fn escape_restarts_after_the_end() {
    let mut view = new_game();
    view.game_over = true;
    view.handle_key(KB_UP);
    view.tick();
    assert!(view.game_over && view.pending.is_none() && view.tick_timer == 0);
    view.handle_key(KB_ESC);
    assert!(!view.game_over);
    assert_eq!(view.snake, [(2, 10), (1, 10), (0, 10)]);
    assert_eq!(view.score, 0);
}

fn cell(view: &SnakeView, x: usize, y: usize) -> (char, u8) {
    let c = view.frame();
    let cell = c.rows[y].data[x];
    (cell.ch, cell.attr.to_u8())
}

fn text(view: &SnakeView, x: usize, y: usize, n: usize) -> String {
    view.frame().rows[y].data[x..x + n].iter().map(|c| c.ch).collect()
}

#[test]
fn the_picture_of_a_game() {
    let mut view = SnakeView::new(Rect::new(0, 0, 40, 24));
    view.food = (21, 0);
    // The border begins in column 1 of row 1.
    assert_eq!(cell(&view, 0, 0), (' ', 0x17));
    assert_eq!(cell(&view, 1, 1), ('┌', 0x0a));
    assert_eq!(cell(&view, 24, 22), ('┘', 0x0a));
    assert_eq!(cell(&view, 24, 5), ('│', 0x0a));
    assert_eq!(cell(&view, 9, 22), ('─', 0x0a));
    assert_eq!(cell(&view, 9, 9), (' ', 0x00));
    assert_eq!(cell(&view, 23, 2), ('●', 0x0c));
    assert_eq!(cell(&view, 2, 12), ('█', 0x0a));
    assert_eq!(cell(&view, 4, 12), ('█', 0x0a));
    assert_eq!(cell(&view, 5, 12), (' ', 0x00));
    assert_eq!(cell(&view, 26, 3), (' ', 0x17));
    assert_eq!(cell(&view, 38, 21), (' ', 0x70));
    assert_eq!(cell(&view, 39, 21), (' ', 0x17));
    assert_eq!(text(&view, 27, 2, 12), "Score:    0 ");
    assert_eq!(text(&view, 27, 3, 12), "Length:   3 ");
    assert_eq!(text(&view, 27, 5, 12), "Arrows: move");
    view.game_over = true;
    assert_eq!(text(&view, 15, 13, 9), "GAME OVER");
    assert_eq!(cell(&view, 15, 13), ('G', 0x7c));
    assert_eq!(text(&view, 10, 14, 20), "Press ESC to restart");
    assert_eq!(cell(&view, 10, 14), ('P', 0x70));
}

#[test]
fn a_small_picture_leaves_the_text_out() {
    let view = SnakeView::new(Rect::new(0, 0, 30, 10));
    let c = view.frame();
    assert_eq!(c.rows.len(), 10);
    assert_eq!(cell(&view, 29, 3), (' ', 0x17));
    assert_eq!(SnakeView::new(Rect::new(5, 5, 2, 2)).frame().rows.len(), 0);
}

#[test]
fn drawing_lets_a_tick_pass() {
    let mut view = new_game();
    view.draw();
    assert_eq!(view.tick_timer, 1);
}
