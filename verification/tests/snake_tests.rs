use osirs::snake::{
    HandleKey, Init, IsBoundary, NextPosition, PlaceFood, Position, SnakeState, Update, UpdateOutcome, Direction,
};
use osirs::vga::{Screen, Writer};
use std::collections::VecDeque;

fn cell(screen: &Screen, row: usize, col: usize) -> u8 {
    screen.Cells[(row * 80 + col) * 2]
}

fn row_text(screen: &Screen, row: usize, from: usize, len: usize) -> String {
    (from..from + len).map(|c| cell(screen, row, c) as char).collect()
}

fn p(row: usize, col: usize) -> Position {
    Position { Row: row, Col: col }
}

#[test]
fn new_game_layout() {
    let g = SnakeState::New();
    assert_eq!(g.Snake.iter().copied().collect::<Vec<_>>(), vec![p(12, 40)]);
    assert!(g.Food == p(7, 20));
    assert!(g.Direction == Direction::Right);
    assert_eq!(g.Seed, 371);
    assert!(!g.IsGameOver);
}

#[test]
fn init_draws_border_snake_food_and_texts() {
    let mut g = SnakeState::New();
    let mut w = Writer::new();
    let mut s = Screen::new();
    Init(&mut g, &mut w, &mut s);
    assert_eq!(cell(&s, 0, 0), 0xDA);
    assert_eq!(cell(&s, 0, 79), 0xBF);
    assert_eq!(cell(&s, 24, 0), 0xC0);
    assert_eq!(cell(&s, 24, 79), 0xD9);
    assert_eq!(cell(&s, 0, 40), 0xC4);
    assert_eq!(cell(&s, 10, 0), 0xB3);
    assert_eq!(cell(&s, 12, 40), b'o');
    assert_eq!(cell(&s, 7, 20), b'A');
    assert_eq!(row_text(&s, 0, 3, 7), " Snake ");
    assert_eq!(row_text(&s, 24, 3, 25), " WASD to move, Q to quit ");
    assert_eq!(cell(&s, 5, 5), b' ');
}

#[test]
fn keys_turn_but_never_back() {
    let mut g = SnakeState::New();
    assert!(!HandleKey(&mut g, 'a', 0));
    assert!(g.Direction == Direction::Right);
    HandleKey(&mut g, 'W', 0);
    assert!(g.Direction == Direction::Up);
    HandleKey(&mut g, 's', 0);
    assert!(g.Direction == Direction::Up);
    HandleKey(&mut g, 'a', 0);
    assert!(g.Direction == Direction::Left);
    assert!(HandleKey(&mut g, 'q', 0));
    assert!(HandleKey(&mut g, 'Q', 0));
}

#[test]
fn key_stirs_the_seed() {
    let mut g = SnakeState::New();
    HandleKey(&mut g, 'd', 5);
    let expected = 371usize.wrapping_mul(1103515245).wrapping_add(5).wrapping_add('d' as usize);
    assert_eq!(g.Seed, expected);
}

#[test]
fn next_position_and_boundary() {
    assert!(NextPosition(p(5, 5), Direction::Up) == p(4, 5));
    assert!(NextPosition(p(0, 5), Direction::Up) == p(0, 5));
    assert!(NextPosition(p(5, 0), Direction::Left) == p(5, 0));
    assert!(NextPosition(p(5, 5), Direction::Right) == p(5, 6));
    assert!(IsBoundary(p(0, 5)));
    assert!(IsBoundary(p(24, 5)));
    assert!(IsBoundary(p(5, 79)));
    assert!(!IsBoundary(p(23, 78)));
}

#[test]
fn update_waits_for_move_ticks() {
    let mut g = SnakeState::New();
    let mut w = Writer::new();
    let mut s = Screen::new();
    assert!(Update(&mut g, &mut w, &mut s, 3) == UpdateOutcome::Continue);
    assert_eq!(g.Snake[0], p(12, 40));
    assert_eq!(g.LastMoveTick, 0);
}

#[test]
fn update_moves_the_snake() {
    let mut g = SnakeState::New();
    let mut w = Writer::new();
    let mut s = Screen::new();
    assert!(Update(&mut g, &mut w, &mut s, 4) == UpdateOutcome::Continue);
    assert_eq!(g.Snake.iter().copied().collect::<Vec<_>>(), vec![p(12, 41)]);
    assert_eq!(g.LastMoveTick, 4);
    assert_eq!(cell(&s, 12, 41), b'o');
    assert_eq!(cell(&s, 12, 40), b' ');
}

#[test]
fn hitting_the_border_loses() {
    let mut g = SnakeState::New();
    g.Snake = VecDeque::from(vec![p(12, 78)]);
    let mut w = Writer::new();
    let mut s = Screen::new();
    assert!(Update(&mut g, &mut w, &mut s, 4) == UpdateOutcome::Failure);
    assert!(g.IsGameOver);
    assert_eq!(row_text(&s, 12, 34, 9), "GAME OVER");
    assert!(Update(&mut g, &mut w, &mut s, 100) == UpdateOutcome::Continue);
}

#[test]
fn running_into_itself_loses() {
    let mut g = SnakeState::New();
    g.Snake = VecDeque::from(vec![p(4, 5), p(5, 5), p(5, 6), p(6, 6), p(6, 5)]);
    g.Direction = Direction::Up;
    let mut w = Writer::new();
    let mut s = Screen::new();
    assert!(Update(&mut g, &mut w, &mut s, 4) == UpdateOutcome::Failure);
    assert!(g.IsGameOver);
}

#[test]
fn eating_grows_and_places_food() {
    let mut g = SnakeState::New();
    g.Food = p(12, 41);
    let mut w = Writer::new();
    let mut s = Screen::new();
    assert!(Update(&mut g, &mut w, &mut s, 4) == UpdateOutcome::Continue);
    assert_eq!(g.Snake.iter().copied().collect::<Vec<_>>(), vec![p(12, 40), p(12, 41)]);
    assert!(g.Food != p(12, 41));
    assert!(!g.Snake.contains(&g.Food));
    assert_eq!(cell(&s, g.Food.Row, g.Food.Col), b'A');
}

#[test]
fn place_food_picks_the_seeded_free_cell() {
    let mut g = SnakeState::New();
    assert!(PlaceFood(&mut g));
    assert_eq!(g.Seed, 1631442998);
    assert!(g.Food == p(17, 17));
}

#[test]
fn place_food_fails_when_board_is_full() {
    let mut g = SnakeState::New();
    let mut body = VecDeque::new();
    for r in 1..24 {
        for c in 1..79 {
            body.push_back(p(r, c));
        }
    }
    g.Snake = body;
    let seed = g.Seed;
    assert!(!PlaceFood(&mut g));
    assert_eq!(g.Seed, seed);
}

#[test]
fn body_cells_stay_side_by_side() {
    let mut g = SnakeState::New();
    g.Food = p(12, 41);
    let mut w = Writer::new();
    let mut s = Screen::new();
    assert!(Update(&mut g, &mut w, &mut s, 4) == UpdateOutcome::Continue);
    HandleKey(&mut g, 'w', 4);
    g.Food = p(11, 41);
    assert!(Update(&mut g, &mut w, &mut s, 8) == UpdateOutcome::Continue);
    HandleKey(&mut g, 'd', 8);
    assert!(Update(&mut g, &mut w, &mut s, 12) == UpdateOutcome::Continue);
    let body: Vec<Position> = g.Snake.iter().copied().collect();
    assert!(body.len() >= 3);
    assert_eq!(body[body.len() - 1], p(11, 42));
    assert_eq!(body[body.len() - 2], p(11, 41));
    for pair in body.windows(2) {
        let (a, b) = (pair[0], pair[1]);
        let dr = (a.Row as i64 - b.Row as i64).abs();
        let dc = (a.Col as i64 - b.Col as i64).abs();
        assert_eq!(dr + dc, 1);
    }
}
