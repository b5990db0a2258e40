use vstd::prelude::*;
use vstd::string::StringSliceAdditionalSpecFns;
use std::collections::VecDeque;
use crate::vga::{
    ClearScreen, Console, Screen, WriteAt, WriteByteAt, Writer, blank_cells, put_cell,
    write_at_model, COLS, ROWS, COLOR,
};

verus! {

pub const Empty: u8 = 32;
pub const SnakeBlock: u8 = 111;
pub const FoodBlock: u8 = 65;
pub const TopLeft: u8 = 0xDA;
pub const TopRight: u8 = 0xBF;
pub const BottomLeft: u8 = 0xC0;
pub const BottomRight: u8 = 0xD9;
pub const Horizontal: u8 = 0xC4;
pub const Vertical: u8 = 0xB3;
/// Timer ticks between two steps of the snake.
pub const MoveTicks: u64 = 4;
/// Cells inside the border: 23 rows of 78 columns.
pub const InteriorCells: usize = 1794;

pub const TITLE: &'static str = " Snake ";
pub const HELP: &'static str = " WASD to move, Q to quit ";
pub const YOU_WIN: &'static str = "YOU WIN";
pub const GAME_OVER: &'static str = "GAME OVER";

/// A cell of the screen.
#[derive(Clone, Copy, Debug, PartialEq, Eq, Structural)]
pub struct Position {
    pub Row: usize,
    pub Col: usize,
}

#[derive(Clone, Copy, Debug, PartialEq, Eq, Structural)]
pub enum Direction {
    Up,
    Down,
    Left,
    Right,
}

/// A game of snake: the body from tail (front) to head (back), the food, the heading, the
/// tick of the last step, the random seed and whether the game has ended.
pub struct SnakeState {
    pub Snake: VecDeque<Position>,
    pub Food: Position,
    pub Direction: Direction,
    pub LastMoveTick: u64,
    pub Seed: usize,
    pub IsGameOver: bool,
}

/// A cell inside the border.
pub open spec fn interior(p: Position) -> bool {
    1 <= p.Row <= 23 && 1 <= p.Col <= 78
}

/// The `k`-th cell inside the border, row by row.
pub open spec fn interior_cell(k: int) -> Position {
    Position { Row: (1 + k / 78) as usize, Col: (1 + k % 78) as usize }
}

/// Cells among the first `k` inside the border that the snake does not cover.
pub open spec fn free_count(snake: Seq<Position>, k: int) -> nat
    decreases k,
{
    if k <= 0 {
        0
    } else {
        free_count(snake, k - 1) + if snake.contains(interior_cell(k - 1)) { 0nat } else { 1nat }
    }
}

/// The seed after one step of the generator that places the food.
pub open spec fn next_food_seed(seed: usize) -> usize {
    seed.wrapping_mul(1664525usize).wrapping_add(1013904223usize)
}

/// `food` is the free cell numbered `seed % count` among the free cells, in row order.
pub open spec fn food_at(snake: Seq<Position>, seed: usize, food: Position) -> bool {
    exists|j: int|
        0 <= j < 1794 && !snake.contains(interior_cell(j))
            && free_count(snake, j) == seed as int % (free_count(snake, 1794) as int)
            && food == interior_cell(j)
}

/// Whether two cells touch side by side.
pub open spec fn touching(p: Position, q: Position) -> bool {
    ||| p.Row == q.Row && (p.Col + 1 == q.Col || q.Col + 1 == p.Col)
    ||| p.Col == q.Col && (p.Row + 1 == q.Row || q.Row + 1 == p.Row)
}

/// Each cell of `s` touches the next one.
pub open spec fn connected(s: Seq<Position>) -> bool {
    forall|i: int, j: int| 0 <= i && j == i + 1 && j < s.len() ==> touching(#[trigger] s[i], #[trigger] s[j])
}

impl SnakeState {
    pub open spec fn wf(&self) -> bool {
        &&& forall|i: int| 0 <= i < self.Snake@.len() ==> interior(#[trigger] self.Snake@[i])
        &&& self.Snake@.no_duplicates()
        &&& connected(self.Snake@)
        &&& interior(self.Food)
        &&& !self.IsGameOver ==> self.Snake@.len() >= 1 && !self.Snake@.contains(self.Food)
    }

    /// A snake of one cell in the middle heading right, the food up and to the left.
    pub fn New() -> (g: Self)
        ensures
            g.wf(),
            g.Snake@ == seq![Position { Row: 12, Col: 40 }],
            g.Food == (Position { Row: 7, Col: 20 }),
            g.Direction == Direction::Right,
            g.LastMoveTick == 0,
            g.Seed == 371,
            !g.IsGameOver,
    {
        let mut Snake: VecDeque<Position> = VecDeque::new();
        Snake.push_back(Position { Row: 12, Col: 40 });
        let g = Self {
            Snake,
            Food: Position { Row: 7, Col: 20 },
            Direction: Direction::Right,
            LastMoveTick: 0,
            Seed: 371,
            IsGameOver: false,
        };
        assert(g.Snake@ =~= seq![Position { Row: 12, Col: 40 }]);
        assert(!g.Snake@.contains(g.Food)) by {
            if g.Snake@.contains(g.Food) {
                let i = choose|i: int| 0 <= i < g.Snake@.len() && g.Snake@[i] == g.Food;
                assert(g.Snake@[i] == Position { Row: 12, Col: 40 });
            }
        }
        g
    }
}

/// Whether `Position` is a cell of the snake.
pub fn SnakeContains(Snake: &VecDeque<Position>, Position: Position) -> (b: bool)
    ensures
        b == Snake@.contains(Position),
{
    let mut Index: usize = 0;
    while Index < Snake.len()
        invariant
            Index <= Snake@.len(),
            forall|i: int| 0 <= i < Index ==> Snake@[i] != Position,
        decreases Snake@.len() - Index,
    {
        if Snake[Index] == Position {
            return true;
        }
        Index = Index + 1;
    }
    false
}

/// The cell next to `Position` in `Direction`; moving up or left from the first row or
/// column stays there.
pub fn NextPosition(Position: Position, Direction: Direction) -> (p: Position)
    requires
        Direction == Direction::Down ==> Position.Row < usize::MAX,
        Direction == Direction::Right ==> Position.Col < usize::MAX,
    ensures
        p == next_position(Position, Direction),
{
    match Direction {
        Direction::Up => Position { Row: Position.Row.saturating_sub(1), Col: Position.Col },
        Direction::Down => Position { Row: Position.Row + 1, Col: Position.Col },
        Direction::Left => Position { Row: Position.Row, Col: Position.Col.saturating_sub(1) },
        Direction::Right => Position { Row: Position.Row, Col: Position.Col + 1 },
    }
}

pub open spec fn next_position(p: Position, d: Direction) -> Position {
    match d {
        Direction::Up => Position { Row: if p.Row == 0 { 0 } else { (p.Row - 1) as usize }, Col: p.Col },
        Direction::Down => Position { Row: (p.Row + 1) as usize, Col: p.Col },
        Direction::Left => Position { Row: p.Row, Col: if p.Col == 0 { 0 } else { (p.Col - 1) as usize } },
        Direction::Right => Position { Row: p.Row, Col: (p.Col + 1) as usize },
    }
}

/// Whether `Position` is on the border or outside it.
pub fn IsBoundary(Position: Position) -> (b: bool)
    ensures
        b == !interior(Position),
{
    Position.Row == 0 || Position.Row >= ROWS - 1 || Position.Col == 0 || Position.Col >= COLS - 1
}

proof fn lemma_free_count_bound(snake: Seq<Position>, k: int)
    requires
        k >= 0,
    ensures
        free_count(snake, k) <= k,
    decreases k,
{
    if k > 0 {
        lemma_free_count_bound(snake, k - 1);
    }
}

proof fn lemma_interior_cell(k: int)
    requires
        0 <= k < 1794,
    ensures
        interior(interior_cell(k)),
{
}

/// Moves the food to a free cell chosen by the next value of the seed; returns false, and
/// changes nothing, when the snake covers every cell.
pub fn PlaceFood(Game: &mut SnakeState) -> (placed: bool)
    ensures
        final(Game).Snake == old(Game).Snake,
        final(Game).Direction == old(Game).Direction,
        final(Game).LastMoveTick == old(Game).LastMoveTick,
        final(Game).IsGameOver == old(Game).IsGameOver,
        placed == (free_count(old(Game).Snake@, 1794) > 0),
        !placed ==> final(Game).Seed == old(Game).Seed && final(Game).Food == old(Game).Food,
        placed ==> final(Game).Seed == next_food_seed(old(Game).Seed)
            && food_at(old(Game).Snake@, final(Game).Seed, final(Game).Food)
            && interior(final(Game).Food)
            && !old(Game).Snake@.contains(final(Game).Food),
{
    let mut AvailableCount: usize = 0;
    let mut Index: usize = 0;
    while Index < InteriorCells
        invariant
            Index <= 1794,
            AvailableCount == free_count(Game.Snake@, Index as int),
        decreases 1794 - Index,
    {
        proof {
            lemma_free_count_bound(Game.Snake@, Index as int);
        }
        let Position = Position { Row: 1 + Index / 78, Col: 1 + Index % 78 };
        assert(Position == interior_cell(Index as int));
        if !SnakeContains(&Game.Snake, Position) {
            AvailableCount = AvailableCount + 1;
        }
        Index = Index + 1;
    }

    if AvailableCount == 0 {
        return false;
    }

    Game.Seed = Game.Seed.wrapping_mul(1664525).wrapping_add(1013904223);
    let TargetIndex = Game.Seed % AvailableCount;
    let mut CurrentIndex: usize = 0;
    let mut Index: usize = 0;
    while Index < InteriorCells
        invariant
            Index <= 1794,
            AvailableCount == free_count(Game.Snake@, 1794),
            AvailableCount > 0,
            TargetIndex == Game.Seed % AvailableCount,
            TargetIndex < AvailableCount,
            CurrentIndex == free_count(Game.Snake@, Index as int),
            CurrentIndex <= TargetIndex,
            Game.Snake == old(Game).Snake,
            Game.Direction == old(Game).Direction,
            Game.LastMoveTick == old(Game).LastMoveTick,
            Game.IsGameOver == old(Game).IsGameOver,
            Game.Seed == next_food_seed(old(Game).Seed),
        decreases 1794 - Index,
    {
        let Position = Position { Row: 1 + Index / 78, Col: 1 + Index % 78 };
        assert(Position == interior_cell(Index as int));
        if !SnakeContains(&Game.Snake, Position) {
            if CurrentIndex == TargetIndex {
                Game.Food = Position;
                proof {
                    lemma_interior_cell(Index as int);
                    assert(food_at(old(Game).Snake@, Game.Seed, Game.Food));
                }
                return true;
            }
            CurrentIndex = CurrentIndex + 1;
        }
        Index = Index + 1;
    }
    proof {
        assert(false);
    }
    false
}

/// The heading after key `c`: WASD (either case) turn, but never straight back.
pub open spec fn turned(d: Direction, c: char) -> Direction {
    if (c == 'w' || c == 'W') && d != Direction::Down {
        Direction::Up
    } else if (c == 'a' || c == 'A') && d != Direction::Right {
        Direction::Left
    } else if (c == 's' || c == 'S') && d != Direction::Up {
        Direction::Down
    } else if (c == 'd' || c == 'D') && d != Direction::Left {
        Direction::Right
    } else {
        d
    }
}

/// The seed after a key press: mixed with the tick and the character.
pub open spec fn key_seed(seed: usize, tick: u64, c: char) -> usize {
    seed.wrapping_mul(1103515245usize).wrapping_add(tick as usize).wrapping_add(c as u32 as usize)
}

/// Takes a key: stirs the seed, turns on W, A, S, D (not straight back) and returns whether
/// the key asks to quit (Q).
pub fn HandleKey(Game: &mut SnakeState, Character: char, CurrentTick: u64) -> (quit: bool)
    ensures
        old(Game).wf() ==> final(Game).wf(),
        final(Game).Seed == key_seed(old(Game).Seed, CurrentTick, Character),
        final(Game).Direction == turned(old(Game).Direction, Character),
        final(Game).Snake == old(Game).Snake,
        final(Game).Food == old(Game).Food,
        final(Game).LastMoveTick == old(Game).LastMoveTick,
        final(Game).IsGameOver == old(Game).IsGameOver,
        quit == (Character == 'q' || Character == 'Q'),
{
    let Tick: usize = #[verifier::truncate] (CurrentTick as usize);
    let Code: usize = Character as u32 as usize;
    Game.Seed = Game.Seed.wrapping_mul(1103515245).wrapping_add(Tick).wrapping_add(Code);
    match Character {
        'w' | 'W' => {
            if Game.Direction != Direction::Down {
                Game.Direction = Direction::Up;
            }
            false
        },
        'a' | 'A' => {
            if Game.Direction != Direction::Right {
                Game.Direction = Direction::Left;
            }
            false
        },
        's' | 'S' => {
            if Game.Direction != Direction::Up {
                Game.Direction = Direction::Down;
            }
            false
        },
        'd' | 'D' => {
            if Game.Direction != Direction::Left {
                Game.Direction = Direction::Right;
            }
            false
        },
        'q' | 'Q' => true,
        _ => false,
    }
}

/// The character of the border at (`r`, `c`), if the cell is on it.
pub open spec fn border_byte(r: int, c: int) -> Option<u8> {
    if r == 0 && c == 0 {
        Some(TopLeft)
    } else if r == 0 && c == 79 {
        Some(TopRight)
    } else if r == 24 && c == 0 {
        Some(BottomLeft)
    } else if r == 24 && c == 79 {
        Some(BottomRight)
    } else if (r == 0 || r == 24) && 0 < c < 79 {
        Some(Horizontal)
    } else if (c == 0 || c == 79) && 0 < r < 24 {
        Some(Vertical)
    } else {
        None
    }
}

/// `cells` with the border drawn in white on black.
pub open spec fn bordered(cells: Seq<u8>) -> Seq<u8> {
    Seq::new(
        cells.len(),
        |k: int|
            match border_byte(k / 160, (k % 160) / 2) {
                Some(b) => if k % 2 == 0 { b } else { COLOR },
                None => cells[k],
            },
    )
}

/// Draws the border around the screen.
pub fn DrawBorder(Writer: &Writer, Screen: &mut Screen)
    requires
        old(Screen).wf(),
    ensures
        final(Screen).wf(),
        final(Screen).Cells@ == bordered(old(Screen).Cells@),
{
    let ghost start = Screen.Cells@;
    WriteByteAt(Writer, Screen, 0, 0, TopLeft);
    WriteByteAt(Writer, Screen, 0, COLS - 1, TopRight);
    WriteByteAt(Writer, Screen, ROWS - 1, 0, BottomLeft);
    WriteByteAt(Writer, Screen, ROWS - 1, COLS - 1, BottomRight);
    let mut ColIndex: usize = 1;
    while ColIndex < COLS - 1
        invariant
            Screen.wf(),
            1 <= ColIndex <= 79,
            start.len() == 4000,
            forall|k: int|
                0 <= k < 4000 ==> #[trigger] Screen.Cells@[k] == match border_byte(k / 160, (k % 160) / 2) {
                    Some(b) => if (k / 160 == 0 || k / 160 == 24) && ((k % 160) / 2 == 0 || (k % 160) / 2 == 79
                        || (k % 160) / 2 < ColIndex) {
                        if k % 2 == 0 { b } else { COLOR }
                    } else {
                        start[k]
                    },
                    None => start[k],
                },
        decreases 79 - ColIndex,
    {
        WriteByteAt(Writer, Screen, 0, ColIndex, Horizontal);
        WriteByteAt(Writer, Screen, ROWS - 1, ColIndex, Horizontal);
        ColIndex = ColIndex + 1;
    }
    let mut RowIndex: usize = 1;
    while RowIndex < ROWS - 1
        invariant
            Screen.wf(),
            1 <= RowIndex <= 24,
            start.len() == 4000,
            forall|k: int|
                0 <= k < 4000 ==> #[trigger] Screen.Cells@[k] == match border_byte(k / 160, (k % 160) / 2) {
                    Some(b) => if k / 160 == 0 || k / 160 == 24 || k / 160 < RowIndex {
                        if k % 2 == 0 { b } else { COLOR }
                    } else {
                        start[k]
                    },
                    None => start[k],
                },
        decreases 24 - RowIndex,
    {
        WriteByteAt(Writer, Screen, RowIndex, 0, Vertical);
        WriteByteAt(Writer, Screen, RowIndex, COLS - 1, Vertical);
        RowIndex = RowIndex + 1;
    }
    assert(Screen.Cells@ =~= bordered(start));
}

/// `m` with cell `p` drawn as `byte` in white on black.
pub open spec fn draw_model(m: Console, p: Position, byte: u8) -> Console {
    Console { cells: put_cell(m.cells, p.Row as int, p.Col as int, byte, COLOR), ..m }
}

/// Draws `Byte` at `Position`.
pub fn DrawPosition(Writer: &Writer, Screen: &mut Screen, Position: Position, Byte: u8)
    requires
        old(Screen).wf(),
        Position.Row < ROWS,
        Position.Col < COLS,
    ensures
        final(Screen).wf(),
        final(Screen).Cells@ == put_cell(old(Screen).Cells@, Position.Row as int, Position.Col as int, Byte, COLOR),
{
    WriteByteAt(Writer, Screen, Position.Row, Position.Col, Byte);
}

/// The screen at the start of a game.
pub open spec fn init_model(m: Console) -> Console {
    let m1 = Console { row: 0, col: 0, cells: bordered(blank_cells(m.color)), ..m };
    let m2 = draw_model(m1, Position { Row: 12, Col: 40 }, SnakeBlock);
    let m3 = draw_model(m2, Position { Row: 7, Col: 20 }, FoodBlock);
    write_at_model(write_at_model(m3, 0, 3, TITLE.spec_bytes()), 24, 3, HELP.spec_bytes())
}

/// Starts a new game: clears the screen, draws the border, the snake, the food, the title
/// and the help line.
pub fn Init(Game: &mut SnakeState, Writer: &mut Writer, Screen: &mut Screen)
    requires
        old(Writer).wf(),
        old(Screen).wf(),
    ensures
        final(Game).wf(),
        final(Game).Snake@ == seq![Position { Row: 12, Col: 40 }],
        final(Game).Food == (Position { Row: 7, Col: 20 }),
        final(Game).Direction == Direction::Right,
        final(Game).LastMoveTick == 0,
        final(Game).Seed == 371,
        !final(Game).IsGameOver,
        final(Writer).wf(),
        final(Screen).wf(),
        final(Writer).model(final(Screen)) == init_model(old(Writer).model(old(Screen))),
{
    ClearScreen(Writer, Screen);
    DrawBorder(Writer, Screen);
    *Game = SnakeState::New();
    let ghost m1 = Writer.model(Screen);
    let mut Index: usize = 0;
    while Index < Game.Snake.len()
        invariant
            Game.wf(),
            Game.Snake@ == seq![Position { Row: 12, Col: 40 }],
            Game.Food == (Position { Row: 7, Col: 20 }),
            Writer.wf(),
            Screen.wf(),
            Index <= 1,
            Index == 0 ==> Writer.model(Screen) == m1,
            Index == 1 ==> Writer.model(Screen) == draw_model(m1, Position { Row: 12, Col: 40 }, SnakeBlock),
        decreases 1 - Index,
    {
        let Position = Game.Snake[Index];
        DrawPosition(Writer, Screen, Position, SnakeBlock);
        Index = Index + 1;
    }
    DrawPosition(Writer, Screen, Game.Food, FoodBlock);
    WriteAt(Writer, Screen, 0, 3, TITLE);
    WriteAt(Writer, Screen, 24, 3, HELP);
}

/// How a step of the game ended.
#[derive(Clone, Copy, Debug, PartialEq, Eq, Structural)]
pub enum UpdateOutcome {
    /// The game goes on (or nothing happened).
    Continue,
    /// The snake covers every cell: the game is won.
    Victory,
    /// The snake hit the border or itself: the game is lost.
    Failure,
}

/// Ticks from `last` to `now`, none when `now` is earlier.
pub open spec fn ticks_since(last: u64, now: u64) -> int {
    if now >= last { now - last } else { 0 }
}

/// The body after a step before the head moves on: the same when the food is eaten,
/// otherwise without its tail.
pub open spec fn step_body(s: Seq<Position>, ate: bool) -> Seq<Position> {
    if ate { s } else { s.drop_first() }
}

/// What a step does to the game and the screen when it is due (`outcome` is what it
/// returns).
pub open spec fn step_post(before: SnakeState, after: SnakeState, m: Console, m_after: Console, outcome: UpdateOutcome) -> bool {
    let s = before.Snake@;
    let nh = next_position(s.last(), before.Direction);
    let lost = write_at_model(m, 12, 34, GAME_OVER.spec_bytes());
    if !interior(nh) {
        &&& after.Snake@ == s && after.Food == before.Food && after.Seed == before.Seed
        &&& after.IsGameOver && outcome == UpdateOutcome::Failure && m_after == lost
    } else {
        let ate = nh == before.Food;
        let body = step_body(s, ate);
        if body.contains(nh) {
            &&& after.Snake@ == body && after.Food == before.Food && after.Seed == before.Seed
            &&& after.IsGameOver && outcome == UpdateOutcome::Failure && m_after == lost
        } else {
            let grown = body.push(nh);
            let m1 = draw_model(m, nh, SnakeBlock);
            let m2 = if ate { m1 } else { draw_model(m1, s[0], Empty) };
            &&& after.Snake@ == grown
            &&& if !ate {
                &&& after.Food == before.Food && after.Seed == before.Seed
                &&& !after.IsGameOver && outcome == UpdateOutcome::Continue && m_after == m2
            } else if free_count(grown, 1794) == 0 {
                &&& after.Food == before.Food && after.Seed == before.Seed
                &&& after.IsGameOver && outcome == UpdateOutcome::Victory
                &&& m_after == write_at_model(m2, 12, 34, YOU_WIN.spec_bytes())
            } else {
                &&& after.Seed == next_food_seed(before.Seed)
                &&& food_at(grown, after.Seed, after.Food)
                &&& !after.IsGameOver && outcome == UpdateOutcome::Continue
                &&& m_after == draw_model(m2, after.Food, FoodBlock)
            }
        }
    }
}

/// One step of the game, at most every `MoveTicks` ticks: the head moves on in its
/// direction; hitting the border or the body loses, eating the food grows the snake and
/// places new food, or wins when no cell is left. Draws the changes and the end message.
pub fn Update(Game: &mut SnakeState, Writer: &mut Writer, Screen: &mut Screen, CurrentTick: u64) -> (outcome: UpdateOutcome)
    requires
        old(Game).wf(),
        old(Writer).wf(),
        old(Screen).wf(),
    ensures
        final(Game).wf(),
        final(Writer).wf(),
        final(Screen).wf(),
        old(Game).IsGameOver || ticks_since(old(Game).LastMoveTick, CurrentTick) < 4 ==> {
            &&& *final(Game) == *old(Game)
            &&& final(Writer).model(final(Screen)) == old(Writer).model(old(Screen))
            &&& outcome == UpdateOutcome::Continue
        },
        !old(Game).IsGameOver && ticks_since(old(Game).LastMoveTick, CurrentTick) >= 4 ==> {
            &&& final(Game).LastMoveTick == CurrentTick
            &&& final(Game).Direction == old(Game).Direction
            &&& step_post(*old(Game), *final(Game), old(Writer).model(old(Screen)), final(Writer).model(final(Screen)), outcome)
        },
{
    if Game.IsGameOver {
        return UpdateOutcome::Continue;
    }
    if CurrentTick.saturating_sub(Game.LastMoveTick) < MoveTicks {
        return UpdateOutcome::Continue;
    }
    Game.LastMoveTick = CurrentTick;

    let ghost s = Game.Snake@;
    let Length = Game.Snake.len();
    let Head = Game.Snake[Length - 1];
    let NewHead = NextPosition(Head, Game.Direction);

    let mut Outcome = UpdateOutcome::Continue;
    if IsBoundary(NewHead) {
        Game.IsGameOver = true;
        Outcome = UpdateOutcome::Failure;
    } else {
        let AteFood = NewHead == Game.Food;
        let mut RemovedTail: Option<Position> = None;
        if !AteFood {
            RemovedTail = Game.Snake.pop_front();
            assert(Game.Snake@ =~= s.drop_first());
        }
        proof {
            let b = Game.Snake@;
            assert forall|i: int, j: int| 0 <= i && j == i + 1 && j < b.len() implies touching(#[trigger] b[i], #[trigger] b[j]) by {
                if !AteFood {
                    assert(b[i] == s[i + 1] && b[j] == s[j + 1]);
                }
            }
            assert(b.len() > 0 ==> b.last() == Head) by {
                if b.len() > 0 && !AteFood {
                    assert(b[b.len() - 1] == s[s.len() - 1]);
                }
            }
            assert(interior(s[s.len() - 1]));
            assert(touching(Head, NewHead));
        }
        if SnakeContains(&Game.Snake, NewHead) {
            Game.IsGameOver = true;
            Outcome = UpdateOutcome::Failure;
            proof {
                assert forall|i: int| 0 <= i < Game.Snake@.len() implies interior(#[trigger] Game.Snake@[i]) by {
                    if !AteFood {
                        assert(Game.Snake@[i] == s[i + 1]);
                    }
                }
            }
        } else {
            let ghost body = Game.Snake@;
            Game.Snake.push_back(NewHead);
            proof {
                let g = Game.Snake@;
                assert forall|i: int, j: int| 0 <= i && j == i + 1 && j < g.len() implies touching(#[trigger] g[i], #[trigger] g[j]) by {
                    assert(g[i] == body[i]);
                    if j < g.len() - 1 {
                        assert(g[j] == body[j]);
                    } else {
                        assert(body[body.len() - 1] == body.last());
                    }
                }
            }
            DrawPosition(Writer, Screen, NewHead, SnakeBlock);
            match RemovedTail {
                Some(Tail) => {
                    DrawPosition(Writer, Screen, Tail, Empty);
                },
                None => {},
            }
            proof {
                assert forall|i: int| 0 <= i < Game.Snake@.len() implies interior(#[trigger] Game.Snake@[i]) by {
                    if i < Game.Snake@.len() - 1 {
                        assert(Game.Snake@[i] == body[i]);
                        if !AteFood {
                            assert(body[i] == s[i + 1]);
                        }
                    }
                }
                assert(Game.Snake@.no_duplicates()) by {
                    assert forall|i: int, j: int| 0 <= i < j < Game.Snake@.len() implies Game.Snake@[i] != Game.Snake@[j] by {
                        if j == Game.Snake@.len() - 1 {
                            assert(body.contains(body[i]));
                        } else if !AteFood {
                            assert(Game.Snake@[i] == s[i + 1] && Game.Snake@[j] == s[j + 1]);
                        }
                    }
                }
                if !AteFood {
                    assert(!Game.Snake@.contains(Game.Food)) by {
                        if Game.Snake@.contains(Game.Food) {
                            let i = choose|i: int| 0 <= i < Game.Snake@.len() && Game.Snake@[i] == Game.Food;
                            if i < Game.Snake@.len() - 1 {
                                assert(s[i + 1] == Game.Food);
                                assert(s.contains(Game.Food));
                            }
                        }
                    }
                }
            }
            if AteFood {
                if PlaceFood(Game) {
                    DrawPosition(Writer, Screen, Game.Food, FoodBlock);
                } else {
                    Game.IsGameOver = true;
                    Outcome = UpdateOutcome::Victory;
                }
            }
        }
    }

    match Outcome {
        UpdateOutcome::Victory => {
            WriteAt(Writer, Screen, 12, 34, YOU_WIN);
        },
        UpdateOutcome::Failure => {
            WriteAt(Writer, Screen, 12, 34, GAME_OVER);
        },
        UpdateOutcome::Continue => {},
    }
    Outcome
}

/// The heading straight back from `d`.
pub open spec fn opposite(d: Direction) -> Direction {
    match d {
        Direction::Up => Direction::Down,
        Direction::Down => Direction::Up,
        Direction::Left => Direction::Right,
        Direction::Right => Direction::Left,
    }
}

/// No key turns the snake straight back.
pub proof fn law_never_reverses(d: Direction, c: char)
    ensures
        turned(d, c) != opposite(d),
{
}

/// A step that goes on keeps the snake's length when no food is eaten and adds one cell
/// when it is; the head is the new cell.
pub proof fn law_length_step(before: SnakeState, after: SnakeState, m: Console, m_after: Console, outcome: UpdateOutcome)
    requires
        before.wf(),
        !before.IsGameOver,
        step_post(before, after, m, m_after, outcome),
        outcome == UpdateOutcome::Continue,
    ensures
        ({
            let nh = next_position(before.Snake@.last(), before.Direction);
            &&& after.Snake@.last() == nh
            &&& after.Snake@.len() == before.Snake@.len() + if nh == before.Food { 1int } else { 0int }
        }),
{
}

/// Each heading moves the head by its own unit step from any cell inside the border: up one
/// row, down one row, left one column or right one column; so the four headings lead to four
/// different cells, each touching the head.
pub proof fn law_heading_moves_one_cell(p: Position)
    requires
        interior(p),
    ensures
        next_position(p, Direction::Up).Row == p.Row - 1 && next_position(p, Direction::Up).Col == p.Col,
        next_position(p, Direction::Down).Row == p.Row + 1 && next_position(p, Direction::Down).Col == p.Col,
        next_position(p, Direction::Left).Row == p.Row && next_position(p, Direction::Left).Col == p.Col - 1,
        next_position(p, Direction::Right).Row == p.Row && next_position(p, Direction::Right).Col == p.Col + 1,
        forall|d: Direction| touching(p, #[trigger] next_position(p, d)),
{
}

/// W, A, S and D (either case) head up, left, down and right, unless that is straight back;
/// every other key keeps the heading.
pub proof fn law_wasd_steer(d: Direction, c: char)
    ensures
        (c == 'w' || c == 'W') ==> turned(d, c) == (if d == Direction::Down { d } else { Direction::Up }),
        (c == 'a' || c == 'A') ==> turned(d, c) == (if d == Direction::Right { d } else { Direction::Left }),
        (c == 's' || c == 'S') ==> turned(d, c) == (if d == Direction::Up { d } else { Direction::Down }),
        (c == 'd' || c == 'D') ==> turned(d, c) == (if d == Direction::Left { d } else { Direction::Right }),
        !(c == 'w' || c == 'W' || c == 'a' || c == 'A' || c == 's' || c == 'S' || c == 'd' || c == 'D')
            ==> turned(d, c) == d,
{
}

/// How a due step ends: it loses exactly when the new head leaves the inside of the border
/// or runs into a cell of the body that stays (the tail moves away unless the food is
/// eaten); otherwise the head moves there, and the game ends only when the snake has grown
/// over every free cell, which wins.
pub proof fn law_step_outcome(before: SnakeState, after: SnakeState, m: Console, m_after: Console, outcome: UpdateOutcome)
    requires
        before.wf(),
        !before.IsGameOver,
        step_post(before, after, m, m_after, outcome),
    ensures
        ({
            let s = before.Snake@;
            let nh = next_position(s.last(), before.Direction);
            let keep_from = if nh == before.Food { 0int } else { 1int };
            let hits = !interior(nh) || exists|i: int| keep_from <= i < s.len() && #[trigger] s[i] == nh;
            &&& (outcome == UpdateOutcome::Failure) == hits
            &&& after.IsGameOver == (outcome != UpdateOutcome::Continue)
            &&& !hits ==> after.Snake@.last() == nh && after.Snake@.len() == s.len() + 1 - keep_from
            &&& outcome == UpdateOutcome::Victory ==> nh == before.Food
                && forall|k: int| 0 <= k < 1794 ==> after.Snake@.contains(#[trigger] interior_cell(k))
        }),
{
    let s = before.Snake@;
    let nh = next_position(s.last(), before.Direction);
    let ate = nh == before.Food;
    let keep_from = if ate { 0int } else { 1int };
    let body = step_body(s, ate);
    if interior(nh) {
        assert(body.contains(nh) == exists|i: int| keep_from <= i < s.len() && #[trigger] s[i] == nh) by {
            if body.contains(nh) {
                let j = choose|j: int| 0 <= j < body.len() && body[j] == nh;
                assert(s[j + keep_from] == nh);
            }
            if exists|i: int| keep_from <= i < s.len() && #[trigger] s[i] == nh {
                let i = choose|i: int| keep_from <= i < s.len() && #[trigger] s[i] == nh;
                assert(body[i - keep_from] == nh);
            }
        }
        if outcome == UpdateOutcome::Victory {
            let g = body.push(nh);
            assert forall|k: int| 0 <= k < 1794 implies g.contains(#[trigger] interior_cell(k)) by {
                lemma_free_count_full(g, k);
            }
        }
    }
}

proof fn lemma_free_count_full(snake: Seq<Position>, k: int)
    requires
        0 <= k < 1794,
        free_count(snake, 1794) == 0,
    ensures
        snake.contains(interior_cell(k)),
{
    lemma_free_count_mono(snake, k + 1, 1794);
}

proof fn lemma_free_count_mono(snake: Seq<Position>, a: int, b: int)
    requires
        0 <= a <= b,
    ensures
        free_count(snake, a) <= free_count(snake, b),
    decreases b - a,
{
    if a < b {
        lemma_free_count_mono(snake, a, b - 1);
    }
}

} // verus!
