//! Snake: steer a growing snake around a 40x28 grid to eat food; running
//! into the wall or into itself ends the game.
use vstd::prelude::*;
use crate::sdk::{
    Button,
    GuestMemory,
    as_i32,
    button_pressed,
    clear,
    cleared,
    fb_index,
    in_framebuffer,
    lemma_fb_coords,
    lemma_fb_injective,
    lemma_paint_by_pixels,
    on_screen,
    paint,
    palette_entry,
    pixel,
    rect,
    rect_fill,
    rect_filled,
    rect_outline,
    set_palette,
    uniform,
    current_of,
    held,
    previous_of,
    text,
    text_at,
    text_drawn,
    xorshift32,
    xorshift_next,
};
use vstd::string::StringSliceAdditionalSpecFns;
use vstd::set_lib::{lemma_int_range, lemma_len_subset, set_int_range};

verus! {

pub const GRID_W: i32 = 40;
pub const GRID_H: i32 = 28;
pub const GRID_Y_OFFSET: i32 = 2;
pub const CELL: i32 = 8;
pub const MAX_SNAKE: usize = 512;
pub const MOVE_INTERVAL: u32 = 8;

pub const COL_BG: u8 = 0;
pub const COL_TEXT: u8 = 1;
pub const COL_SNAKE_HEAD: u8 = 2;
pub const COL_SNAKE_BODY: u8 = 10;
pub const COL_FOOD: u8 = 4;
pub const COL_BORDER: u8 = 9;
pub const COL_GAMEOVER: u8 = 5;

/// How many random cells food placement tries before it takes the first
/// free cell in reading order. The xorshift generator runs through each
/// nonzero state once in every 2^32 - 1 steps (and stays at 0 from 0), and a
/// try takes two steps, so the tries repeat after at most 2^32 - 1 of them:
/// a cell that any try would reach is reached within this many.
pub const FOOD_TRIES: u64 = 0x1_0000_0000;

/// A cell of the grid.
#[derive(Clone, Copy, Debug, PartialEq, Eq, Structural)]
pub struct Pos {
    pub x: i32,
    pub y: i32,
}

/// A direction of travel.
#[derive(Clone, Copy, Debug, PartialEq, Eq, Structural)]
pub enum Dir {
    Up,
    Down,
    Left,
    Right,
}

/// The column step of a direction.
pub open spec fn dir_dx(d: Dir) -> int {
    match d {
        Dir::Left => -1,
        Dir::Right => 1,
        _ => 0,
    }
}

/// The row step of a direction.
pub open spec fn dir_dy(d: Dir) -> int {
    match d {
        Dir::Up => -1,
        Dir::Down => 1,
        _ => 0,
    }
}

impl Dir {
    /// The column step.
    pub fn dx(self) -> (r: i32)
        ensures
            r == dir_dx(self),
    {
        match self {
            Dir::Left => -1,
            Dir::Right => 1,
            _ => 0,
        }
    }

    /// The row step.
    pub fn dy(self) -> (r: i32)
        ensures
            r == dir_dy(self),
    {
        match self {
            Dir::Up => -1,
            Dir::Down => 1,
            _ => 0,
        }
    }
}

/// The screen the game is on.
#[derive(Clone, Copy, Debug, PartialEq, Eq, Structural)]
pub enum State {
    Title,
    Playing,
    GameOver,
}

/// Whether `p` is a cell of the grid.
pub open spec fn in_grid(p: Pos) -> bool {
    0 <= p.x < GRID_W && 0 <= p.y < GRID_H
}

/// The cell with number `k` in reading order.
pub open spec fn cell(k: int) -> Pos {
    Pos { x: (k % 40) as i32, y: (k / 40) as i32 }
}

/// A cell drawn from the generator: column from the first number, row from
/// the second; with the state after both.
pub open spec fn draw_cell(rng: u32) -> (Pos, u32) {
    let a = xorshift_next(rng);
    let b = xorshift_next(a);
    (Pos { x: (a % 40) as i32, y: (b % 28) as i32 }, b)
}

/// Drawing cells until one is off the snake, at most `tries` times: the
/// cell found, if any, and the generator's state after.
pub open spec fn food_search(rng: u32, snake: Seq<Pos>, tries: nat) -> (Option<Pos>, u32)
    decreases tries,
{
    if tries == 0 {
        (None, rng)
    } else {
        let (p, r) = draw_cell(rng);
        if !snake.contains(p) {
            (Some(p), r)
        } else {
            food_search(r, snake, (tries - 1) as nat)
        }
    }
}

/// The first cell at or after number `k`, in reading order, that is off
/// the snake.
pub open spec fn first_free_from(snake: Seq<Pos>, k: int) -> Pos
    decreases 1120 - k,
{
    if k >= 1120 || k < 0 {
        Pos { x: 0, y: 0 }
    } else if !snake.contains(cell(k)) {
        cell(k)
    } else {
        first_free_from(snake, k + 1)
    }
}

/// Where food goes: the first random cell off the snake, or, if none turns
/// up in `FOOD_TRIES` tries, the first free cell in reading order.
pub open spec fn place_food(rng: u32, snake: Seq<Pos>) -> (Pos, u32) {
    let (found, r) = food_search(rng, snake, FOOD_TRIES as nat);
    match found {
        Some(p) => (p, r),
        None => (first_free_from(snake, 0), r),
    }
}

/// The game, as values.
pub struct SnakeView {
    pub snake: Seq<Pos>,
    pub dir: Dir,
    pub next_dir: Dir,
    pub food: Pos,
    pub score: u32,
    pub high_score: u32,
    pub state: State,
    pub move_timer: u32,
    pub rng: u32,
}

/// The game after the snake runs into something.
pub open spec fn died(g: SnakeView) -> SnakeView {
    SnakeView {
        state: State::GameOver,
        high_score: if g.score > g.high_score {
            g.score
        } else {
            g.high_score
        },
        ..g
    }
}

/// The snake after its head moves to `head`, eating or not.
pub open spec fn moved_body(snake: Seq<Pos>, head: Pos, ate: bool) -> Seq<Pos> {
    if ate {
        if snake.len() < MAX_SNAKE {
            seq![head] + snake
        } else {
            snake.update(0, head)
        }
    } else {
        seq![head] + snake.drop_last()
    }
}

/// One move of the snake in its direction: into a wall or into itself ends
/// the game; onto food it grows (up to `MAX_SNAKE`), scores 10 and new food
/// is placed.
pub open spec fn stepped(g: SnakeView) -> SnakeView {
    let head = g.snake[0];
    let nh = Pos { x: (head.x + dir_dx(g.dir)) as i32, y: (head.y + dir_dy(g.dir)) as i32 };
    if !in_grid(nh) || g.snake.contains(nh) {
        died(g)
    } else {
        let ate = nh == g.food;
        let body = moved_body(g.snake, nh, ate);
        if ate {
            let score = ((g.score + 10) % 0x1_0000_0000) as u32;
            let high = if score > g.high_score {
                score
            } else {
                g.high_score
            };
            let (food, rng) = place_food(g.rng, body);
            SnakeView { snake: body, score, high_score: high, food, rng, ..g }
        } else {
            SnakeView { snake: body, ..g }
        }
    }
}

/// A new round: a three-cell snake in the middle heading right, no score,
/// the generator seeded from the frame count, and food placed.
pub open spec fn reset_game(g: SnakeView, frame: u32) -> SnakeView {
    let snake = seq![Pos { x: 20, y: 14 }, Pos { x: 19, y: 14 }, Pos { x: 18, y: 14 }];
    let seed = ((frame + 12345) % 0x1_0000_0000) as u32;
    let (food, rng) = place_food(seed, snake);
    SnakeView {
        snake,
        dir: Dir::Right,
        next_dir: Dir::Right,
        score: 0,
        move_timer: 0,
        food,
        rng,
        ..g
    }
}

/// The direction asked for this frame: the first of up, down, left, right
/// pressed that does not reverse the snake.
pub open spec fn steer(g: SnakeView, m: Seq<u8>) -> Dir {
    let pressed = |b: Button| held(current_of(m), b) && !held(previous_of(m), b);
    if pressed(Button::Up) && g.dir != Dir::Down {
        Dir::Up
    } else if pressed(Button::Down) && g.dir != Dir::Up {
        Dir::Down
    } else if pressed(Button::Left) && g.dir != Dir::Right {
        Dir::Left
    } else if pressed(Button::Right) && g.dir != Dir::Left {
        Dir::Right
    } else {
        g.next_dir
    }
}

/// One frame of the game with input memory `m`: Start or A begins a round
/// from the title or game-over screen; while playing, the snake moves every
/// `MOVE_INTERVAL` frames.
pub open spec fn updated(g: SnakeView, m: Seq<u8>, frame: u32) -> SnakeView {
    let pressed = |b: Button| held(current_of(m), b) && !held(previous_of(m), b);
    match g.state {
        State::Playing => {
            let g1 = SnakeView { next_dir: steer(g, m), move_timer: (g.move_timer + 1) as u32, ..g };
            if g1.move_timer >= MOVE_INTERVAL {
                stepped(SnakeView { move_timer: 0, dir: g1.next_dir, ..g1 })
            } else {
                g1
            }
        },
        _ => if pressed(Button::Start) || pressed(Button::A) {
            reset_game(SnakeView { state: State::Playing, ..g }, frame)
        } else {
            g
        },
    }
}

/// A snake game.
pub struct SnakeGame {
    snake: Vec<Pos>,
    dir: Dir,
    next_dir: Dir,
    food: Pos,
    score: u32,
    high_score: u32,
    state: State,
    move_timer: u32,
    rng: u32,
}

impl View for SnakeGame {
    type V = SnakeView;

    closed spec fn view(&self) -> SnakeView {
        SnakeView {
            snake: self.snake@,
            dir: self.dir,
            next_dir: self.next_dir,
            food: self.food,
            score: self.score,
            high_score: self.high_score,
            state: self.state,
            move_timer: self.move_timer,
            rng: self.rng,
        }
    }
}

/// What holds of every game: the snake fits the board and never overlaps
/// itself, food is never under it, the move timer stays below the interval
/// and the high score is never below the score.
pub open spec fn well_formed(g: SnakeView) -> bool {
    &&& g.snake.len() <= MAX_SNAKE
    &&& g.move_timer < MOVE_INTERVAL
    &&& g.high_score >= g.score
    &&& g.snake.no_duplicates()
    &&& forall|i: int| 0 <= i < g.snake.len() ==> in_grid(#[trigger] g.snake[i])
    &&& g.state != State::Title ==> {
        &&& g.snake.len() >= 3
        &&& in_grid(g.food)
        &&& !g.snake.contains(g.food)
    }
}

/// There is a free cell while the snake is shorter than the board.
proof fn lemma_free_cell_exists(snake: Seq<Pos>)
    requires
        snake.len() <= MAX_SNAKE,
    ensures
        exists|k: int| 0 <= k < 1120 && !snake.contains(#[trigger] cell(k)),
{
    if forall|k: int| 0 <= k < 1120 ==> snake.contains(#[trigger] cell(k)) {
        let codes = snake.map_values(|p: Pos| p.y * 40 + p.x);
        assert forall|k: int| #[trigger] set_int_range(0, 1120).contains(k) implies codes.to_set().contains(k) by {
            assert(snake.contains(cell(k)));
            let j = choose|j: int| 0 <= j < snake.len() && snake[j] == cell(k);
            assert(codes[j] == k);
        }
        lemma_int_range(0, 1120);
        codes.lemma_cardinality_of_set();
        assert(set_int_range(0, 1120).subset_of(codes.to_set()));
        vstd::seq_lib::seq_to_set_is_finite(codes);
        lemma_len_subset(set_int_range(0, 1120), codes.to_set());
        assert(false);
    }
}

proof fn lemma_first_free(snake: Seq<Pos>, k: int)
    requires
        0 <= k <= 1120,
        exists|j: int| k <= j < 1120 && !snake.contains(#[trigger] cell(j)),
    ensures
        in_grid(first_free_from(snake, k)),
        !snake.contains(first_free_from(snake, k)),
    decreases 1120 - k,
{
    if snake.contains(cell(k)) {
        lemma_first_free(snake, k + 1);
    }
}

/// Whether `p` is one of the cells of `v`.
fn on_snake(v: &Vec<Pos>, p: Pos) -> (r: bool)
    ensures
        r == v@.contains(p),
{
    let mut i: usize = 0;
    while i < v.len()
        invariant
            i <= v@.len(),
            forall|j: int| 0 <= j < i ==> v@[j] != p,
        decreases v@.len() - i,
    {
        if v[i] == p {
            assert(v@[i as int] == p);
            return true;
        }
        i += 1;
    }
    false
}

/// A copy of the cells of `v`.
fn copy_cells(v: &Vec<Pos>) -> (r: Vec<Pos>)
    ensures
        r@ == v@,
{
    let mut r: Vec<Pos> = Vec::new();
    let mut i: usize = 0;
    while i < v.len()
        invariant
            i <= v@.len(),
            r@ == v@.take(i as int),
        decreases v@.len() - i,
    {
        r.push(v[i]);
        proof {
            assert(r@ =~= v@.take(i + 1));
        }
        i += 1;
    }
    proof {
        assert(v@.take(v@.len() as int) =~= v@);
    }
    r
}

impl SnakeGame {
    #[verifier::type_invariant]
    closed spec fn inv(self) -> bool {
        well_formed(self@)
    }

    /// The game as it starts: on the title screen, with no snake yet.
    pub fn new() -> (g: Self)
        ensures
            g@ == (SnakeView {
                snake: Seq::empty(),
                dir: Dir::Right,
                next_dir: Dir::Right,
                food: Pos { x: 0, y: 0 },
                score: 0,
                high_score: 0,
                state: State::Title,
                move_timer: 0,
                rng: 12345,
            }),
            well_formed(g@),
    {
        SnakeGame {
            snake: Vec::new(),
            dir: Dir::Right,
            next_dir: Dir::Right,
            food: Pos { x: 0, y: 0 },
            score: 0,
            high_score: 0,
            state: State::Title,
            move_timer: 0,
            rng: 12345,
        }
    }

    /// Places food off the snake; see `place_food`.
    fn spawn_food(snake: &Vec<Pos>, rng: u32) -> (r: (Pos, u32))
        requires
            snake@.len() <= MAX_SNAKE,
        ensures
            r == place_food(rng, snake@),
            in_grid(r.0),
            !snake@.contains(r.0),
    {
        let mut state = rng;
        let mut t: u64 = 0;
        while t < FOOD_TRIES
            invariant
                t <= FOOD_TRIES,
                food_search(rng, snake@, FOOD_TRIES as nat) == food_search(state, snake@, (FOOD_TRIES - t) as nat),
            decreases FOOD_TRIES - t,
        {
            let ghost before = state;
            let a = xorshift32(state);
            let b = xorshift32(a);
            let p = Pos { x: (a % 40) as i32, y: (b % 28) as i32 };
            proof {
                let n = (FOOD_TRIES - t) as nat;
                assert(draw_cell(before) == (p, b));
                assert(food_search(before, snake@, n) == if !snake@.contains(p) {
                    (Some(p), b)
                } else {
                    food_search(b, snake@, (n - 1) as nat)
                });
            }
            state = b;
            if !on_snake(snake, p) {
                return (p, state);
            }
            t += 1;
        }
        proof {
            lemma_free_cell_exists(snake@);
            lemma_first_free(snake@, 0);
        }
        let mut k: u32 = 0;
        while k < 1120
            invariant
                k <= 1120,
                snake@.len() <= MAX_SNAKE,
                first_free_from(snake@, 0) == first_free_from(snake@, k as int),
                food_search(rng, snake@, FOOD_TRIES as nat) == (None::<Pos>, state),
                exists|j: int| k <= j < 1120 && !snake@.contains(#[trigger] cell(j)),
            decreases 1120 - k,
        {
            let p = Pos { x: (k % 40) as i32, y: (k / 40) as i32 };
            if !on_snake(snake, p) {
                return (p, state);
            }
            k += 1;
        }
        (Pos { x: 0, y: 0 }, state)
    }

    /// Starts a round; `frame` seeds the generator.
    fn reset(&mut self, frame: u32)
        ensures
            final(self)@ == reset_game(SnakeView { state: State::Playing, ..old(self)@ }, frame),
    {
        proof {
            use_type_invariant(&*self);
        }
        let mut snake: Vec<Pos> = Vec::new();
        let sx = GRID_W / 2;
        let sy = GRID_H / 2;
        let mut i: i32 = 0;
        while i < 3
            invariant
                0 <= i <= 3,
                sx == 20,
                sy == 14,
                snake@.len() == i,
                forall|j: int| 0 <= j < i ==> #[trigger] snake@[j] == (Pos { x: (20 - j) as i32, y: 14 }),
            decreases 3 - i,
        {
            snake.push(Pos { x: sx - i, y: sy });
            i += 1;
        }
        let ghost want = seq![Pos { x: 20, y: 14 }, Pos { x: 19, y: 14 }, Pos { x: 18, y: 14 }];
        assert(snake@ =~= want);
        let seed = frame.wrapping_add(12345);
        let (food, rng) = Self::spawn_food(&snake, seed);
        *self = SnakeGame {
            snake,
            dir: Dir::Right,
            next_dir: Dir::Right,
            food,
            score: 0,
            high_score: self.high_score,
            state: State::Playing,
            move_timer: 0,
            rng,
        };
    }

    /// The snake runs into something.
    fn die(&mut self)
        requires
            old(self)@.state == State::Playing,
        ensures
            final(self)@ == died(old(self)@),
    {
        proof {
            use_type_invariant(&*self);
        }
        let high = if self.score > self.high_score {
            self.score
        } else {
            self.high_score
        };
        self.high_score = high;
        self.state = State::GameOver;
    }

    /// Moves the snake one cell; see `stepped`.
    fn step(&mut self)
        requires
            old(self)@.state == State::Playing,
        ensures
            final(self)@ == stepped(old(self)@),
    {
        proof {
            use_type_invariant(&*self);
        }
        let head = self.snake[0];
        assert(in_grid(head));
        let nh = Pos { x: head.x + self.dir.dx(), y: head.y + self.dir.dy() };
        if nh.x < 0 || nh.x >= GRID_W || nh.y < 0 || nh.y >= GRID_H {
            self.die();
            return;
        }
        if on_snake(&self.snake, nh) {
            self.die();
            return;
        }
        let ate = nh == self.food;
        let ghost old_snake = self.snake@;
        let mut snake = copy_cells(&self.snake);
        if ate {
            if snake.len() < MAX_SNAKE {
                snake.insert(0, nh);
                assert(snake@ =~= seq![nh] + old_snake);
            } else {
                snake.set(0, nh);
            }
        } else {
            let _ = snake.pop();
            snake.insert(0, nh);
            assert(snake@ =~= seq![nh] + old_snake.drop_last());
        }
        proof {
            assert(snake@ == moved_body(old_snake, nh, ate));
            assert forall|i: int| 0 <= i < snake@.len() implies in_grid(#[trigger] snake@[i]) by {
                if i > 0 && !(ate && old_snake.len() >= MAX_SNAKE) {
                    assert(snake@[i] == old_snake[i - 1]);
                } else if i > 0 {
                    assert(snake@[i] == old_snake[i]);
                }
            }
            assert(snake@.no_duplicates()) by {
                assert forall|i: int, j: int| 0 <= i < j < snake@.len() implies snake@[i] != snake@[j] by {
                    if ate && old_snake.len() >= MAX_SNAKE {
                        if i == 0 {
                            assert(old_snake.contains(snake@[j]) || snake@[j] == nh);
                            assert(snake@[j] == old_snake[j]);
                        } else {
                            assert(snake@[i] == old_snake[i]);
                            assert(snake@[j] == old_snake[j]);
                        }
                    } else {
                        if i == 0 {
                            assert(snake@[j] == old_snake[j - 1]);
                        } else {
                            assert(snake@[i] == old_snake[i - 1]);
                            assert(snake@[j] == old_snake[j - 1]);
                        }
                    }
                }
            }
        }
        if ate {
            let score = self.score.wrapping_add(10);
            let high = if score > self.high_score {
                score
            } else {
                self.high_score
            };
            let (food, rng) = Self::spawn_food(&snake, self.rng);
            *self = SnakeGame {
                snake,
                dir: self.dir,
                next_dir: self.next_dir,
                food,
                score,
                high_score: high,
                state: self.state,
                move_timer: self.move_timer,
                rng,
            };
        } else {
            proof {
                assert(!snake@.contains(self.food)) by {
                    if snake@.contains(self.food) {
                        let j = choose|j: int| 0 <= j < snake@.len() && snake@[j] == self.food;
                        if j > 0 {
                            assert(snake@[j] == old_snake[j - 1]);
                        }
                    }
                }
            }
            *self = SnakeGame {
                snake,
                dir: self.dir,
                next_dir: self.next_dir,
                food: self.food,
                score: self.score,
                high_score: self.high_score,
                state: self.state,
                move_timer: self.move_timer,
                rng: self.rng,
            };
        }
    }

    /// One frame of the game, reading the buttons from `mem`; `frame` is the
    /// frame count.
    pub fn update(&mut self, mem: &GuestMemory, frame: u32)
        ensures
            final(self)@ == updated(old(self)@, mem@, frame),
            well_formed(final(self)@),
    {
        proof {
            use_type_invariant(&*self);
        }
        match self.state {
            State::Playing => {
                if button_pressed(mem, Button::Up) && self.dir != Dir::Down {
                    self.next_dir = Dir::Up;
                } else if button_pressed(mem, Button::Down) && self.dir != Dir::Up {
                    self.next_dir = Dir::Down;
                } else if button_pressed(mem, Button::Left) && self.dir != Dir::Right {
                    self.next_dir = Dir::Left;
                } else if button_pressed(mem, Button::Right) && self.dir != Dir::Left {
                    self.next_dir = Dir::Right;
                }
                if self.move_timer + 1 >= MOVE_INTERVAL {
                    self.move_timer = 0;
                    self.dir = self.next_dir;
                    self.step();
                } else {
                    self.move_timer = self.move_timer + 1;
                }
            },
            _ => {
                if button_pressed(mem, Button::Start) || button_pressed(mem, Button::A) {
                    self.reset(frame);
                }
            },
        }
        proof {
            use_type_invariant(&*self);
        }
    }
}

// === Drawing numbers ===

/// The decimal digits of `n`, least significant first.
pub open spec fn digits_rev(n: nat) -> Seq<u32>
    decreases n,
{
    if n == 0 {
        Seq::empty()
    } else {
        seq![(n % 10) as u32] + digits_rev(n / 10)
    }
}

/// The decimal text of `n`, as ASCII.
pub open spec fn decimal_text(n: nat) -> Seq<u8>
    decreases n,
{
    if n < 10 {
        seq![(48 + n) as u8]
    } else {
        decimal_text(n / 10) + seq![(48 + n % 10) as u8]
    }
}

/// Memory with `n` written in decimal from `(x, y)`.
pub open spec fn number_at(m: Seq<u8>, n: u32, x: int, y: int, c: u8) -> Seq<u8> {
    text_at(m, decimal_text(n as nat), x, y, c)
}

/// Ten to the power `k`.
pub open spec fn pow10(k: nat) -> nat
    decreases k,
{
    if k == 0 {
        1
    } else {
        10 * pow10((k - 1) as nat)
    }
}

proof fn lemma_digits_len(n: nat, k: nat)
    requires
        n < pow10(k),
    ensures
        digits_rev(n).len() <= k,
    decreases k,
{
    if n > 0 && k > 0 {
        lemma_digits_len(n / 10, (k - 1) as nat);
    }
}

proof fn lemma_decimal_text(n: nat)
    requires
        n > 0,
    ensures
        decimal_text(n).len() == digits_rev(n).len(),
        forall|j: int|
            0 <= j < decimal_text(n).len() ==> #[trigger] decimal_text(n)[j] == 48 + digits_rev(n)[
                digits_rev(n).len() - 1 - j],
    decreases n,
{
    if n >= 10 {
        lemma_decimal_text(n / 10);
        assert(digits_rev(n / 10).len() > 0);
    } else {
        assert(digits_rev(n / 10) =~= Seq::<u32>::empty());
    }
}

/// Drawing text one more character is drawing that character after the rest.
proof fn lemma_text_extend(m: Seq<u8>, s: Seq<u8>, x: int, y: int, c: u8, k: int)
    requires
        0 <= k < s.len(),
    ensures
        text_drawn(m, s, x, y, c, k + 1) == text_at(text_drawn(m, s, x, y, c, k), seq![s[k]], x + 6 * k, y, c),
{
    reveal_with_fuel(text_drawn, 2);
    assert(seq![s[k]][0] == s[k]);
}

/// The one-character text of digit `d` (9 for anything above).
fn digit_str(d: u32) -> (s: &'static str)
    ensures
        s.spec_bytes() == seq![(48 + if d < 9 { d } else { 9 }) as u8],
{
    match d {
        0 => {
            proof { reveal_strlit("0"); vstd::string::is_ascii_spec_bytes("0"); }
            "0"
        },
        1 => {
            proof { reveal_strlit("1"); vstd::string::is_ascii_spec_bytes("1"); }
            "1"
        },
        2 => {
            proof { reveal_strlit("2"); vstd::string::is_ascii_spec_bytes("2"); }
            "2"
        },
        3 => {
            proof { reveal_strlit("3"); vstd::string::is_ascii_spec_bytes("3"); }
            "3"
        },
        4 => {
            proof { reveal_strlit("4"); vstd::string::is_ascii_spec_bytes("4"); }
            "4"
        },
        5 => {
            proof { reveal_strlit("5"); vstd::string::is_ascii_spec_bytes("5"); }
            "5"
        },
        6 => {
            proof { reveal_strlit("6"); vstd::string::is_ascii_spec_bytes("6"); }
            "6"
        },
        7 => {
            proof { reveal_strlit("7"); vstd::string::is_ascii_spec_bytes("7"); }
            "7"
        },
        8 => {
            proof { reveal_strlit("8"); vstd::string::is_ascii_spec_bytes("8"); }
            "8"
        },
        _ => {
            proof { reveal_strlit("9"); vstd::string::is_ascii_spec_bytes("9"); }
            "9"
        },
    }
}

/// A `u32` has at most ten decimal digits.
proof fn lemma_u32_digits(n: u32)
    ensures
        decimal_text(n as nat).len() <= 10,
{
    if n > 0 {
        assert(pow10(10) == 10000000000) by {
            reveal_with_fuel(pow10, 11);
        }
        lemma_digits_len(n as nat, 10);
        lemma_decimal_text(n as nat);
    }
}

/// Writes `n` in decimal from `(x, y)`, one digit every 6 pixels.
pub fn draw_number(mem: &mut GuestMemory, n: u32, x: i32, y: i32, color: u8)
    requires
        n == 0 || x + 6 * decimal_text(n as nat).len() <= i32::MAX,
    ensures
        final(mem)@ == number_at(old(mem)@, n, x as int, y as int, color),
{
    if n == 0 {
        text(mem, digit_str(0), x, y, color);
        return;
    }
    let ghost m0 = mem@;
    let ghost digits = decimal_text(n as nat);
    let mut buf: Vec<u32> = Vec::new();
    let mut rest = n;
    proof {
        assert(digits_rev(n as nat) =~= buf@ + digits_rev(rest as nat));
        assert(pow10(10) == 10000000000) by {
            reveal_with_fuel(pow10, 11);
        }
        lemma_digits_len(n as nat, 10);
    }
    while rest > 0 && buf.len() < 10
        invariant
            digits_rev(n as nat) == buf@ + digits_rev(rest as nat),
            digits_rev(n as nat).len() <= 10,
            forall|j: int| 0 <= j < buf@.len() ==> #[trigger] buf@[j] < 10,
        decreases rest,
    {
        let d = rest % 10;
        buf.push(d);
        rest = rest / 10;
        proof {
            assert(digits_rev((rest * 10 + d) as nat) == seq![d] + digits_rev(rest as nat));
        }
    }
    proof {
        if rest > 0 {
            assert(digits_rev(rest as nat).len() > 0);
        }
        assert(digits_rev(rest as nat) =~= Seq::<u32>::empty());
        assert(buf@ =~= digits_rev(n as nat));
        lemma_decimal_text(n as nat);
    }
    let len = buf.len();
    let mut cx: i32 = x;
    let mut i: usize = len;
    while i > 0
        invariant
            i <= len == buf@.len() <= 10,
            len == digits.len(),
            digits == decimal_text(n as nat),
            buf@ == digits_rev(n as nat),
            forall|j: int| 0 <= j < buf@.len() ==> #[trigger] buf@[j] < 10,
            forall|j: int| 0 <= j < digits.len() ==> #[trigger] digits[j] == 48 + buf@[len - 1 - j],
            x + 6 * len <= i32::MAX,
            cx == x + 6 * (len - i),
            mem@ == text_drawn(m0, digits, x as int, y as int, color, len - i),
        decreases i,
    {
        i -= 1;
        let k: usize = len - 1 - i;
        proof {
            lemma_text_extend(m0, digits, x as int, y as int, color, k as int);
            assert(digits[k as int] == 48 + buf@[i as int]);
        }
        text(mem, digit_str(buf[i]), cx, y, color);
        cx += 6;
    }
}

// === Screens ===

/// The eight blocks of the title's snake, the first `k` of them, bobbing
/// with `wave`.
pub open spec fn title_blocks(m: Seq<u8>, wave: int, k: int) -> Seq<u8>
    decreases k,
{
    if k <= 0 {
        m
    } else {
        let i = k - 1;
        let y = if (i + wave) % 3 == 0 {
            128
        } else {
            130
        };
        rect_filled(
            title_blocks(m, wave, k - 1),
            120 + i * 10,
            y,
            8,
            8,
            if i == 7 {
                COL_SNAKE_HEAD
            } else {
                COL_SNAKE_BODY
            },
        )
    }
}

/// The title screen drawn over `m`.
pub open spec fn title_screen(m: Seq<u8>, high_score: u32, frame: u32) -> Seq<u8> {
    let m1 = text_at(m, "SNAKE".spec_bytes(), 130, 60, COL_TEXT);
    let m2 = text_at(m1, "for Handheld OS".spec_bytes(), 88, 80, COL_SNAKE_BODY);
    let m3 = title_blocks(m2, ((frame / 10) % 6) as int, 8);
    let m4 = if (frame / 20) % 2 == 0 {
        rect_filled(m3, 220, 128, 8, 8, COL_FOOD)
    } else {
        m3
    };
    let m5 = text_at(m4, "Press START".spec_bytes(), 112, 180, COL_TEXT);
    if high_score > 0 {
        number_at(text_at(m5, "HI:".spec_bytes(), 128, 200, COL_TEXT), high_score, 152, 200, COL_GAMEOVER)
    } else {
        m5
    }
}

/// The first `k` cells of the snake drawn: the head as a full cell, the
/// body as smaller squares.
pub open spec fn cells_drawn(m: Seq<u8>, snake: Seq<Pos>, k: int) -> Seq<u8>
    decreases k,
{
    if k <= 0 {
        m
    } else {
        let i = k - 1;
        let p = snake[i];
        let px = p.x * CELL;
        let py = (p.y + GRID_Y_OFFSET) * CELL;
        let prev = cells_drawn(m, snake, k - 1);
        if i == 0 {
            rect_filled(prev, px, py, 8, 8, COL_SNAKE_HEAD)
        } else {
            rect_filled(prev, px + 1, py + 1, 6, 6, COL_SNAKE_BODY)
        }
    }
}

/// The playing field drawn over `m`: scores, border, food and snake.
pub open spec fn game_screen(m: Seq<u8>, g: SnakeView, frame: u32) -> Seq<u8> {
    let m1 = text_at(m, "SCORE:".spec_bytes(), 4, 4, COL_TEXT);
    let m2 = number_at(m1, g.score, 44, 4, COL_TEXT);
    let m3 = text_at(m2, "HI:".spec_bytes(), 240, 4, COL_TEXT);
    let m4 = number_at(m3, g.high_score, 264, 4, COL_TEXT);
    let m5 = rect_outline(m4, 0, 15, 320, 226, COL_BORDER);
    let food_color = if (frame / 8) % 2 == 0 {
        COL_FOOD
    } else {
        COL_GAMEOVER
    };
    let m6 = rect_filled(m5, g.food.x * CELL + 1, (g.food.y + GRID_Y_OFFSET) * CELL + 1, 6, 6, food_color);
    cells_drawn(m6, g.snake, g.snake.len() as int)
}

/// Every other pixel of every other row from 60 to 139.
pub open spec fn shade_dot(x: int, y: int) -> bool {
    60 <= y < 140 && y % 2 == 0 && 0 <= x < 320 && x % 2 == 0
}

/// The game-over box drawn over `m`.
pub open spec fn game_over_screen(m: Seq<u8>, score: u32) -> Seq<u8> {
    let m1 = paint(m, uniform(|x: int, y: int| shade_dot(x, y), COL_BG));
    let m2 = rect_filled(m1, 60, 80, 200, 48, COL_BG);
    let m3 = rect_outline(m2, 60, 80, 200, 48, COL_GAMEOVER);
    let m4 = text_at(m3, "GAME OVER".spec_bytes(), 112, 90, COL_GAMEOVER);
    let m5 = text_at(m4, "Score:".spec_bytes(), 100, 108, COL_TEXT);
    let m6 = number_at(m5, score, 144, 108, COL_TEXT);
    text_at(m6, "Press START".spec_bytes(), 104, 140, COL_TEXT)
}

/// The frame of a game: cleared, then the screen of its state.
pub open spec fn snake_frame(m: Seq<u8>, g: SnakeView, frame: u32) -> Seq<u8> {
    let m0 = cleared(m, COL_BG);
    match g.state {
        State::Title => title_screen(m0, g.high_score, frame),
        State::Playing => game_screen(m0, g, frame),
        State::GameOver => game_over_screen(game_screen(m0, g, frame), g.score),
    }
}

/// The game's palette.
pub open spec fn snake_palette(m: Seq<u8>) -> Seq<u8> {
    let m1 = palette_entry(m, 0, 16, 16, 24);
    let m2 = palette_entry(m1, 1, 220, 220, 220);
    let m3 = palette_entry(m2, 2, 0, 220, 80);
    let m4 = palette_entry(m3, 3, 80, 120, 255);
    let m5 = palette_entry(m4, 4, 255, 60, 60);
    let m6 = palette_entry(m5, 5, 255, 200, 0);
    let m7 = palette_entry(m6, 9, 60, 60, 80);
    palette_entry(m7, 10, 0, 180, 60)
}

/// Sets the game's palette.
pub fn init(mem: &mut GuestMemory)
    ensures
        final(mem)@ == snake_palette(old(mem)@),
{
    set_palette(mem, 0, 16, 16, 24);
    set_palette(mem, 1, 220, 220, 220);
    set_palette(mem, 2, 0, 220, 80);
    set_palette(mem, 3, 80, 120, 255);
    set_palette(mem, 4, 255, 60, 60);
    set_palette(mem, 5, 255, 200, 0);
    set_palette(mem, 9, 60, 60, 80);
    set_palette(mem, 10, 0, 180, 60);
}

fn draw_title(mem: &mut GuestMemory, high_score: u32, frame: u32)
    ensures
        final(mem)@ == title_screen(old(mem)@, high_score, frame),
{
    let ghost m0 = mem@;
    text(mem, "SNAKE", 130, 60, COL_TEXT);
    text(mem, "for Handheld OS", 88, 80, COL_SNAKE_BODY);
    let ghost m2 = mem@;
    let wave = ((frame / 10) % 6) as i32;
    let mut i: i32 = 0;
    while i < 8
        invariant
            0 <= i <= 8,
            0 <= wave < 6,
            wave == (frame / 10) % 6,
            mem@ == title_blocks(m2, wave as int, i as int),
        decreases 8 - i,
    {
        let y = 130 + if (i + wave) % 3 == 0 {
            -2
        } else {
            0
        };
        rect_fill(
            mem,
            120 + i * 10,
            y,
            8,
            8,
            if i == 7 {
                COL_SNAKE_HEAD
            } else {
                COL_SNAKE_BODY
            },
        );
        i += 1;
    }
    if (frame / 20) % 2 == 0 {
        rect_fill(mem, 220, 128, 8, 8, COL_FOOD);
    }
    text(mem, "Press START", 112, 180, COL_TEXT);
    if high_score > 0 {
        text(mem, "HI:", 128, 200, COL_TEXT);
        proof { lemma_u32_digits(high_score); }
        draw_number(mem, high_score, 152, 200, COL_GAMEOVER);
    }
}

fn draw_cells(mem: &mut GuestMemory, snake: &Vec<Pos>)
    requires
        forall|i: int| 0 <= i < snake@.len() ==> in_grid(#[trigger] snake@[i]),
    ensures
        final(mem)@ == cells_drawn(old(mem)@, snake@, snake@.len() as int),
{
    let ghost m0 = mem@;
    let mut i: usize = 0;
    while i < snake.len()
        invariant
            i <= snake@.len(),
            forall|j: int| 0 <= j < snake@.len() ==> in_grid(#[trigger] snake@[j]),
            mem@ == cells_drawn(m0, snake@, i as int),
        decreases snake@.len() - i,
    {
        let p = snake[i];
        assert(in_grid(snake@[i as int]));
        let px = p.x * CELL;
        let py = (p.y + GRID_Y_OFFSET) * CELL;
        if i == 0 {
            rect_fill(mem, px, py, CELL as u32, CELL as u32, COL_SNAKE_HEAD);
        } else {
            rect_fill(mem, px + 1, py + 1, (CELL - 2) as u32, (CELL - 2) as u32, COL_SNAKE_BODY);
        }
        i += 1;
    }
}

fn draw_game_over(mem: &mut GuestMemory, score: u32)
    ensures
        final(mem)@ == game_over_screen(old(mem)@, score),
{
    let _n = mem.len();
    let ghost m0 = mem@;
    let ghost f = uniform(|x: int, y: int| shade_dot(x, y), COL_BG);
    let mut y: i32 = 60;
    while y < 140
        invariant
            60 <= y <= 140,
            y % 2 == 0,
            m0.len() >= crate::sdk::MEMORY_SIZE,
            mem@.len() == m0.len(),
            f == uniform(|x: int, y: int| shade_dot(x, y), COL_BG),
            forall|i: int| 0 <= i < m0.len() && !in_framebuffer(i) ==> mem@[i] == m0[i],
            forall|px: int, py: int|
                on_screen(px, py) ==> mem@[#[trigger] fb_index(px, py)] == if py < y && shade_dot(px, py) {
                    COL_BG
                } else {
                    m0[fb_index(px, py)]
                },
        decreases 140 - y,
    {
        let mut x: i32 = 0;
        while x < 320
            invariant
                60 <= y < 140,
                y % 2 == 0,
                0 <= x <= 320,
                x % 2 == 0,
                m0.len() >= crate::sdk::MEMORY_SIZE,
                mem@.len() == m0.len(),
                forall|i: int| 0 <= i < m0.len() && !in_framebuffer(i) ==> mem@[i] == m0[i],
                forall|px: int, py: int|
                    on_screen(px, py) ==> mem@[#[trigger] fb_index(px, py)] == if (py < y || (py == y
                        && px < x)) && shade_dot(px, py) {
                        COL_BG
                    } else {
                        m0[fb_index(px, py)]
                    },
            decreases 320 - x,
        {
            let ghost before = mem@;
            pixel(mem, x, y, COL_BG);
            proof {
                lemma_fb_coords(x as int, y as int);
                assert forall|px: int, py: int| on_screen(px, py) implies mem@[#[trigger] fb_index(px, py)]
                    == if (py < y || (py == y && px < x + 2)) && shade_dot(px, py) {
                    COL_BG
                } else {
                    m0[fb_index(px, py)]
                } by {
                    if px == x && py == y {
                    } else {
                        if fb_index(px, py) == fb_index(x as int, y as int) {
                            lemma_fb_injective(px, py, x as int, y as int);
                        }
                        assert(mem@[fb_index(px, py)] == before[fb_index(px, py)]);
                        if py == y && px == x + 1 {
                            assert(!shade_dot(px, py));
                        }
                    }
                }
                assert forall|i: int| 0 <= i < m0.len() && !in_framebuffer(i) implies mem@[i] == m0[i] by {
                    assert(mem@[i] == before[i]);
                }
            }
            x += 2;
        }
        proof {
            assert forall|px: int, py: int| on_screen(px, py) implies mem@[#[trigger] fb_index(px, py)]
                == if py < y + 2 && shade_dot(px, py) {
                COL_BG
            } else {
                m0[fb_index(px, py)]
            } by {
                if py == y + 1 {
                    assert(!shade_dot(px, py));
                }
            }
        }
        y += 2;
    }
    proof {
        lemma_paint_by_pixels(m0, mem@, f);
    }
    rect_fill(mem, 60, 80, 200, 48, COL_BG);
    rect(mem, 60, 80, 200, 48, COL_GAMEOVER);
    text(mem, "GAME OVER", 112, 90, COL_GAMEOVER);
    text(mem, "Score:", 100, 108, COL_TEXT);
    proof { lemma_u32_digits(score); }
    draw_number(mem, score, 144, 108, COL_TEXT);
    text(mem, "Press START", 104, 140, COL_TEXT);
}

impl SnakeGame {
    fn draw_game(&self, mem: &mut GuestMemory, frame: u32)
        requires
            self@.state != State::Title,
        ensures
            final(mem)@ == game_screen(old(mem)@, self@, frame),
    {
        proof {
            use_type_invariant(self);
        }
        text(mem, "SCORE:", 4, 4, COL_TEXT);
        proof { lemma_u32_digits(self.score); }
        draw_number(mem, self.score, 44, 4, COL_TEXT);
        text(mem, "HI:", 240, 4, COL_TEXT);
        proof { lemma_u32_digits(self.high_score); }
        draw_number(mem, self.high_score, 264, 4, COL_TEXT);
        let play_y = GRID_Y_OFFSET * CELL;
        rect(mem, 0, play_y - 1, (GRID_W * CELL) as u32, (GRID_H * CELL + 2) as u32, COL_BORDER);
        let blink = (frame / 8) % 2 == 0;
        let food_color = if blink {
            COL_FOOD
        } else {
            COL_GAMEOVER
        };
        rect_fill(mem, self.food.x * CELL + 1, (self.food.y + GRID_Y_OFFSET) * CELL + 1, 6, 6, food_color);
        draw_cells(mem, &self.snake);
    }

    /// Draws the frame: the screen of the game's state; `frame` is the frame
    /// count, which makes things blink.
    pub fn draw(&self, mem: &mut GuestMemory, frame: u32)
        ensures
            final(mem)@ == snake_frame(old(mem)@, self@, frame),
    {
        clear(mem, COL_BG);
        match self.state {
            State::Title => draw_title(mem, self.high_score, frame),
            State::Playing => self.draw_game(mem, frame),
            State::GameOver => {
                self.draw_game(mem, frame);
                draw_game_over(mem, self.score);
            },
        }
    }
}

} // verus!
