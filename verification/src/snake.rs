//! The rules of the snake demo that runs on top of the kernel: a board of
//! 40 by 30 cells, a snake kept in a ring of cells, and food placed by a
//! linear congruential generator.  Drawing is described as a list of
//! rectangles for the display to paint.

use vstd::prelude::*;

verus! {

/// The width of the board, in cells.
pub const WIDTH: usize = 40;

/// The height of the board, in cells.
pub const HEIGHT: usize = 30;

/// The side of one cell on the screen, in pixels.
pub const TILE_SIZE: usize = 20;

/// The number of cells that the ring of the snake holds.
pub const RING: usize = 256;

/// How often `spawn_food` draws a random cell before it takes the first free
/// cell of the board instead.
pub const SPAWN_TRIES: usize = 64;

/// The multiplier of the generator.
pub const LCG_MULTIPLIER: u64 = 6364136223846793005;

/// The seed of a new game.
pub const SEED: u64 = 12345;

pub const COLOR_CLEAR: u32 = 0;

pub const COLOR_FOOD: u32 = 0xFFFF00FF;

pub const COLOR_BODY: u32 = 0x00FF00FF;

pub const COLOR_HEAD: u32 = 0xFF0000FF;

#[derive(Clone, Copy, PartialEq, Eq, Structural, Debug)]
pub enum Direction {
    Up,
    Down,
    Left,
    Right,
}

#[derive(Clone, Copy, PartialEq, Eq, Structural, Debug)]
pub struct Point {
    pub x: isize,
    pub y: isize,
}

impl Point {
    pub open spec fn on_board(self) -> bool {
        0 <= self.x < WIDTH && 0 <= self.y < HEIGHT
    }

    /// The neighbour of the point in direction `d`.
    pub open spec fn moved(self, d: Direction) -> Point
        recommends
            self.on_board(),
    {
        match d {
            Direction::Up => Point { x: self.x, y: (self.y - 1) as isize },
            Direction::Down => Point { x: self.x, y: (self.y + 1) as isize },
            Direction::Left => Point { x: (self.x - 1) as isize, y: self.y },
            Direction::Right => Point { x: (self.x + 1) as isize, y: self.y },
        }
    }
}

/// One request to the display.
#[derive(Clone, Copy, PartialEq, Eq, Structural, Debug)]
pub enum DrawCommand {
    /// Fill the rectangle at pixel `(x, y)` of `w` by `h` pixels.
    Rect { x: usize, y: usize, w: usize, h: usize, color: u32 },
    /// Show what has been painted.
    Flush,
}

/// The request that paints the cell `p` in `color`.
pub open spec fn tile(p: Point, color: u32) -> DrawCommand {
    DrawCommand::Rect {
        x: (p.x * TILE_SIZE) as usize,
        y: (p.y * TILE_SIZE) as usize,
        w: TILE_SIZE,
        h: TILE_SIZE,
        color,
    }
}

/// The number the generator gives after `state`.
pub open spec fn lcg_next(state: u64) -> u64 {
    state.wrapping_mul(LCG_MULTIPLIER).wrapping_add(1)
}

/// The cell that two draws of the generator after `state` select.
pub open spec fn drawn_cell(state: u64) -> Point {
    Point {
        x: (lcg_next(state) % (WIDTH as u64)) as isize,
        y: (lcg_next(lcg_next(state)) % (HEIGHT as u64)) as isize,
    }
}

/// The number of ring slots from `from` up to `to`, going forward.
pub open spec fn ring_distance(from: int, to: int) -> int {
    (to + RING - from) % (RING as int)
}

/// The ring slot after `i`.
pub open spec fn ring_next(i: int) -> int {
    (i + 1) % (RING as int)
}

/// The cells of the ring from slot `from` up to, but without, slot `to`.
pub open spec fn ring_cells(ring: Seq<Point>, from: int, to: int) -> Seq<Point>
    recommends
        0 <= from < RING,
        0 <= to < RING,
    decreases ring_distance(from, to),
{
    if 0 <= from < RING && 0 <= to < RING && from != to {
        seq![ring[from]] + ring_cells(ring, ring_next(from), to)
    } else {
        Seq::empty()
    }
}

/// What a game is.
pub struct GameState {
    pub ring: Seq<Point>,
    pub head_idx: int,
    pub tail_idx: int,
    pub len: int,
    pub direction: Direction,
    pub food: Point,
    pub game_over: bool,
    pub rng_state: u64,
}

impl GameState {
    pub open spec fn wf(self) -> bool {
        &&& self.ring.len() == RING
        &&& 0 <= self.head_idx < RING
        &&& 0 <= self.tail_idx < RING
        &&& forall|i: int| 0 <= i < RING ==> (#[trigger] self.ring[i]).on_board()
        &&& self.food.on_board()
        &&& 0 <= self.len <= usize::MAX
    }

    pub open spec fn head(self) -> Point {
        self.ring[self.head_idx]
    }

    /// The cells of the snake behind its head, from the tail on.
    pub open spec fn body(self) -> Seq<Point> {
        ring_cells(self.ring, self.tail_idx, self.head_idx)
    }

    /// Whether the snake, head included, lies on `p`.
    pub open spec fn occupies(self, p: Point) -> bool {
        self.body().contains(p) || self.head() == p
    }

    /// The first cell, row by row from `(0, 0)`, at or after index `from` that
    /// the snake leaves free, if there is one.
    pub open spec fn first_free_from(self, from: int) -> Option<Point>
        decreases WIDTH * HEIGHT - from,
    {
        if from < 0 || from >= WIDTH * HEIGHT {
            None
        } else {
            let p = Point { x: (from % (WIDTH as int)) as isize,
                y: (from / (WIDTH as int)) as isize };
            if !self.occupies(p) {
                Some(p)
            } else {
                self.first_free_from(from + 1)
            }
        }
    }

    /// Where the food goes, and the generator's state afterwards: the first of
    /// up to `tries` drawn cells that the snake leaves free; failing that the
    /// first free cell of the board; failing that, where it was.
    pub open spec fn spawned(self, tries: nat) -> (Point, u64)
        decreases tries,
    {
        if tries == 0 {
            match self.first_free_from(0) {
                Some(p) => (p, self.rng_state),
                None => (self.food, self.rng_state),
            }
        } else {
            let p = drawn_cell(self.rng_state);
            let next = lcg_next(lcg_next(self.rng_state));
            if !self.occupies(p) {
                (p, next)
            } else {
                GameState { rng_state: next, ..self }.spawned((tries - 1) as nat)
            }
        }
    }

    pub open spec fn spawn_food(self) -> GameState {
        let (food, rng_state) = self.spawned(SPAWN_TRIES as nat);
        GameState { food, rng_state, ..self }
    }

    /// One move of the snake.
    pub open spec fn step(self) -> GameState {
        let next_head = self.head().moved(self.direction);
        if self.game_over {
            self
        } else if !next_head.on_board() || self.body().contains(next_head) {
            GameState { game_over: true, ..self }
        } else {
            let head_idx = ring_next(self.head_idx);
            let grown = GameState { ring: self.ring.update(head_idx, next_head), head_idx, ..self };
            if next_head == self.food {
                GameState {
                    len: if self.len < usize::MAX {
                        self.len + 1
                    } else {
                        self.len
                    },
                    ..grown
                }.spawn_food()
            } else {
                GameState { tail_idx: ring_next(self.tail_idx), ..grown }
            }
        }
    }

    /// What is painted for the game: the cleared screen, the food, the body
    /// from the tail on, the head, and the request to show it.
    pub open spec fn rendered(self) -> Seq<DrawCommand> {
        seq![
            DrawCommand::Rect {
                x: 0,
                y: 0,
                w: (WIDTH * TILE_SIZE) as usize,
                h: (HEIGHT * TILE_SIZE) as usize,
                color: COLOR_CLEAR,
            },
            tile(self.food, COLOR_FOOD),
        ] + self.body().map_values(|p: Point| tile(p, COLOR_BODY)) + seq![
            tile(self.head(), COLOR_HEAD),
            DrawCommand::Flush,
        ]
    }
}

/// The request that paints one pixel.
pub fn paint_pixel(x: usize, y: usize, color: u32) -> (c: DrawCommand)
    ensures
        c == (DrawCommand::Rect { x, y, w: 1, h: 1, color }),
{
    draw_rect(x, y, 1, 1, color)
}

/// The request that fills a rectangle.
pub fn draw_rect(x: usize, y: usize, w: usize, h: usize, color: u32) -> (c: DrawCommand)
    ensures
        c == (DrawCommand::Rect { x, y, w, h, color }),
{
    DrawCommand::Rect { x, y, w, h, color }
}

/// The request that shows what has been painted.
pub fn flush_screen() -> (c: DrawCommand)
    ensures
        c == DrawCommand::Flush,
{
    DrawCommand::Flush
}

fn draw_tile(p: Point, color: u32) -> (c: DrawCommand)
    requires
        p.on_board(),
    ensures
        c == tile(p, color),
{
    draw_rect(p.x as usize * TILE_SIZE, p.y as usize * TILE_SIZE, TILE_SIZE, TILE_SIZE, color)
}

/// The words of the message that asks the display for `c`: position, size
/// and colour of a rectangle, each cut to 32 bits; nothing for a flush.
pub fn encode_command(c: DrawCommand) -> (words: Vec<u32>)
    ensures
        match c {
            DrawCommand::Rect { x, y, w, h, color } => words@ == seq![
                (x as u64 % 0x1_0000_0000) as u32,
                (y as u64 % 0x1_0000_0000) as u32,
                (w as u64 % 0x1_0000_0000) as u32,
                (h as u64 % 0x1_0000_0000) as u32,
                color,
            ],
            DrawCommand::Flush => words@ == Seq::<u32>::empty(),
        },
{
    let mut words: Vec<u32> = Vec::new();
    match c {
        DrawCommand::Rect { x, y, w, h, color } => {
            words.push((x as u64 % 0x1_0000_0000) as u32);
            words.push((y as u64 % 0x1_0000_0000) as u32);
            words.push((w as u64 % 0x1_0000_0000) as u32);
            words.push((h as u64 % 0x1_0000_0000) as u32);
            words.push(color);
        },
        DrawCommand::Flush => {},
    }
    words
}

/// A busy wait of ten turns.
pub fn spin_delay() {
    let mut j = true;
    let mut i: usize = 0;
    while i < 10
        invariant
            i <= 10,
            j == (i % 2 == 0),
        decreases 10 - i,
    {
        j = !j;
        i = i + 1;
    }
}

pub struct SnakeGame {
    snake: Vec<Point>,
    head_idx: usize,
    tail_idx: usize,
    len: usize,
    direction: Direction,
    food: Point,
    game_over: bool,
    rng_state: u64,
}

impl View for SnakeGame {
    type V = GameState;

    closed spec fn view(&self) -> GameState {
        GameState {
            ring: self.snake@,
            head_idx: self.head_idx as int,
            tail_idx: self.tail_idx as int,
            len: self.len as int,
            direction: self.direction,
            food: self.food,
            game_over: self.game_over,
            rng_state: self.rng_state,
        }
    }
}

pub proof fn lemma_ring_cells_last(ring: Seq<Point>, from: int, to: int)
    requires
        0 <= from < RING,
        0 <= to < RING,
        ring_next(to) != from,
    ensures
        ring_cells(ring, from, ring_next(to)) == ring_cells(ring, from, to).push(ring[to]),
    decreases ring_distance(from, to),
{
    if from == to {
        assert(ring_cells(ring, ring_next(from), ring_next(to)) =~= Seq::<Point>::empty());
        assert(ring_cells(ring, from, ring_next(to)) =~= seq![ring[from]]);
        assert(ring_cells(ring, from, to).push(ring[to]) =~= seq![ring[from]]);
    } else {
        lemma_ring_cells_last(ring, ring_next(from), to);
        assert(ring_cells(ring, from, ring_next(to)) =~= ring_cells(ring, from, to).push(ring[to]));
    }
}

impl SnakeGame {
    pub open spec fn wf(&self) -> bool {
        self@.wf()
    }

    /// The state a new game has before its food is placed.
    pub open spec fn initial() -> GameState {
        GameState {
            ring: Seq::new(RING as nat, |i: int| Point { x: 0, y: 0 }).update(0, Point { x: 5,
                y: 5 }),
            head_idx: 0,
            tail_idx: 0,
            len: 1,
            direction: Direction::Right,
            food: Point { x: 10, y: 10 },
            game_over: false,
            rng_state: SEED,
        }
    }

    /// A new game: a snake of one cell at `(5, 5)` that heads right, and food
    /// placed by the generator.
    pub fn new() -> (game: Self)
        ensures
            game@ == Self::initial().spawn_food(),
            game.wf(),
    {
        let mut snake: Vec<Point> = Vec::new();
        let mut i: usize = 0;
        while i < RING
            invariant
                i <= RING,
                snake@ == Seq::new(i as nat, |k: int| Point { x: 0, y: 0 }),
            decreases RING - i,
        {
            snake.push(Point { x: 0, y: 0 });
            i = i + 1;
            assert(snake@ =~= Seq::new(i as nat, |k: int| Point { x: 0, y: 0 }));
        }
        snake[0] = Point { x: 5, y: 5 };
        let mut game = SnakeGame {
            snake,
            head_idx: 0,
            tail_idx: 0,
            len: 1,
            direction: Direction::Right,
            food: Point { x: 10, y: 10 },
            game_over: false,
            rng_state: SEED,
        };
        assert(game@.ring =~= Self::initial().ring);
        game.spawn_food();
        game
    }

    /// Draws the next number of the generator.
    pub fn rand(&mut self) -> (r: u64)
        ensures
            r == lcg_next(old(self)@.rng_state),
            final(self)@ == (GameState { rng_state: r, ..old(self)@ }),
    {
        self.rng_state = self.rng_state.wrapping_mul(LCG_MULTIPLIER).wrapping_add(1);
        self.rng_state
    }

    /// Whether the game has ended.
    pub fn game_over(&self) -> (b: bool)
        ensures
            b == self@.game_over,
    {
        self.game_over
    }

    /// The score: one, and one more for each food eaten.
    pub fn len(&self) -> (n: usize)
        ensures
            n == self@.len,
    {
        self.len
    }

    /// Where the food lies.
    pub fn food(&self) -> (p: Point)
        ensures
            p == self@.food,
    {
        self.food
    }

    /// Where the head lies.
    pub fn head(&self) -> (p: Point)
        requires
            self.wf(),
        ensures
            p == self@.head(),
    {
        self.snake[self.head_idx]
    }

    /// The direction of the next move.
    pub fn direction(&self) -> (d: Direction)
        ensures
            d == self@.direction,
    {
        self.direction
    }

    /// Turns the snake, unless `d` is the reverse of its direction.
    pub fn turn(&mut self, d: Direction)
        ensures
            final(self)@ == (GameState {
                direction: if opposite(d) == old(self)@.direction {
                    old(self)@.direction
                } else {
                    d
                },
                ..old(self)@
            }),
    {
        let blocked = match d {
            Direction::Up => self.direction == Direction::Down,
            Direction::Down => self.direction == Direction::Up,
            Direction::Left => self.direction == Direction::Right,
            Direction::Right => self.direction == Direction::Left,
        };
        if !blocked {
            self.direction = d;
        }
    }

    /// Whether the snake, head included, lies on `p`.
    pub fn occupies(&self, p: Point) -> (b: bool)
        requires
            self.wf(),
        ensures
            b == self@.occupies(p),
    {
        if self.in_body(p) {
            return true;
        }
        let h = self.snake[self.head_idx];
        h.x == p.x && h.y == p.y
    }

    /// Whether the snake without its head lies on `p`.
    pub fn in_body(&self, p: Point) -> (b: bool)
        requires
            self.wf(),
        ensures
            b == self@.body().contains(p),
    {
        let mut i = self.tail_idx;
        let ghost ring = self.snake@;
        let ghost head = self.head_idx as int;
        let ghost tail = self.tail_idx as int;
        while i != self.head_idx
            invariant
                self.wf(),
                ring == self.snake@,
                head == self.head_idx,
                tail == self.tail_idx,
                0 <= i < RING,
                ring_cells(ring, tail, head) == ring_cells(ring, tail, i as int) + ring_cells(
                    ring,
                    i as int,
                    head,
                ),
                !ring_cells(ring, tail, i as int).contains(p),
            decreases ring_distance(i as int, head),
        {
            let c = self.snake[i];
            if c.x == p.x && c.y == p.y {
                proof {
                    let rest = ring_cells(ring, i as int, head);
                    assert(rest[0] == p);
                    let whole = ring_cells(ring, tail, head);
                    let k = ring_cells(ring, tail, i as int).len() as int;
                    assert(whole[k] == p);
                }
                return true;
            }
            proof {
                let before = ring_cells(ring, tail, i as int);
                let rest = ring_cells(ring, i as int, head);
                let after = ring_cells(ring, ring_next(i as int), head);
                assert(rest =~= seq![ring[i as int]] + after);
                lemma_ring_cells_wrap(ring, tail, i as int, head);
                lemma_ring_cells_last(ring, tail, i as int);
                assert(before.push(ring[i as int]) + after =~= before + rest);
                assert forall|k: int| 0 <= k < before.push(ring[i as int]).len()
                    implies before.push(
                    ring[i as int],
                )[k] != p by {
                    if k < before.len() {
                        assert(before.contains(before[k]));
                    }
                }
            }
            i = (i + 1) % RING;
        }
        proof {
            assert(ring_cells(ring, head, head) =~= Seq::<Point>::empty());
            assert(ring_cells(ring, tail, head) =~= ring_cells(ring, tail, i as int));
        }
        false
    }

    /// Places the food on a cell that the snake leaves free: the first free
    /// one of up to `SPAWN_TRIES` drawn cells, else the first free cell of the
    /// board.  Only on a board without a free cell does the food stay.
    pub fn spawn_food(&mut self)
        requires
            old(self).wf(),
        ensures
            final(self)@ == old(self)@.spawn_food(),
            final(self).wf(),
    {
        let mut tries: usize = SPAWN_TRIES;
        while tries > 0
            invariant
                self.wf(),
                tries <= SPAWN_TRIES,
                old(self)@.spawned(SPAWN_TRIES as nat) == self@.spawned(tries as nat),
                self@ == (GameState { rng_state: self@.rng_state, ..old(self)@ }),
            decreases tries,
        {
            let ghost before = self@;
            let x = (self.rand() % (WIDTH as u64)) as isize;
            let y = (self.rand() % (HEIGHT as u64)) as isize;
            let p = Point { x, y };
            assert(p == drawn_cell(before.rng_state));
            assert(self@.body() == before.body());
            if !self.occupies(p) {
                self.food = p;
                return ;
            }
            tries = tries - 1;
        }
        let mut cell: usize = 0;
        while cell < WIDTH * HEIGHT
            invariant
                self.wf(),
                cell <= WIDTH * HEIGHT,
                self@ == (GameState { rng_state: self@.rng_state, ..old(self)@ }),
                old(self)@.spawned(SPAWN_TRIES as nat) == self@.spawned(0),
                self@.first_free_from(0) == self@.first_free_from(cell as int),
            decreases WIDTH * HEIGHT - cell,
        {
            let p = Point { x: (cell % WIDTH) as isize, y: (cell / WIDTH) as isize };
            if !self.occupies(p) {
                self.food = p;
                return ;
            }
            cell = cell + 1;
        }
    }

    /// Moves the snake one cell in its direction.  Running into a wall or
    /// into its body ends the game; on the food it grows by one and new food
    /// is placed; else its tail follows.  A game that has ended stays as it is.
    pub fn step(&mut self)
        requires
            old(self).wf(),
        ensures
            final(self)@ == old(self)@.step(),
            final(self).wf(),
    {
        if self.game_over {
            return ;
        }
        let head = self.snake[self.head_idx];
        let next_head = match self.direction {
            Direction::Up => Point { x: head.x, y: head.y - 1 },
            Direction::Down => Point { x: head.x, y: head.y + 1 },
            Direction::Left => Point { x: head.x - 1, y: head.y },
            Direction::Right => Point { x: head.x + 1, y: head.y },
        };
        if next_head.x < 0 || next_head.x >= WIDTH as isize || next_head.y < 0 || next_head.y
            >= HEIGHT as isize {
            self.game_over = true;
            return ;
        }
        if self.in_body(next_head) {
            self.game_over = true;
            return ;
        }
        self.head_idx = (self.head_idx + 1) % RING;
        self.snake[self.head_idx] = next_head;
        if next_head.x == self.food.x && next_head.y == self.food.y {
            self.len = self.len.saturating_add(1);
            self.spawn_food();
        } else {
            self.tail_idx = (self.tail_idx + 1) % RING;
        }
    }

    /// Sets the direction to `d` and moves the snake one cell.
    pub fn step_towards(&mut self, d: Direction)
        requires
            old(self).wf(),
        ensures
            final(self)@ == (GameState {
                direction: if old(self)@.game_over {
                    old(self)@.direction
                } else {
                    d
                },
                ..old(self)@
            }).step(),
            final(self).wf(),
    {
        if self.game_over {
            return ;
        }
        self.direction = d;
        self.step();
    }

    /// The requests that paint the game.
    pub fn render(&self) -> (commands: Vec<DrawCommand>)
        requires
            self.wf(),
        ensures
            commands@ == self@.rendered(),
    {
        let mut commands: Vec<DrawCommand> = Vec::new();
        commands.push(draw_rect(0, 0, WIDTH * TILE_SIZE, HEIGHT * TILE_SIZE, COLOR_CLEAR));
        commands.push(draw_tile(self.food, COLOR_FOOD));
        let ghost prefix = commands@;
        let ghost ring = self.snake@;
        let ghost head = self.head_idx as int;
        let ghost tail = self.tail_idx as int;
        let mut i = self.tail_idx;
        while i != self.head_idx
            invariant
                self.wf(),
                ring == self.snake@,
                head == self.head_idx,
                tail == self.tail_idx,
                0 <= i < RING,
                ring_cells(ring, tail, head) == ring_cells(ring, tail, i as int) + ring_cells(
                    ring,
                    i as int,
                    head,
                ),
                commands@ == prefix + ring_cells(ring, tail, i as int).map_values(
                    |p: Point| tile(p, COLOR_BODY),
                ),
            decreases ring_distance(i as int, head),
        {
            let p = self.snake[i];
            commands.push(draw_tile(p, COLOR_BODY));
            proof {
                let before = ring_cells(ring, tail, i as int);
                let rest = ring_cells(ring, i as int, head);
                let after = ring_cells(ring, ring_next(i as int), head);
                assert(rest =~= seq![ring[i as int]] + after);
                lemma_ring_cells_wrap(ring, tail, i as int, head);
                lemma_ring_cells_last(ring, tail, i as int);
                assert(before.push(ring[i as int]) + after =~= before + rest);
                assert(before.push(ring[i as int]).map_values(|p: Point| tile(p, COLOR_BODY))
                    =~= before.map_values(|p: Point| tile(p, COLOR_BODY)).push(
                    tile(ring[i as int], COLOR_BODY),
                ));
            }
            i = (i + 1) % RING;
        }
        proof {
            assert(ring_cells(ring, head, head) =~= Seq::<Point>::empty());
            assert(ring_cells(ring, tail, head) =~= ring_cells(ring, tail, i as int));
        }
        commands.push(draw_tile(self.snake[self.head_idx], COLOR_HEAD));
        commands.push(flush_screen());
        proof {
            assert(commands@ =~= self@.rendered());
        }
        commands
    }
}

/// The reverse of a direction.
pub open spec fn opposite(d: Direction) -> Direction {
    match d {
        Direction::Up => Direction::Down,
        Direction::Down => Direction::Up,
        Direction::Left => Direction::Right,
        Direction::Right => Direction::Left,
    }
}

/// A walk from `tail` that has not met `head` yet has not come round: the
/// slot after the one it has reached is not `tail` again.
proof fn lemma_ring_cells_wrap(ring: Seq<Point>, tail: int, i: int, head: int)
    requires
        0 <= tail < RING,
        0 <= i < RING,
        0 <= head < RING,
        i != head,
        ring_cells(ring, tail, head) == ring_cells(ring, tail, i) + ring_cells(ring, i, head),
    ensures
        ring_next(i) != tail,
{
    lemma_ring_cells_len(ring, tail, head);
    lemma_ring_cells_len(ring, tail, i);
    lemma_ring_cells_len(ring, i, head);
}

/// A stretch of the ring holds as many cells as its ends are apart.
pub proof fn lemma_ring_cells_len(ring: Seq<Point>, from: int, to: int)
    requires
        0 <= from < RING,
        0 <= to < RING,
    ensures
        ring_cells(ring, from, to).len() == ring_distance(from, to),
    decreases ring_distance(from, to),
{
    if from != to {
        lemma_ring_cells_len(ring, ring_next(from), to);
    }
}

/// The kind of an input event that reports a key.
pub const EV_KEY: u16 = 1;

pub const KEY_UP: u16 = 103;

pub const KEY_LEFT: u16 = 105;

pub const KEY_RIGHT: u16 = 106;

pub const KEY_DOWN: u16 = 108;

/// The number of bytes of an input event.
pub const EVENT_BYTES: isize = 24;

/// The time between two moves of the snake, in milliseconds.
pub const FRAME_TIME: isize = 200;

/// The direction that an arrow key asks for.
pub open spec fn arrow(code: u16) -> Option<Direction> {
    if code == KEY_UP {
        Some(Direction::Up)
    } else if code == KEY_DOWN {
        Some(Direction::Down)
    } else if code == KEY_LEFT {
        Some(Direction::Left)
    } else if code == KEY_RIGHT {
        Some(Direction::Right)
    } else {
        None
    }
}

/// The direction after a `read` of the keyboard has answered `ret` and
/// left the event with the given parts: an arrow key that goes down turns
/// the snake, unless it asks for the reverse of the direction `dir`.
/// Anything but a whole event changes nothing.
pub open spec fn steered(dir: Direction, ret: isize, event_type: u16, code: u16,
    value: u32) -> Direction {
    if ret == EVENT_BYTES && event_type == EV_KEY && value == 1 && arrow(code) is Some
        && opposite(arrow(code)->0) != dir {
        arrow(code)->0
    } else {
        dir
    }
}

/// Decides the direction after a `read` of the keyboard.
pub fn input_handler(dir: Direction, ret: isize, event_type: u16, code: u16, value: u32) -> (d:
    Direction)
    ensures
        d == steered(dir, ret, event_type, code, value),
{
    if ret != EVENT_BYTES || event_type != EV_KEY || value != 1 {
        return dir;
    }
    if code == KEY_UP {
        match dir {
            Direction::Down => dir,
            _ => Direction::Up,
        }
    } else if code == KEY_DOWN {
        match dir {
            Direction::Up => dir,
            _ => Direction::Down,
        }
    } else if code == KEY_LEFT {
        match dir {
            Direction::Right => dir,
            _ => Direction::Left,
        }
    } else if code == KEY_RIGHT {
        match dir {
            Direction::Left => dir,
            _ => Direction::Right,
        }
    } else {
        dir
    }
}

/// Whether the snake is due to move at the time `now`, when it last moved
/// at `last_update`.
pub fn frame_due(now: isize, last_update: isize) -> (b: bool)
    ensures
        b == (now - last_update >= FRAME_TIME),
{
    now as i128 - last_update as i128 >= FRAME_TIME as i128
}

} // verus!
