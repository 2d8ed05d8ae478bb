//! The rules of a falling-blocks game on a grid of ten by twenty cells.
//!
//! The clock and the keys come from outside: every function that needs the
//! time takes it as an argument, in milliseconds.

use crate::context::{register_from, register_of};
use crate::graphics::fill_cells;
use crate::graphics::in_rect;
use vstd::prelude::*;

verus! {

/// The number of cells in a row of the grid.
pub const GRID_WIDTH: usize = 10;

/// The number of rows of the grid.
pub const GRID_HEIGHT: usize = 20;

/// The number of shapes.
pub const SHAPE_COUNT: usize = 7;

/// What a cell holds while no block lies in it.
pub const EMPTY: i32 = -1;

/// The time between two steps of a falling shape at the start, in milliseconds.
pub const FIRST_INTERVAL: isize = 1000;

/// The shortest time between two steps of a falling shape.
pub const SHORTEST_INTERVAL: isize = 200;

/// The column in which a new shape appears.
pub const SPAWN_COLUMN: i32 = 4;

/// A row of the grid: for each cell the number of the shape that left a
/// block there, or `EMPTY`.
pub type Row = [i32; 10];

/// The four blocks of the shape with the number `shape`, before any turn:
/// the shapes I, O, T, S, Z, J and L.
pub open spec fn shape_points(shape: int) -> Seq<(int, int)> {
    if shape == 0 {
        seq![(0, 0), (1, 0), (2, 0), (3, 0)]
    } else if shape == 1 {
        seq![(0, 0), (1, 0), (0, 1), (1, 1)]
    } else if shape == 2 {
        seq![(0, 0), (1, 0), (2, 0), (1, 1)]
    } else if shape == 3 {
        seq![(1, 0), (2, 0), (0, 1), (1, 1)]
    } else if shape == 4 {
        seq![(0, 0), (1, 0), (1, 1), (2, 1)]
    } else if shape == 5 {
        seq![(0, 0), (0, 1), (1, 1), (2, 1)]
    } else {
        seq![(2, 0), (0, 1), (1, 1), (2, 1)]
    }
}

/// The four blocks of the shape with the number `shape`.
pub fn shape_blocks(shape: usize) -> (points: [(i32, i32); 4])
    ensures
        forall|i: int|
            0 <= i < 4 ==> (#[trigger] points[i]).0 == shape_points(shape as int)[i].0
                && points[i].1 == shape_points(shape as int)[i].1,
{
    if shape == 0 {
        [(0, 0), (1, 0), (2, 0), (3, 0)]
    } else if shape == 1 {
        [(0, 0), (1, 0), (0, 1), (1, 1)]
    } else if shape == 2 {
        [(0, 0), (1, 0), (2, 0), (1, 1)]
    } else if shape == 3 {
        [(1, 0), (2, 0), (0, 1), (1, 1)]
    } else if shape == 4 {
        [(0, 0), (1, 0), (1, 1), (2, 1)]
    } else if shape == 5 {
        [(0, 0), (0, 1), (1, 1), (2, 1)]
    } else {
        [(2, 0), (0, 1), (1, 1), (2, 1)]
    }
}

/// The point `p` after `turns` quarter turns about the origin.
pub open spec fn turned(p: (int, int), turns: nat) -> (int, int)
    decreases turns,
{
    if turns == 0 {
        p
    } else {
        let q = turned(p, (turns - 1) as nat);
        (-q.1, q.0)
    }
}

/// The least of four numbers.
pub open spec fn least(a: int, b: int, c: int, d: int) -> int {
    let ab = if a <= b {
        a
    } else {
        b
    };
    let cd = if c <= d {
        c
    } else {
        d
    };
    if ab <= cd {
        ab
    } else {
        cd
    }
}

/// The blocks of a shape after `rotation` quarter turns, moved so that the
/// least column and the least row among them are zero.
pub open spec fn rotated_points(shape: int, rotation: nat) -> Seq<(int, int)> {
    let raw = Seq::new(4, |i: int| turned(shape_points(shape)[i], rotation));
    let min_x = least(raw[0].0, raw[1].0, raw[2].0, raw[3].0);
    let min_y = least(raw[0].1, raw[1].1, raw[2].1, raw[3].1);
    Seq::new(4, |i: int| (raw[i].0 - min_x, raw[i].1 - min_y))
}

fn least_of(a: i32, b: i32, c: i32, d: i32) -> (m: i32)
    ensures
        m == least(a as int, b as int, c as int, d as int),
{
    let ab: i32 = if a <= b {
        a
    } else {
        b
    };
    let cd: i32 = if c <= d {
        c
    } else {
        d
    };
    if ab <= cd {
        ab
    } else {
        cd
    }
}

/// The blocks of the shape `shape_idx` after `rotation` quarter turns.
pub fn get_rotated_points(shape_idx: usize, rotation: usize) -> (points: [(i32, i32); 4])
    ensures
        forall|i: int|
            0 <= i < 4 ==> (#[trigger] points[i]).0 == rotated_points(
                shape_idx as int,
                rotation as nat,
            )[i].0 && points[i].1 == rotated_points(shape_idx as int, rotation as nat)[i].1,
        forall|i: int| 0 <= i < 4 ==> 0 <= (#[trigger] points[i]).0 <= 6 && 0 <= points[i].1 <= 6,
{
    let mut points = shape_blocks(shape_idx);
    let mut done: usize = 0;
    while done < rotation
        invariant
            done <= rotation,
            forall|i: int|
                0 <= i < 4 ==> (#[trigger] points[i]).0 == turned(
                    shape_points(shape_idx as int)[i],
                    done as nat,
                ).0 && points[i].1 == turned(shape_points(shape_idx as int)[i], done as nat).1,
            forall|i: int|
                0 <= i < 4 ==> -3 <= (#[trigger] points[i]).0 <= 3 && -3 <= points[i].1 <= 3,
        decreases rotation - done,
    {
        let p0 = points[0];
        let p1 = points[1];
        let p2 = points[2];
        let p3 = points[3];
        points = [(-p0.1, p0.0), (-p1.1, p1.0), (-p2.1, p2.0), (-p3.1, p3.0)];
        done = done + 1;
    }
    let min_x = least_of(points[0].0, points[1].0, points[2].0, points[3].0);
    let min_y = least_of(points[0].1, points[1].1, points[2].1, points[3].1);
    let p0 = points[0];
    let p1 = points[1];
    let p2 = points[2];
    let p3 = points[3];
    [
        (p0.0 - min_x, p0.1 - min_y),
        (p1.0 - min_x, p1.1 - min_y),
        (p2.0 - min_x, p2.1 - min_y),
        (p3.0 - min_x, p3.1 - min_y),
    ]
}

/// The points that a number of lines cleared at once is worth.
pub open spec fn line_score(lines: int) -> int {
    if lines <= 0 {
        0
    } else if lines == 1 {
        100
    } else if lines == 2 {
        300
    } else if lines == 3 {
        500
    } else {
        800
    }
}

/// The time between two steps of a falling shape at a score of `score`:
/// fifty milliseconds less for every five hundred points, and never under
/// the shortest.
pub open spec fn interval_for(score: int) -> int {
    if FIRST_INTERVAL - (score / 500) * 50 >= SHORTEST_INTERVAL {
        FIRST_INTERVAL - (score / 500) * 50
    } else {
        SHORTEST_INTERVAL as int
    }
}

/// The shape that the clock picks at the time `now`.
pub open spec fn shape_at(now: isize) -> usize {
    (register_of(now) % SHAPE_COUNT) as usize
}

/// Whether no cell of the row is empty.
pub open spec fn full(row: Seq<i32>) -> bool {
    forall|c: int| 0 <= c < GRID_WIDTH ==> #[trigger] row[c] != EMPTY
}

/// A row without blocks.
pub open spec fn empty_row() -> Seq<i32> {
    Seq::new(GRID_WIDTH as nat, |c: int| EMPTY)
}

/// Row `i` of the grid; the rows above the grid are empty.
pub open spec fn row_at(grid: Seq<Seq<i32>>, i: int) -> Seq<i32> {
    if i < 0 {
        empty_row()
    } else {
        grid[i]
    }
}

/// The number of full rows from row `from` down.
pub open spec fn full_from(grid: Seq<Seq<i32>>, from: int) -> int
    decreases GRID_HEIGHT - from,
{
    if from >= GRID_HEIGHT {
        0
    } else if from >= 0 && full(grid[from]) {
        1 + full_from(grid, from + 1)
    } else {
        full_from(grid, from + 1)
    }
}

/// The rows from row `from` down that are not full, in their order.
pub open spec fn kept_from(grid: Seq<Seq<i32>>, from: int) -> Seq<Seq<i32>>
    decreases GRID_HEIGHT - from,
{
    if from >= GRID_HEIGHT {
        Seq::empty()
    } else if from >= 0 && full(grid[from]) {
        kept_from(grid, from + 1)
    } else {
        seq![row_at(grid, from)] + kept_from(grid, from + 1)
    }
}

/// The grid after its full rows are taken out: the other rows sink to the
/// bottom in their order, and as many empty rows come in at the top.
pub open spec fn cleared(grid: Seq<Seq<i32>>) -> Seq<Seq<i32>> {
    kept_from(grid, -full_from(grid, 0))
}

/// The grid with the block `value` in the cell `(x, y)`; nothing changes
/// for a cell above the grid.
pub open spec fn put(grid: Seq<Seq<i32>>, x: int, y: int, value: i32) -> Seq<Seq<i32>> {
    if y >= 0 {
        grid.update(y, grid[y].update(x, value))
    } else {
        grid
    }
}

/// Whether the grid has twenty rows of ten cells.
pub open spec fn grid_ok(grid: Seq<Seq<i32>>) -> bool {
    &&& grid.len() == GRID_HEIGHT
    &&& forall|r: int| 0 <= r < GRID_HEIGHT ==> (#[trigger] grid[r]).len() == GRID_WIDTH
}

/// As many rows are kept as are not full.
pub proof fn lemma_kept_len(grid: Seq<Seq<i32>>, from: int)
    requires
        from <= GRID_HEIGHT,
    ensures
        kept_from(grid, from).len() + full_from(grid, from) == GRID_HEIGHT - from,
        0 <= full_from(grid, from),
        from >= 0 ==> full_from(grid, from) <= GRID_HEIGHT - from,
        from < 0 ==> full_from(grid, from) == full_from(grid, 0),
    decreases GRID_HEIGHT - from,
{
    if from < GRID_HEIGHT {
        lemma_kept_len(grid, from + 1);
    }
}

/// Clearing leaves a grid of the same size without a full row.
pub proof fn lemma_cleared(grid: Seq<Seq<i32>>)
    requires
        grid_ok(grid),
    ensures
        grid_ok(cleared(grid)),
        forall|r: int| 0 <= r < GRID_HEIGHT ==> !full(#[trigger] cleared(grid)[r]),
{
    lemma_kept_len(grid, 0);
    lemma_kept_rows(grid, -full_from(grid, 0));
    lemma_kept_len(grid, -full_from(grid, 0));
}

/// Every row that is kept has ten cells and is not full.
pub proof fn lemma_kept_rows(grid: Seq<Seq<i32>>, from: int)
    requires
        grid_ok(grid),
        from <= GRID_HEIGHT,
    ensures
        forall|r: int|
            0 <= r < kept_from(grid, from).len() ==> (#[trigger] kept_from(grid, from)[r]).len()
                == GRID_WIDTH && !full(kept_from(grid, from)[r]),
    decreases GRID_HEIGHT - from,
{
    if from < GRID_HEIGHT {
        lemma_kept_rows(grid, from + 1);
        assert(empty_row()[0] == EMPTY);
        let rest = kept_from(grid, from + 1);
        if !(from >= 0 && full(grid[from])) {
            let first = row_at(grid, from);
            assert(first.len() == GRID_WIDTH && !full(first));
            assert forall|r: int| 0 <= r < kept_from(grid, from).len() implies (
            #[trigger] kept_from(grid, from)[r]).len() == GRID_WIDTH && !full(
                kept_from(grid, from)[r],
            ) by {
                if r > 0 {
                    assert(kept_from(grid, from)[r] == rest[r - 1]);
                } else {
                    assert(kept_from(grid, from)[r] == first);
                }
            }
        }
    }
}

/// When every full row of the grid is one of `rows`, there are at most as
/// many full rows as `rows` has members.
pub proof fn lemma_full_rows_among(grid: Seq<Seq<i32>>, from: int, rows: Set<int>)
    requires
        0 <= from <= GRID_HEIGHT,
        rows.finite(),
        forall|r: int| from <= r < GRID_HEIGHT && full(#[trigger] grid[r]) ==> rows.contains(r),
    ensures
        full_from(grid, from) <= rows.len(),
    decreases GRID_HEIGHT - from,
{
    if from < GRID_HEIGHT {
        if full(grid[from]) {
            assert(rows.contains(from));
            lemma_full_rows_among(grid, from + 1, rows.remove(from));
        } else {
            lemma_full_rows_among(grid, from + 1, rows);
        }
    }
}

/// The cell of block `i` of the shape `shape` when it lies at `(x, y)`
/// after `rotation` turns.
pub open spec fn block_at(shape: usize, x: int, y: int, rotation: nat, i: int) -> (int, int) {
    (x + rotated_points(shape as int, rotation)[i].0, y + rotated_points(shape as int,
        rotation)[i].1)
}

/// Whether a block cannot lie in the cell `(x, y)`: the cell is beside or
/// under the grid, or a block lies there already.  The cells above the
/// grid are free.
pub open spec fn blocked_in(grid: Seq<Seq<i32>>, x: int, y: int) -> bool {
    x < 0 || x >= GRID_WIDTH || y >= GRID_HEIGHT || (y >= 0 && grid[y][x] != EMPTY)
}

/// Whether the shape `shape` cannot lie at `(x, y)` after `rotation` turns.
pub open spec fn collides_in(grid: Seq<Seq<i32>>, shape: usize, x: int, y: int,
    rotation: nat) -> bool {
    exists|i: int|
        0 <= i < 4 && blocked_in(
            grid,
            (#[trigger] block_at(shape, x, y, rotation, i)).0,
            block_at(shape, x, y, rotation, i).1,
        )
}

/// What the game is at one moment.
pub struct Board {
    /// The rows of the grid from the top.
    pub grid: Seq<Seq<i32>>,
    pub score: usize,
    pub game_over: bool,
    /// The column and the row of the falling shape.
    pub x: int,
    pub y: int,
    /// The number of the falling shape, and how often it has been turned.
    pub shape: usize,
    pub rotation: usize,
    /// The number of the shape that comes next.
    pub next_shape: usize,
    /// When the falling shape last went down.
    pub last_move_time: isize,
    /// The time between two steps of the falling shape.
    pub move_interval: isize,
}

impl Board {
    /// Whether the falling shape cannot lie at `(x, y)` after `rotation` turns.
    pub open spec fn collides(self, x: int, y: int, rotation: nat) -> bool {
        collides_in(self.grid, self.shape, x, y, rotation)
    }

    /// Whether every block of the falling shape lies in a cell of the grid.
    pub open spec fn inside(self) -> bool {
        forall|i: int|
            0 <= i < 4 ==> 0 <= (#[trigger] block_at(self.shape, self.x, self.y,
                self.rotation as nat, i)).0
                < GRID_WIDTH && 0 <= block_at(self.shape, self.x, self.y, self.rotation as nat, i).1
                < GRID_HEIGHT
    }

    /// The invariant of the game: the grid has its size and no full row,
    /// its cells hold numbers of shapes, and the falling shape is one of
    /// the seven and lies inside the grid.
    pub open spec fn wf(self) -> bool {
        &&& grid_ok(self.grid)
        &&& forall|r: int| 0 <= r < GRID_HEIGHT ==> !full(#[trigger] self.grid[r])
        &&& forall|r: int, c: int|
            0 <= r < GRID_HEIGHT && 0 <= c < GRID_WIDTH ==> EMPTY <= #[trigger] self.grid[r][c]
                < SHAPE_COUNT
        &&& self.shape < SHAPE_COUNT
        &&& self.next_shape < SHAPE_COUNT
        &&& self.rotation < 4
        &&& self.y >= 0
        &&& self.inside()
    }

    /// The grid after the falling shape has left its four blocks in it.
    pub open spec fn placed(self) -> Seq<Seq<i32>> {
        let p0 = block_at(self.shape, self.x, self.y, self.rotation as nat, 0);
        let p1 = block_at(self.shape, self.x, self.y, self.rotation as nat, 1);
        let p2 = block_at(self.shape, self.x, self.y, self.rotation as nat, 2);
        let p3 = block_at(self.shape, self.x, self.y, self.rotation as nat, 3);
        let v = self.shape as i32;
        put(put(put(put(self.grid, p0.0, p0.1, v), p1.0, p1.1, v), p2.0, p2.1, v), p3.0, p3.1, v)
    }

    /// The game after the full rows are cleared: each is worth points, and
    /// with the points the shapes fall faster.
    pub open spec fn with_lines_cleared(self) -> Board {
        let lines = full_from(self.grid, 0);
        let score = (self.score + line_score(lines)) as usize;
        Board {
            grid: cleared(self.grid),
            score: if lines > 0 {
                score
            } else {
                self.score
            },
            move_interval: if lines > 0 {
                interval_for(score as int) as isize
            } else {
                self.move_interval
            },
            ..self
        }
    }

    /// The game after the next shape has appeared at the top, at the time
    /// `now`.  The game is over if there is no room for it.
    pub open spec fn spawn(self, now: isize) -> Board {
        let fresh = Board {
            shape: self.next_shape,
            next_shape: shape_at(now),
            x: SPAWN_COLUMN as int,
            y: 0,
            rotation: 0,
            last_move_time: now,
            ..self
        };
        Board { game_over: self.game_over || fresh.collides(SPAWN_COLUMN as int, 0, 0), ..fresh }
    }

    /// The game after the falling shape has come to rest.
    pub open spec fn lock_shape(self, now: isize) -> Board {
        Board { grid: self.placed(), ..self }.with_lines_cleared().spawn(now)
    }

    /// The game after the falling shape has gone down one row, or has come
    /// to rest where it cannot.
    pub open spec fn move_down(self, now: isize) -> Board {
        if !self.collides(self.x, self.y + 1, self.rotation as nat) {
            Board { y: self.y + 1, last_move_time: now, ..self }
        } else {
            Board { last_move_time: now, ..self.lock_shape(now) }
        }
    }

    /// The game after the falling shape has moved by `dx` columns, if it can.
    pub open spec fn shift(self, dx: int) -> Board {
        if !self.collides(self.x + dx, self.y, self.rotation as nat) {
            Board { x: self.x + dx, ..self }
        } else {
            self
        }
    }

    /// The game after the falling shape has made a quarter turn, if it can.
    pub open spec fn rotate(self) -> Board {
        let next = ((self.rotation + 1) % 4) as usize;
        if !self.collides(self.x, self.y, next as nat) {
            Board { rotation: next, ..self }
        } else {
            self
        }
    }

    /// The lowest row at or under `y` to which the falling shape can go
    /// down without meeting anything on its way.
    pub open spec fn landing(self, y: int) -> int
        decreases GRID_HEIGHT - y,
    {
        if y < GRID_HEIGHT && !self.collides(self.x, y + 1, self.rotation as nat) {
            self.landing(y + 1)
        } else {
            y
        }
    }

    /// The game after the falling shape has dropped as far as it can and
    /// come to rest.
    pub open spec fn hard_drop(self, now: isize) -> Board {
        Board { y: self.landing(self.y), ..self }.lock_shape(now)
    }
}

/// The rows of a grid as sequences of cells.
pub open spec fn rows(grid: Seq<Row>) -> Seq<Seq<i32>> {
    Seq::new(grid.len(), |r: int| grid[r]@)
}

/// The game.
pub struct TetrisGame {
    pub grid: Vec<Row>,
    pub score: usize,
    pub game_over: bool,
    pub current_x: i32,
    pub current_y: i32,
    pub current_shape_idx: usize,
    pub current_rotation: usize,
    pub next_shape_idx: usize,
    pub last_move_time: isize,
    pub move_interval: isize,
}

impl View for TetrisGame {
    type V = Board;

    open spec fn view(&self) -> Board {
        Board {
            grid: rows(self.grid@),
            score: self.score,
            game_over: self.game_over,
            x: self.current_x as int,
            y: self.current_y as int,
            shape: self.current_shape_idx,
            rotation: self.current_rotation,
            next_shape: self.next_shape_idx,
            last_move_time: self.last_move_time,
            move_interval: self.move_interval,
        }
    }
}

/// The number of the shape that the clock picks at the time `now`.
pub fn pick_shape(now: isize) -> (shape: usize)
    ensures
        shape == shape_at(now),
        shape < SHAPE_COUNT,
{
    register_from(now) % SHAPE_COUNT
}

/// The points for `lines` lines cleared at once.
pub fn score_for(lines: usize) -> (points: usize)
    ensures
        points == line_score(lines as int),
{
    if lines == 0 {
        0
    } else if lines == 1 {
        100
    } else if lines == 2 {
        300
    } else if lines == 3 {
        500
    } else {
        800
    }
}

/// The time between two steps of a falling shape at a score of `score`.
pub fn interval_at(score: usize) -> (interval: isize)
    ensures
        interval == interval_for(score as int),
{
    let steps = score / 500;
    if steps >= 16 {
        SHORTEST_INTERVAL
    } else {
        let less: isize = steps as isize * 50;
        FIRST_INTERVAL - less
    }
}

impl TetrisGame {
    pub open spec fn wf(&self) -> bool {
        self@.wf()
    }

    /// Whether the falling shape cannot lie at `(x, y)` after `rotation`
    /// quarter turns.
    pub fn check_collision(&self, x: i32, y: i32, rotation: usize) -> (hit: bool)
        requires
            grid_ok(self@.grid),
        ensures
            hit == self@.collides(x as int, y as int, rotation as nat),
    {
        let points = get_rotated_points(self.current_shape_idx, rotation);
        let mut i: usize = 0;
        while i < 4
            invariant
                i <= 4,
                grid_ok(self@.grid),
                forall|k: int|
                    0 <= k < 4 ==> (#[trigger] points[k]).0 == rotated_points(
                        self.current_shape_idx as int,
                        rotation as nat,
                    )[k].0 && points[k].1 == rotated_points(
                        self.current_shape_idx as int,
                        rotation as nat,
                    )[k].1,
                forall|k: int|
                    0 <= k < 4 ==> 0 <= (#[trigger] points[k]).0 <= 6 && 0 <= points[k].1 <= 6,
                forall|k: int|
                    0 <= k < i ==> !blocked_in(self@.grid, 
                        (#[trigger] block_at(self@.shape, x as int, y as int, rotation as nat,
                            k)).0,
                        block_at(self@.shape, x as int, y as int, rotation as nat, k).1,
                    ),
            decreases 4 - i,
        {
            let p = points[i];
            let nx: i64 = x as i64 + p.0 as i64;
            let ny: i64 = y as i64 + p.1 as i64;
            proof {
                assert(block_at(self@.shape, x as int, y as int, rotation as nat, i as int) == (
                    nx as int,
                    ny as int,
                ));
            }
            if nx < 0 || nx >= 10 || ny >= 20 {
                return true;
            }
            if ny >= 0 {
                let row = self.grid[ny as usize];
                if row[nx as usize] != EMPTY {
                    return true;
                }
            }
            i = i + 1;
        }
        false
    }

    fn put_block(&mut self, x: usize, y: usize, value: i32)
        requires
            grid_ok(old(self)@.grid),
            x < GRID_WIDTH,
            y < GRID_HEIGHT,
        ensures
            final(self)@ == (Board {
                grid: put(old(self)@.grid, x as int, y as int, value),
                ..old(self)@
            }),
    {
        let mut row = self.grid[y];
        row[x] = value;
        self.grid.set(y, row);
        proof {
            assert(self@.grid =~= put(old(self)@.grid, x as int, y as int, value));
        }
    }

    fn is_full(&self, r: usize) -> (b: bool)
        requires
            r < self.grid@.len(),
        ensures
            b == full(self@.grid[r as int]),
    {
        let row = self.grid[r];
        let mut c: usize = 0;
        while c < 10
            invariant
                c <= 10,
                row@ == self@.grid[r as int],
                forall|k: int| 0 <= k < c ==> #[trigger] row@[k] != EMPTY,
            decreases 10 - c,
        {
            if row[c] == EMPTY {
                return false;
            }
            c = c + 1;
        }
        true
    }

    /// Moves the rows above row `r` down by one, over row `r`, and puts an
    /// empty row at the top.
    fn drop_rows(&mut self, r: usize)
        requires
            grid_ok(old(self)@.grid),
            r < GRID_HEIGHT,
        ensures
            grid_ok(final(self)@.grid),
            final(self)@ == (Board { grid: final(self)@.grid, ..old(self)@ }),
            final(self)@.grid[0] == empty_row(),
            forall|i: int| 1 <= i <= r ==> #[trigger] final(self)@.grid[i]
                == old(self)@.grid[i - 1],
            forall|i: int|
                r < i < GRID_HEIGHT ==> #[trigger] final(self)@.grid[i] == old(self)@.grid[i],
    {
        let mut row: usize = r;
        while row >= 1
            invariant
                row <= r < GRID_HEIGHT,
                self.grid@.len() == GRID_HEIGHT,
                self@ == (Board { grid: self@.grid, ..old(self)@ }),
                forall|i: int| 0 <= i <= row ==> #[trigger] self.grid@[i] == old(self).grid@[i],
                forall|i: int| row < i <= r ==> #[trigger] self.grid@[i] == old(self).grid@[i - 1],
                forall|i: int|
                    r < i < GRID_HEIGHT ==> #[trigger] self.grid@[i] == old(self).grid@[i],
            decreases row,
        {
            let above = self.grid[row - 1];
            self.grid.set(row, above);
            row = row - 1;
        }
        self.grid.set(0, [EMPTY; 10]);
        proof {
            assert(self@.grid[0] =~= empty_row());
            assert forall|i: int| 1 <= i <= r implies #[trigger] self@.grid[i] == old(
                self,
            )@.grid[i - 1] by {
                assert(self.grid@[i] == old(self).grid@[i - 1]);
            }
            assert forall|i: int| r < i < GRID_HEIGHT implies #[trigger] self@.grid[i] == old(
                self,
            )@.grid[i] by {
                assert(self.grid@[i] == old(self).grid@[i]);
            }
        }
    }

    /// Takes the full rows out of the grid and counts the points for them.
    pub fn clear_lines(&mut self)
        requires
            grid_ok(old(self)@.grid),
            full_from(old(self)@.grid, 0) <= 4,
            old(self).score + 800 <= usize::MAX,
        ensures
            final(self)@ == old(self)@.with_lines_cleared(),
    {
        let ghost g0 = self@.grid;
        let mut lines: usize = 0;
        let mut r: i32 = 19;
        proof {
            lemma_kept_len(g0, 0);
            assert(self@.grid.subrange(20, 20) =~= kept_from(g0, 20));
        }
        while r >= 0
            invariant
                -1 <= r < GRID_HEIGHT,
                grid_ok(g0),
                grid_ok(self@.grid),
                self@ == (Board { grid: self@.grid, ..old(self)@ }),
                full_from(g0, 0) <= 4,
                forall|i: int| 0 <= i <= r ==> #[trigger] self@.grid[i] == row_at(g0, i - lines),
                self@.grid.subrange(r + 1, GRID_HEIGHT as int) == kept_from(g0, r - lines + 1),
                lines == full_from(
                    g0,
                    if r - lines + 1 >= 0 {
                        r - lines + 1
                    } else {
                        0
                    },
                ),
                lines <= 4,
            decreases r - lines + 5,
        {
            let ghost before = self@.grid;
            let ghost s = r - lines;
            proof {
                assert(empty_row()[0] == EMPTY);
                lemma_kept_len(g0, 0);
                if s >= 0 {
                    lemma_kept_len(g0, s);
                    lemma_kept_len(g0, s + 1);
                    lemma_full_from_falls(g0, s);
                }
            }
            if self.is_full(r as usize) {
                self.drop_rows(r as usize);
                lines = lines + 1;
                proof {
                    assert(self@.grid.subrange(r + 1, GRID_HEIGHT as int) =~= before.subrange(
                        r + 1,
                        GRID_HEIGHT as int,
                    ));
                }
            } else {
                proof {
                    assert(self@.grid.subrange(r as int, GRID_HEIGHT as int) =~= seq![
                        row_at(g0, s),
                    ] + self@.grid.subrange(r + 1, GRID_HEIGHT as int));
                }
                r = r - 1;
            }
        }
        proof {
            assert(self@.grid =~= self@.grid.subrange(0, GRID_HEIGHT as int));
        }
        if lines > 0 {
            self.score = self.score + score_for(lines);
            self.move_interval = interval_at(self.score);
        }
    }

    /// Lets the next shape appear at the top, at the time `now`.  The game
    /// is over if there is no room for it.
    pub fn spawn(&mut self, now: isize)
        requires
            grid_ok(old(self)@.grid),
        ensures
            final(self)@ == old(self)@.spawn(now),
    {
        self.current_shape_idx = self.next_shape_idx;
        self.next_shape_idx = pick_shape(now);
        self.current_x = SPAWN_COLUMN;
        self.current_y = 0;
        self.current_rotation = 0;
        if self.check_collision(self.current_x, self.current_y, 0) {
            self.game_over = true;
        }
        self.last_move_time = now;
    }

    /// Leaves the blocks of the falling shape in the grid, clears the full
    /// rows and lets the next shape appear.
    pub fn lock_shape(&mut self, now: isize)
        requires
            old(self).wf(),
            old(self).score + 800 <= usize::MAX,
        ensures
            final(self)@ == old(self)@.lock_shape(now),
            final(self).wf(),
    {
        let points = get_rotated_points(self.current_shape_idx, self.current_rotation);
        let ghost b = self@;
        let ghost rot = self.current_rotation as nat;
        let value = self.current_shape_idx as i32;
        proof {
            assert(block_at(b.shape, b.x, b.y, rot, 0).0 == b.x + points[0].0);
            assert(block_at(b.shape, b.x, b.y, rot, 1).0 == b.x + points[1].0);
            assert(block_at(b.shape, b.x, b.y, rot, 2).0 == b.x + points[2].0);
            assert(block_at(b.shape, b.x, b.y, rot, 3).0 == b.x + points[3].0);
        }
        let x0 = (self.current_x + points[0].0) as usize;
        let y0 = (self.current_y + points[0].1) as usize;
        let x1 = (self.current_x + points[1].0) as usize;
        let y1 = (self.current_y + points[1].1) as usize;
        let x2 = (self.current_x + points[2].0) as usize;
        let y2 = (self.current_y + points[2].1) as usize;
        let x3 = (self.current_x + points[3].0) as usize;
        let y3 = (self.current_y + points[3].1) as usize;
        self.put_block(x0, y0, value);
        self.put_block(x1, y1, value);
        self.put_block(x2, y2, value);
        self.put_block(x3, y3, value);
        proof {
            lemma_placed(b);
        }
        self.clear_lines();
        proof {
            lemma_cleared(b.placed());
            lemma_kept_len(b.placed(), 0);
            lemma_kept_cells(b.placed(), -full_from(b.placed(), 0));
        }
        self.spawn(now);
        proof {
            lemma_spawned_inside(
                Board { grid: b.placed(), ..b }.with_lines_cleared(),
                now,
            );
        }
    }

    /// A new game at the time `now`: an empty grid, the first shape at the
    /// top, no points.
    pub fn new(now: isize) -> (game: Self)
        ensures
            game@ == Board::start(now),
            game.wf(),
    {
        let mut grid: Vec<Row> = Vec::new();
        let mut r: usize = 0;
        while r < GRID_HEIGHT
            invariant
                r <= GRID_HEIGHT,
                grid@.len() == r,
                forall|i: int| 0 <= i < r ==> (#[trigger] grid@[i])@ == empty_row(),
            decreases GRID_HEIGHT - r,
        {
            let row: Row = [EMPTY; 10];
            assert(row@ =~= empty_row());
            grid.push(row);
            r = r + 1;
        }
        let mut game = TetrisGame {
            grid,
            score: 0,
            game_over: false,
            current_x: 0,
            current_y: 0,
            current_shape_idx: 0,
            current_rotation: 0,
            next_shape_idx: 0,
            last_move_time: now,
            move_interval: FIRST_INTERVAL,
        };
        proof {
            assert(game@.grid =~= Board::start(now).grid);
            lemma_start(now);
        }
        let ghost before = game@;
        game.spawn(now);
        proof {
            lemma_spawned_inside(before, now);
        }
        game
    }

    /// Lets the falling shape go down one row, or come to rest where it
    /// cannot go on.
    pub fn move_down(&mut self, now: isize)
        requires
            old(self).wf(),
            old(self).score + 800 <= usize::MAX,
        ensures
            final(self)@ == old(self)@.move_down(now),
            final(self).wf(),
    {
        proof {
            lemma_reach(self@);
        }
        if !self.check_collision(self.current_x, self.current_y + 1, self.current_rotation) {
            proof {
                lemma_free_is_inside(self@, self@.x, self@.y + 1, self@.rotation as nat);
            }
            self.current_y = self.current_y + 1;
        } else {
            self.lock_shape(now);
        }
        self.last_move_time = now;
    }

    /// Moves the falling shape one column to the left, if it can go there.
    pub fn move_left(&mut self)
        requires
            old(self).wf(),
        ensures
            final(self)@ == old(self)@.shift(-1),
            final(self).wf(),
    {
        proof {
            lemma_reach(self@);
        }
        if !self.check_collision(self.current_x - 1, self.current_y, self.current_rotation) {
            proof {
                lemma_free_is_inside(self@, self@.x - 1, self@.y, self@.rotation as nat);
            }
            self.current_x = self.current_x - 1;
        }
    }

    /// Moves the falling shape one column to the right, if it can go there.
    pub fn move_right(&mut self)
        requires
            old(self).wf(),
        ensures
            final(self)@ == old(self)@.shift(1),
            final(self).wf(),
    {
        proof {
            lemma_reach(self@);
        }
        if !self.check_collision(self.current_x + 1, self.current_y, self.current_rotation) {
            proof {
                lemma_free_is_inside(self@, self@.x + 1, self@.y, self@.rotation as nat);
            }
            self.current_x = self.current_x + 1;
        }
    }

    /// Turns the falling shape by a quarter, if it has room.
    pub fn rotate(&mut self)
        requires
            old(self).wf(),
        ensures
            final(self)@ == old(self)@.rotate(),
            final(self).wf(),
    {
        let next_rotation = (self.current_rotation + 1) % 4;
        if !self.check_collision(self.current_x, self.current_y, next_rotation) {
            proof {
                lemma_free_is_inside(self@, self@.x, self@.y, next_rotation as nat);
            }
            self.current_rotation = next_rotation;
        }
    }

    /// Drops the falling shape as far as it can go and lets it come to rest.
    pub fn hard_drop(&mut self, now: isize)
        requires
            old(self).wf(),
            old(self).score + 800 <= usize::MAX,
        ensures
            final(self)@ == old(self)@.hard_drop(now),
            final(self).wf(),
    {
        proof {
            lemma_reach(self@);
        }
        while !self.check_collision(self.current_x, self.current_y + 1, self.current_rotation)
            invariant
                self.wf(),
                self@ == (Board { y: self@.y, ..old(self)@ }),
                self@.landing(self@.y) == old(self)@.landing(old(self)@.y),
                self@.y < GRID_HEIGHT,
            decreases GRID_HEIGHT - self.current_y,
        {
            proof {
                lemma_free_is_inside(self@, self@.x, self@.y + 1, self@.rotation as nat);
                lemma_landing_same(self@, old(self)@, self@.y);
                lemma_landing_same(self@, old(self)@, self@.y + 1);
            }
            self.current_y = self.current_y + 1;
            proof {
                lemma_reach(self@);
                lemma_landing_same(self@, old(self)@, self@.y);
            }
        }
        proof {
            lemma_landing_same(self@, old(self)@, self@.y);
            assert(self@.landing(self@.y) == self@.y);
        }
        self.lock_shape(now);
    }
}

impl Board {
    /// The game at its start, at the time `now`.
    pub open spec fn start(now: isize) -> Board {
        Board {
            grid: Seq::new(GRID_HEIGHT as nat, |r: int| empty_row()),
            score: 0,
            game_over: false,
            x: SPAWN_COLUMN as int,
            y: 0,
            shape: 0,
            rotation: 0,
            next_shape: shape_at(now),
            last_move_time: now,
            move_interval: FIRST_INTERVAL,
        }
    }
}

/// Where a falling shape lands does not depend on the row it is in now.
pub proof fn lemma_landing_same(a: Board, b: Board, y: int)
    requires
        a == (Board { y: a.y, ..b }),
    ensures
        a.landing(y) == b.landing(y),
    decreases GRID_HEIGHT - y,
{
    if y < GRID_HEIGHT && !a.collides(a.x, y + 1, a.rotation as nat) {
        lemma_landing_same(a, b, y + 1);
    }
}

/// The blocks of a shape that has been moved to the corner lie in the
/// first seven columns and rows.
pub proof fn lemma_rotated_points(shape: int, rotation: nat)
    ensures
        forall|i: int|
            0 <= i < 4 ==> 0 <= (#[trigger] rotated_points(shape, rotation)[i]).0 && 0
                <= rotated_points(shape, rotation)[i].1,
{
}

/// A falling shape inside the grid is at most six columns to the left of
/// it and at most in its last row.
pub proof fn lemma_reach(b: Board)
    requires
        b.wf(),
    ensures
        -10 <= b.x < GRID_WIDTH,
        0 <= b.y < GRID_HEIGHT,
{
    lemma_rotated_points(b.shape as int, b.rotation as nat);
    let p = block_at(b.shape, b.x, b.y, b.rotation as nat, 0);
    assert(0 <= p.0 < GRID_WIDTH);
    assert(0 <= p.1 < GRID_HEIGHT);
    lemma_turned_bound(shape_points(b.shape as int)[0], b.rotation as nat, 3);
    lemma_turned_bound(shape_points(b.shape as int)[1], b.rotation as nat, 3);
    lemma_turned_bound(shape_points(b.shape as int)[2], b.rotation as nat, 3);
    lemma_turned_bound(shape_points(b.shape as int)[3], b.rotation as nat, 3);
}

/// A quarter turn keeps a point as near to the origin as it was.
pub proof fn lemma_turned_bound(p: (int, int), turns: nat, bound: int)
    requires
        -bound <= p.0 <= bound,
        -bound <= p.1 <= bound,
    ensures
        -bound <= turned(p, turns).0 <= bound,
        -bound <= turned(p, turns).1 <= bound,
    decreases turns,
{
    if turns > 0 {
        lemma_turned_bound(p, (turns - 1) as nat, bound);
    }
}

/// A shape that does not collide where it lies, at or under the top row,
/// is inside the grid.
pub proof fn lemma_free_is_inside(b: Board, x: int, y: int, rotation: nat)
    requires
        y >= 0,
        !b.collides(x, y, rotation),
    ensures
        forall|i: int|
            0 <= i < 4 ==> 0 <= (#[trigger] block_at(b.shape, x, y, rotation, i)).0 < GRID_WIDTH
                && 0
                <= block_at(b.shape, x, y, rotation, i).1 < GRID_HEIGHT,
{
    lemma_rotated_points(b.shape as int, rotation);
    assert forall|i: int| 0 <= i < 4 implies 0 <= (#[trigger] block_at(b.shape, x, y, rotation,
        i)).0
        < GRID_WIDTH && 0 <= block_at(b.shape, x, y, rotation, i).1 < GRID_HEIGHT by {
        assert(!blocked_in(b.grid, block_at(b.shape, x, y, rotation, i).0, block_at(b.shape, x, y,
            rotation, i).1));
    }
}

/// Before its first turn a shape lies as its table gives it.
pub proof fn lemma_unturned(shape: int)
    requires
        0 <= shape < SHAPE_COUNT,
    ensures
        rotated_points(shape, 0) =~= shape_points(shape),
{
    let pts = shape_points(shape);
    assert(turned(pts[0], 0) == pts[0]);
    assert(turned(pts[1], 0) == pts[1]);
    assert(turned(pts[2], 0) == pts[2]);
    assert(turned(pts[3], 0) == pts[3]);
}

/// A shape that has just appeared lies inside the grid, and the game goes
/// on as it should.
pub proof fn lemma_spawned_inside(b: Board, now: isize)
    requires
        grid_ok(b.grid),
        b.next_shape < SHAPE_COUNT,
    ensures
        b.spawn(now).inside(),
        b.spawn(now).shape < SHAPE_COUNT,
        b.spawn(now).next_shape < SHAPE_COUNT,
        b.spawn(now).rotation == 0,
        b.spawn(now).y == 0,
        b.spawn(now).grid == b.grid,
{
    lemma_unturned(b.next_shape as int);
    let s = b.spawn(now);
    assert forall|i: int| 0 <= i < 4 implies 0 <= (#[trigger] block_at(s.shape, s.x, s.y, 0, i)).0
        < GRID_WIDTH && 0 <= block_at(s.shape, s.x, s.y, 0, i).1 < GRID_HEIGHT by {
        let p = shape_points(s.shape as int)[i];
        assert(0 <= p.0 <= 3 && 0 <= p.1 <= 1);
    }
}

/// The first shape of a game has room in the empty grid.
pub proof fn lemma_start(now: isize)
    ensures
        Board::start(now).wf(),
        (Board { x: 0, next_shape: 0, ..Board::start(now) }).spawn(now) == Board::start(now),
{
    let b = Board { x: 0, next_shape: 0, ..Board::start(now) };
    let s = Board::start(now);
    lemma_unturned(0);
    assert(empty_row()[0] == EMPTY);
    assert forall|i: int| 0 <= i < 4 implies !blocked_in(s.grid, 
        (#[trigger] block_at(s.shape, 4, 0, 0, i)).0,
        block_at(s.shape, 4, 0, 0, i).1,
    ) by {
        let p = shape_points(0)[i];
        assert(0 <= p.0 <= 3 && p.1 == 0);
    }
    assert(!s.collides(4, 0, 0));
    lemma_spawned_inside(b, now);
    assert(b.spawn(now).inside());
    assert(b.spawn(now) == s);
}

/// After a shape inside the grid has left its blocks, at most four rows
/// are full, and the cells still hold numbers of shapes.
pub proof fn lemma_placed(b: Board)
    requires
        b.wf(),
    ensures
        grid_ok(b.placed()),
        full_from(b.placed(), 0) <= 4,
        forall|r: int, c: int|
            0 <= r < GRID_HEIGHT && 0 <= c < GRID_WIDTH ==> EMPTY <= #[trigger] b.placed()[r][c]
                < SHAPE_COUNT,
{
    let rot = b.rotation as nat;
    let p0 = block_at(b.shape, b.x, b.y, rot, 0);
    let p1 = block_at(b.shape, b.x, b.y, rot, 1);
    let p2 = block_at(b.shape, b.x, b.y, rot, 2);
    let p3 = block_at(b.shape, b.x, b.y, rot, 3);
    let touched = Set::<int>::empty().insert(p0.1).insert(p1.1).insert(p2.1).insert(p3.1);
    let g = b.placed();
    assert forall|r: int| 0 <= r < GRID_HEIGHT && full(#[trigger] g[r]) implies touched.contains(
        r,
    ) by {
        if !touched.contains(r) {
            assert(g[r] == b.grid[r]);
        }
    }
    lemma_full_rows_among(g, 0, touched);
}

/// The rows that are kept hold what rows of the grid held.
pub proof fn lemma_kept_cells(grid: Seq<Seq<i32>>, from: int)
    requires
        grid_ok(grid),
        from <= GRID_HEIGHT,
        forall|r: int, c: int|
            0 <= r < GRID_HEIGHT && 0 <= c < GRID_WIDTH ==> EMPTY <= #[trigger] grid[r][c]
                < SHAPE_COUNT,
    ensures
        forall|r: int, c: int|
            0 <= r < kept_from(grid, from).len() && 0 <= c < GRID_WIDTH ==> EMPTY
                <= #[trigger] kept_from(grid, from)[r][c] < SHAPE_COUNT,
    decreases GRID_HEIGHT - from,
{
    if from < GRID_HEIGHT {
        lemma_kept_cells(grid, from + 1);
        let rest = kept_from(grid, from + 1);
        if !(from >= 0 && full(grid[from])) {
            let first = row_at(grid, from);
            assert forall|r: int, c: int|
                0 <= r < kept_from(grid, from).len() && 0 <= c < GRID_WIDTH implies EMPTY
                <= #[trigger] kept_from(grid, from)[r][c] < SHAPE_COUNT by {
                if r > 0 {
                    assert(kept_from(grid, from)[r] == rest[r - 1]);
                    assert(EMPTY <= rest[r - 1][c] < SHAPE_COUNT);
                } else {
                    assert(kept_from(grid, from)[r] == first);
                    if from >= 0 {
                        assert(EMPTY <= grid[from][c] < SHAPE_COUNT);
                    }
                }
            }
        }
    }
}

/// There are no more full rows from a row down than in the whole grid.
pub proof fn lemma_full_from_falls(grid: Seq<Seq<i32>>, from: int)
    requires
        0 <= from <= GRID_HEIGHT,
    ensures
        full_from(grid, from) <= full_from(grid, 0),
    decreases from,
{
    if from > 0 {
        lemma_full_from_falls(grid, from - 1);
    }
}

/// What a key asks of the game.
#[derive(Clone, Copy, PartialEq, Eq, Structural, Debug)]
pub enum Action {
    Rotate,
    Left,
    Right,
    Down,
    Drop,
}

/// The kind of an input event that reports a key.
pub const EVENT_KEY: u16 = 1;

/// The value of a key event when the key goes down.
pub const KEY_PRESSED: u32 = 1;

/// What an input event asks of the game: W or the up arrow turn, A and D
/// or the left and right arrows move, S or the down arrow lets the shape
/// go down a row and the space bar drops it.  Only a key that goes down
/// counts.
pub open spec fn action_of(event_type: u16, code: u16, value: u32) -> Option<Action> {
    if event_type != EVENT_KEY || value != KEY_PRESSED {
        None
    } else if code == 17 || code == 103 {
        Some(Action::Rotate)
    } else if code == 30 || code == 105 {
        Some(Action::Left)
    } else if code == 32 || code == 106 {
        Some(Action::Right)
    } else if code == 31 || code == 108 {
        Some(Action::Down)
    } else if code == 57 {
        Some(Action::Drop)
    } else {
        None
    }
}

/// What an input event asks of the game.
pub fn key_action(event_type: u16, code: u16, value: u32) -> (action: Option<Action>)
    ensures
        action == action_of(event_type, code, value),
{
    if event_type != EVENT_KEY || value != KEY_PRESSED {
        return None;
    }
    match code {
        17 | 103 => Some(Action::Rotate),
        30 | 105 => Some(Action::Left),
        32 | 106 => Some(Action::Right),
        31 | 108 => Some(Action::Down),
        57 => Some(Action::Drop),
        _ => None,
    }
}

/// The width of the screen in pixels.
pub const SCREEN_WIDTH: usize = 800;

/// The height of the screen in pixels.
pub const SCREEN_HEIGHT: usize = 600;

/// The length of the side of a cell on the screen.
pub const TILE_SIZE: usize = 24;

/// The column of the screen at which the grid begins.
pub const MARGIN_X: usize = 280;

/// The row of the screen at which the grid begins.
pub const MARGIN_Y: usize = 60;

/// The colour of an empty cell.
pub const COLOR_EMPTY: u32 = 0x111111FF;

/// The colour of the blocks of the shape `shape`.
pub open spec fn color_of(shape: int) -> u32 {
    if shape == 0 {
        0x00FFFFFF
    } else if shape == 1 {
        0xFFFF00FF
    } else if shape == 2 {
        0xFF00FFFF
    } else if shape == 3 {
        0x00FF00FF
    } else if shape == 4 {
        0xFF0000FF
    } else if shape == 5 {
        0x0000FFFF
    } else {
        0xFF7F00FF
    }
}

/// The colour of the blocks of the shape `shape`.
pub fn shape_color(shape: usize) -> (color: u32)
    ensures
        color == color_of(shape as int),
{
    if shape == 0 {
        0x00FFFFFF
    } else if shape == 1 {
        0xFFFF00FF
    } else if shape == 2 {
        0xFF00FFFF
    } else if shape == 3 {
        0x00FF00FF
    } else if shape == 4 {
        0xFF0000FF
    } else if shape == 5 {
        0x0000FFFF
    } else {
        0xFF7F00FF
    }
}

/// A cell to paint: the corner of its place on the screen and its colour.
#[derive(Clone, Copy, PartialEq, Eq, Structural, Debug)]
pub struct Tile {
    pub x: usize,
    pub y: usize,
    pub color: u32,
}

/// The tile of the cell in column `c` of row `r`, in the colour `color`.
pub open spec fn tile_at(c: int, r: int, color: u32) -> Tile {
    Tile { x: (MARGIN_X + c * TILE_SIZE) as usize, y: (MARGIN_Y + r * TILE_SIZE) as usize, color }
}

/// The frame buffer after the block of a tile is painted: the pixels of
/// the tile but for a rim of one pixel.  Pixels behind the end of the
/// frame buffer are left out.
pub open spec fn block_painted(fb: Seq<u32>, tile: Tile) -> Seq<u32> {
    Seq::new(
        fb.len(),
        |k: int|
            if in_rect(
                SCREEN_WIDTH as int,
                tile.x + 1,
                tile.y + 1,
                TILE_SIZE - 2,
                TILE_SIZE - 2,
                false,
                k,
            ) {
                tile.color
            } else {
                fb[k]
            },
    )
}

/// The frame buffer after the blocks of the first `n` tiles are painted,
/// one after the other.
pub open spec fn tiles_painted(fb: Seq<u32>, tiles: Seq<Tile>, n: int) -> Seq<u32>
    decreases n,
{
    if n <= 0 {
        fb
    } else {
        block_painted(tiles_painted(fb, tiles, n - 1), tiles[n - 1])
    }
}

/// Paints the block of the tile at `(x, y)`.
pub fn draw_block(fb: &mut Vec<u32>, x: usize, y: usize, color: u32)
    requires
        x + TILE_SIZE <= usize::MAX,
        y + TILE_SIZE <= usize::MAX,
    ensures
        final(fb)@ == block_painted(old(fb)@, (Tile { x, y, color })),
{
    fill_cells(fb, SCREEN_WIDTH, x + 1, y + 1, TILE_SIZE - 2, TILE_SIZE - 2, color, false);
    proof {
        assert(fb@ =~= block_painted(old(fb)@, (Tile { x, y, color })));
    }
}

impl Board {
    /// The colour of the cell in column `c` of row `r` of the grid.
    pub open spec fn cell_color(self, r: int, c: int) -> u32 {
        if self.grid[r][c] == EMPTY {
            COLOR_EMPTY
        } else {
            color_of(self.grid[r][c] as int)
        }
    }

    /// The tiles of the picture of the game: the cells of the grid row by
    /// row, then the four blocks of the falling shape.
    pub open spec fn tiles(self) -> Seq<Tile> {
        Seq::new(
            (GRID_WIDTH * GRID_HEIGHT) as nat,
            |k: int| tile_at(k % 10, k / 10, self.cell_color(k / 10, k % 10)),
        ) + Seq::new(
            4,
            |i: int|
                tile_at(
                    block_at(self.shape, self.x, self.y, self.rotation as nat, i).0,
                    block_at(self.shape, self.x, self.y, self.rotation as nat, i).1,
                    color_of(self.shape as int),
                ),
        )
    }

    /// The picture of the game in a frame buffer of `len` pixels: the
    /// tiles on black.
    pub open spec fn picture(self, len: nat) -> Seq<u32> {
        tiles_painted(Seq::new(len, |k: int| 0u32), self.tiles(), self.tiles().len() as int)
    }

    /// The game after `action`, at the time `now`.
    pub open spec fn apply(self, action: Action, now: isize) -> Board {
        match action {
            Action::Rotate => self.rotate(),
            Action::Left => self.shift(-1),
            Action::Right => self.shift(1),
            Action::Down => self.move_down(now),
            Action::Drop => self.hard_drop(now),
        }
    }

    /// Whether the falling shape is due to go down at the time `now`.
    pub open spec fn due(self, now: isize) -> bool {
        now - self.last_move_time >= self.move_interval
    }
}

impl TetrisGame {
    /// Does what a key asked for.
    pub fn apply(&mut self, action: Action, now: isize)
        requires
            old(self).wf(),
            old(self).score + 800 <= usize::MAX,
        ensures
            final(self)@ == old(self)@.apply(action, now),
            final(self).wf(),
    {
        match action {
            Action::Rotate => self.rotate(),
            Action::Left => self.move_left(),
            Action::Right => self.move_right(),
            Action::Down => self.move_down(now),
            Action::Drop => self.hard_drop(now),
        }
    }

    /// Whether the falling shape is due to go down at the time `now`.
    pub fn is_due(&self, now: isize) -> (b: bool)
        ensures
            b == self@.due(now),
    {
        now as i128 - self.last_move_time as i128 >= self.move_interval as i128
    }

    /// Lets the falling shape go down if it is due at the time `now`.
    pub fn tick(&mut self, now: isize)
        requires
            old(self).wf(),
            old(self).score + 800 <= usize::MAX,
        ensures
            final(self)@ == if old(self)@.due(now) {
                old(self)@.move_down(now)
            } else {
                old(self)@
            },
            final(self).wf(),
    {
        if self.is_due(now) {
            self.move_down(now);
        }
    }

    /// The tiles of the picture of the game.
    pub fn tiles(&self) -> (tiles: Vec<Tile>)
        requires
            self.wf(),
        ensures
            tiles@ == self@.tiles(),
    {
        let mut tiles: Vec<Tile> = Vec::new();
        let mut r: usize = 0;
        while r < GRID_HEIGHT
            invariant
                r <= GRID_HEIGHT,
                self.wf(),
                tiles@.len() == r * 10,
                forall|k: int| 0 <= k < tiles@.len() ==> #[trigger] tiles@[k] == self@.tiles()[k],
            decreases GRID_HEIGHT - r,
        {
            let row = self.grid[r];
            let mut c: usize = 0;
            while c < GRID_WIDTH
                invariant
                    r < GRID_HEIGHT,
                    c <= GRID_WIDTH,
                    self.wf(),
                    row@ == self@.grid[r as int],
                    tiles@.len() == r * 10 + c,
                    forall|k: int|
                        0 <= k < tiles@.len() ==> #[trigger] tiles@[k] == self@.tiles()[k],
                decreases GRID_WIDTH - c,
            {
                let value = row[c];
                let color = if value == EMPTY {
                    COLOR_EMPTY
                } else {
                    shape_color(value as usize)
                };
                proof {
                    let k = r * 10 + c;
                    assert(k / 10 == r && k % 10 == c);
                    assert(EMPTY <= self@.grid[r as int][c as int] < SHAPE_COUNT);
                }
                tiles.push(Tile { x: MARGIN_X + c * TILE_SIZE, y: MARGIN_Y + r * TILE_SIZE,
                    color });
                c = c + 1;
            }
            r = r + 1;
        }
        let points = get_rotated_points(self.current_shape_idx, self.current_rotation);
        let color = shape_color(self.current_shape_idx);
        let mut i: usize = 0;
        while i < 4
            invariant
                i <= 4,
                self.wf(),
                color == color_of(self.current_shape_idx as int),
                forall|k: int|
                    0 <= k < 4 ==> (#[trigger] points[k]).0 == rotated_points(
                        self.current_shape_idx as int,
                        self.current_rotation as nat,
                    )[k].0 && points[k].1 == rotated_points(
                        self.current_shape_idx as int,
                        self.current_rotation as nat,
                    )[k].1,
                tiles@.len() == 200 + i,
                forall|k: int| 0 <= k < tiles@.len() ==> #[trigger] tiles@[k] == self@.tiles()[k],
            decreases 4 - i,
        {
            let p = points[i];
            proof {
                let b = block_at(
                    self@.shape,
                    self@.x,
                    self@.y,
                    self@.rotation as nat,
                    i as int,
                );
                assert(0 <= b.0 < GRID_WIDTH && 0 <= b.1 < GRID_HEIGHT);
                assert(b.0 == self.current_x + p.0 && b.1 == self.current_y + p.1);
            }
            let nx = (self.current_x + p.0) as usize;
            let ny = (self.current_y + p.1) as usize;
            tiles.push(Tile { x: MARGIN_X + nx * TILE_SIZE, y: MARGIN_Y + ny * TILE_SIZE, color });
            i = i + 1;
        }
        proof {
            assert(tiles@ =~= self@.tiles());
        }
        tiles
    }

    /// Paints the picture of the game into the frame buffer.
    pub fn render(&self, fb: &mut Vec<u32>)
        requires
            self.wf(),
        ensures
            final(fb)@ == self@.picture(old(fb)@.len()),
    {
        let len = fb.len();
        let mut k: usize = 0;
        while k < len
            invariant
                k <= len,
                fb@.len() == len,
                forall|j: int| 0 <= j < k ==> #[trigger] fb@[j] == 0,
            decreases len - k,
        {
            fb.set(k, 0);
            k = k + 1;
        }
        proof {
            assert(fb@ =~= Seq::new(len as nat, |k: int| 0u32));
        }
        let tiles = self.tiles();
        let ghost blank = fb@;
        let mut n: usize = 0;
        while n < tiles.len()
            invariant
                n <= tiles@.len(),
                self.wf(),
                tiles@ == self@.tiles(),
                fb@ == tiles_painted(blank, tiles@, n as int),
            decreases tiles@.len() - n,
        {
            let tile = tiles[n];
            proof {
                lemma_tile_fits(self@, n as int);
            }
            draw_block(fb, tile.x, tile.y, tile.color);
            n = n + 1;
        }
    }
}

/// Every tile of the picture lies on the screen.
pub proof fn lemma_tile_fits(b: Board, n: int)
    requires
        b.wf(),
        0 <= n < b.tiles().len(),
    ensures
        b.tiles()[n].x + TILE_SIZE <= SCREEN_WIDTH,
        b.tiles()[n].y + TILE_SIZE <= SCREEN_HEIGHT,
{
    if n >= 200 {
        let p = block_at(b.shape, b.x, b.y, b.rotation as nat, n - 200);
        assert(0 <= p.0 < GRID_WIDTH && 0 <= p.1 < GRID_HEIGHT);
    }
}

} // verus!
