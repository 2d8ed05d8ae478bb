//! The rules of a game of two paddles and a ball, and its picture.

use crate::graphics::{fill_cells, in_rect};
use vstd::prelude::*;

verus! {

/// The width of the screen in pixels.
pub const WIDTH: usize = 800;

/// The height of the screen in pixels.
pub const HEIGHT: usize = 600;

pub const PADDLE_W: usize = 20;

pub const PADDLE_H: usize = 100;

/// The length of the side of the ball.
pub const BALL_W: usize = 20;

/// By how many pixels a paddle moves in one step.
pub const PAD_SPEED: isize = 8;

/// The largest speed of the ball along one axis that the rules are stated for.
pub const SPEED_LIMIT: isize = 100;

pub const C_BG: u32 = 0x0d1117ff;

pub const C_PADDLE: u32 = 0xc9d1d9ff;

pub const C_BALL: u32 = 0xf78166ff;

pub const C_LINE: u32 = 0x30363dff;

/// The keys of the first player, W and S, and of the second, the arrows up
/// and down.
pub const KEY_W: usize = 17;

pub const KEY_S: usize = 31;

pub const KEY_UP: usize = 103;

pub const KEY_DOWN: usize = 108;

/// The length of a dash of the centre line, and the distance from one dash
/// to the next.
pub const DASH: usize = 16;

pub const DASH_EVERY: usize = 32;

/// The number of dashes of the centre line.
pub const DASHES: usize = 19;

/// Which player has scored.
#[derive(Clone, Copy, PartialEq, Eq, Structural, Debug)]
pub enum Player {
    First,
    Second,
}

/// The absolute value of `v`.
pub open spec fn magnitude(v: int) -> int {
    if v < 0 {
        -v
    } else {
        v
    }
}

/// The game: the upper ends of the two paddles, the corner of the ball, its
/// speed along both axes, and the points of the two players.
#[derive(Clone, Copy, PartialEq, Eq, Structural, Debug)]
pub struct Pong {
    pub p1y: isize,
    pub p2y: isize,
    pub bx: isize,
    pub by: isize,
    pub bdx: isize,
    pub bdy: isize,
    pub s1: u32,
    pub s2: u32,
}

/// Where the upper end of a paddle is after one step: eight pixels higher
/// while its upper key is down, eight pixels lower while its lower key is
/// down, and never off the screen in the direction it moves.
pub open spec fn paddle_moved(y: int, up: bool, down: bool) -> int {
    let raised = if up {
        if y - PAD_SPEED >= 0 {
            y - PAD_SPEED
        } else {
            0
        }
    } else {
        y
    };
    if down {
        if raised + PAD_SPEED <= HEIGHT - PADDLE_H {
            raised + PAD_SPEED
        } else {
            HEIGHT - PADDLE_H
        }
    } else {
        raised
    }
}

impl Pong {
    /// What the rules are stated for: the paddles and the ball are on the
    /// screen, and the ball is not too fast.
    pub open spec fn wf(self) -> bool {
        &&& 0 <= self.p1y <= HEIGHT - PADDLE_H
        &&& 0 <= self.p2y <= HEIGHT - PADDLE_H
        &&& 0 <= self.bx <= WIDTH
        &&& 0 <= self.by <= HEIGHT
        &&& -SPEED_LIMIT <= self.bdx <= SPEED_LIMIT
        &&& -SPEED_LIMIT <= self.bdy <= SPEED_LIMIT
    }

    /// The game at its start: paddles and ball in the middle, the ball on
    /// its way down to the right.
    pub open spec fn start() -> Pong {
        Pong { p1y: 250, p2y: 250, bx: 390, by: 290, bdx: 6, bdy: 5, s1: 0, s2: 0 }
    }

    /// The game after the paddles have moved.
    pub open spec fn with_paddles(self, w: bool, s: bool, up: bool, down: bool) -> Pong {
        Pong {
            p1y: paddle_moved(self.p1y as int, w, s) as isize,
            p2y: paddle_moved(self.p2y as int, up, down) as isize,
            ..self
        }
    }

    /// The game after the ball has moved and bounced off the upper and the
    /// lower edge of the screen.
    pub open spec fn with_ball_moved(self) -> Pong {
        let bx = self.bx + self.bdx;
        let by = self.by + self.bdy;
        let (by, bdy) = if by <= 0 {
            (0, magnitude(self.bdy as int))
        } else {
            (by, self.bdy as int)
        };
        let (by, bdy) = if by + BALL_W >= HEIGHT {
            (HEIGHT - BALL_W, -magnitude(bdy))
        } else {
            (by, bdy)
        };
        Pong { bx: bx as isize, by: by as isize, bdy: bdy as isize, ..self }
    }

    /// Whether the ball touches the left paddle on its way to the left.
    pub open spec fn meets_left(self) -> bool {
        self.bdx < 0 && self.bx <= PADDLE_W && self.by + BALL_W >= self.p1y && self.by <= self.p1y
            + PADDLE_H
    }

    /// Whether the ball touches the right paddle on its way to the right.
    pub open spec fn meets_right(self) -> bool {
        self.bdx > 0 && self.bx + BALL_W >= WIDTH - PADDLE_W && self.by + BALL_W >= self.p2y
            && self.by <= self.p2y + PADDLE_H
    }

    /// The game after the ball has bounced off a paddle that it touches.
    pub open spec fn with_bounce(self) -> Pong {
        let left = if self.meets_left() {
            Pong { bdx: magnitude(self.bdx as int) as isize, bx: PADDLE_W as isize, ..self }
        } else {
            self
        };
        if left.meets_right() {
            Pong {
                bdx: (-magnitude(left.bdx as int)) as isize,
                bx: (WIDTH - PADDLE_W - BALL_W) as isize,
                ..left
            }
        } else {
            left
        }
    }

    /// Who scores: the second player when the ball has reached the left
    /// edge, the first when it has reached the right one.
    pub open spec fn scorer(self) -> Option<Player> {
        if self.bx <= 0 {
            Some(Player::Second)
        } else if self.bx + BALL_W >= WIDTH {
            Some(Player::First)
        } else {
            None
        }
    }

    /// The game after a point is counted: the ball starts again from the
    /// middle, towards the player who has scored.
    pub open spec fn with_point(self) -> Pong {
        match self.scorer() {
            Some(Player::Second) => Pong {
                s2: (self.s2 + 1) as u32,
                bx: 400,
                by: 300,
                bdx: -6isize,
                bdy: 5,
                ..self
            },
            Some(Player::First) => Pong {
                s1: (self.s1 + 1) as u32,
                bx: 400,
                by: 300,
                bdx: 6,
                bdy: 5,
                ..self
            },
            None => self,
        }
    }

    /// The game one step later, while the keys are down of which the
    /// arguments say so.
    pub open spec fn stepped(self, w: bool, s: bool, up: bool, down: bool) -> Pong {
        self.with_paddles(w, s, up, down).with_ball_moved().with_bounce().with_point()
    }

    /// Who scores in the step.
    pub open spec fn scores(self, w: bool, s: bool, up: bool, down: bool) -> Option<Player> {
        self.with_paddles(w, s, up, down).with_ball_moved().with_bounce().scorer()
    }

    /// The game at its start.
    pub fn new() -> (game: Self)
        ensures
            game == Pong::start(),
            game.wf(),
    {
        Pong { p1y: 250, p2y: 250, bx: 390, by: 290, bdx: 6, bdy: 5, s1: 0, s2: 0 }
    }

    /// What holds of the game in the middle of a step, when the ball may
    /// have left the screen to the left or to the right.
    pub open spec fn wf_moving(self) -> bool {
        &&& 0 <= self.p1y <= HEIGHT - PADDLE_H
        &&& 0 <= self.p2y <= HEIGHT - PADDLE_H
        &&& -SPEED_LIMIT <= self.bx <= WIDTH + SPEED_LIMIT
        &&& 0 <= self.by <= HEIGHT
        &&& -SPEED_LIMIT <= self.bdx <= SPEED_LIMIT
        &&& -SPEED_LIMIT <= self.bdy <= SPEED_LIMIT
    }

    /// Moves the paddles whose keys are down in `keys`.
    pub fn move_paddles(&mut self, keys: &[u8; 256])
        requires
            old(self).wf(),
        ensures
            *final(self) == old(self).with_paddles(
                keys[KEY_W as int] != 0,
                keys[KEY_S as int] != 0,
                keys[KEY_UP as int] != 0,
                keys[KEY_DOWN as int] != 0,
            ),
            final(self).wf(),
    {
        self.p1y = move_paddle(self.p1y, keys[KEY_W] != 0, keys[KEY_S] != 0);
        self.p2y = move_paddle(self.p2y, keys[KEY_UP] != 0, keys[KEY_DOWN] != 0);
    }

    /// Moves the ball and lets it bounce off the upper and the lower edge.
    pub fn move_ball(&mut self)
        requires
            old(self).wf(),
        ensures
            *final(self) == old(self).with_ball_moved(),
            final(self).wf_moving(),
    {
        self.bx = self.bx + self.bdx;
        self.by = self.by + self.bdy;
        if self.by <= 0 {
            self.by = 0;
            self.bdy = absolute(self.bdy);
        }
        if self.by + 20 >= 600 {
            self.by = 580;
            self.bdy = -absolute(self.bdy);
        }
    }

    /// Lets the ball bounce off a paddle that it touches.
    pub fn bounce(&mut self)
        requires
            old(self).wf_moving(),
        ensures
            *final(self) == old(self).with_bounce(),
            final(self).wf_moving(),
    {
        if self.bdx < 0 && self.bx <= 20 && self.by + 20 >= self.p1y && self.by <= self.p1y + 100 {
            self.bdx = absolute(self.bdx);
            self.bx = 20;
        }
        if self.bdx > 0 && self.bx + 20 >= 780 && self.by + 20 >= self.p2y && self.by <= self.p2y
            + 100 {
            self.bdx = -absolute(self.bdx);
            self.bx = 760;
        }
    }

    /// Counts a point if the ball has reached the left or the right edge,
    /// and says for whom.
    pub fn count_point(&mut self) -> (scored: Option<Player>)
        requires
            old(self).wf_moving(),
            old(self).s1 < u32::MAX,
            old(self).s2 < u32::MAX,
        ensures
            *final(self) == old(self).with_point(),
            scored == old(self).scorer(),
            final(self).wf(),
    {
        if self.bx <= 0 {
            self.s2 = self.s2 + 1;
            self.bx = 400;
            self.by = 300;
            self.bdx = -6;
            self.bdy = 5;
            Some(Player::Second)
        } else if self.bx + 20 >= 800 {
            self.s1 = self.s1 + 1;
            self.bx = 400;
            self.by = 300;
            self.bdx = 6;
            self.bdy = 5;
            Some(Player::First)
        } else {
            None
        }
    }

    /// Plays one step with the keys that are down in `keys`, and says who
    /// has scored in it.
    pub fn step(&mut self, keys: &[u8; 256]) -> (scored: Option<Player>)
        requires
            old(self).wf(),
            old(self).s1 < u32::MAX,
            old(self).s2 < u32::MAX,
        ensures
            *final(self) == old(self).stepped(
                keys[KEY_W as int] != 0,
                keys[KEY_S as int] != 0,
                keys[KEY_UP as int] != 0,
                keys[KEY_DOWN as int] != 0,
            ),
            scored == old(self).scores(
                keys[KEY_W as int] != 0,
                keys[KEY_S as int] != 0,
                keys[KEY_UP as int] != 0,
                keys[KEY_DOWN as int] != 0,
            ),
            final(self).wf(),
    {
        self.move_paddles(keys);
        self.move_ball();
        self.bounce();
        self.count_point()
    }
}

/// Where the upper end of a paddle is after one step.
pub fn move_paddle(y: isize, up: bool, down: bool) -> (moved: isize)
    requires
        0 <= y <= HEIGHT - PADDLE_H,
    ensures
        moved == paddle_moved(y as int, up, down),
        0 <= moved <= HEIGHT - PADDLE_H,
{
    let lowest: isize = 500;
    let raised = if up {
        if y - PAD_SPEED >= 0 {
            y - PAD_SPEED
        } else {
            0
        }
    } else {
        y
    };
    if down {
        if raised + PAD_SPEED <= lowest {
            raised + PAD_SPEED
        } else {
            lowest
        }
    } else {
        raised
    }
}

/// The absolute value of `v`.
pub fn absolute(v: isize) -> (a: isize)
    requires
        v > isize::MIN,
    ensures
        a == magnitude(v as int),
{
    if v < 0 {
        -v
    } else {
        v
    }
}

/// The frame buffer after the pixels of the columns from `x` and the rows
/// from `y`, `w` by `h` pixels, are painted.  Pixels beyond the end of a
/// row and behind the end of the frame buffer are left out.
pub open spec fn painted(fb: Seq<u32>, x: int, y: int, w: int, h: int, color: u32) -> Seq<u32> {
    Seq::new(
        fb.len(),
        |k: int|
            if in_rect(WIDTH as int, x, y, w, h, true, k) {
                color
            } else {
                fb[k]
            },
    )
}

/// The part of the line from `at` on, `len` long, that lies between 0 and
/// `limit`, by its start and its length.  A line that ends before 0 is
/// taken to reach the limit.
pub open spec fn clamped(at: int, len: int, limit: int) -> (int, int) {
    let start = if at >= 0 {
        at
    } else {
        0
    };
    let end = if at + len < 0 || at + len > limit {
        limit
    } else {
        at + len
    };
    if end >= start {
        (start, end - start)
    } else {
        (start, 0)
    }
}

/// The part of a line that lies between 0 and `limit`.
pub fn clamp(at: isize, len: usize, limit: usize) -> (r: (usize, usize))
    requires
        len <= isize::MAX,
        at + len <= isize::MAX,
    ensures
        r.0 == clamped(at as int, len as int, limit as int).0,
        r.1 == clamped(at as int, len as int, limit as int).1,
        r.0 + r.1 <= usize::MAX,
{
    let start: usize = if at >= 0 {
        at as usize
    } else {
        0
    };
    let reach: isize = at + len as isize;
    let end: usize = if reach < 0 || reach as usize > limit {
        limit
    } else {
        reach as usize
    };
    if end >= start {
        (start, end - start)
    } else {
        (start, 0)
    }
}

/// The frame buffer after the rectangle of `w` by `h` pixels at `(x, y)`
/// is painted, as far as it lies on the screen.
pub open spec fn rect_painted(fb: Seq<u32>, x: int, y: int, w: int, h: int,
    color: u32) -> Seq<u32> {
    painted(
        fb,
        clamped(x, w, WIDTH as int).0,
        clamped(y, h, HEIGHT as int).0,
        clamped(x, w, WIDTH as int).1,
        clamped(y, h, HEIGHT as int).1,
        color,
    )
}

/// Paints the whole screen.
pub fn fill(fb: &mut Vec<u32>, color: u32)
    ensures
        final(fb)@ == painted(old(fb)@, 0, 0, WIDTH as int, HEIGHT as int, color),
{
    fill_cells(fb, WIDTH, 0, 0, WIDTH, HEIGHT, color, true);
    proof {
        assert(fb@ =~= painted(old(fb)@, 0, 0, WIDTH as int, HEIGHT as int, color));
    }
}

/// Paints the rectangle of `w` by `h` pixels at `(x, y)`, as far as it
/// lies on the screen.
pub fn rect(fb: &mut Vec<u32>, x: isize, y: isize, w: usize, h: usize, color: u32)
    requires
        w <= isize::MAX,
        h <= isize::MAX,
        x + w <= isize::MAX,
        y + h <= isize::MAX,
    ensures
        final(fb)@ == rect_painted(old(fb)@, x as int, y as int, w as int, h as int, color),
{
    let (x0, width) = clamp(x, w, WIDTH);
    let (y0, height) = clamp(y, h, HEIGHT);
    fill_cells(fb, WIDTH, x0, y0, width, height, color, true);
    proof {
        assert(fb@ =~= rect_painted(old(fb)@, x as int, y as int, w as int, h as int, color));
    }
}

/// The frame buffer after the first `n` dashes of the centre line are
/// painted: each is one pixel wide and sixteen long, and they begin every
/// thirty-two rows.
pub open spec fn dashes_painted(fb: Seq<u32>, n: int) -> Seq<u32>
    decreases n,
{
    if n <= 0 {
        fb
    } else {
        painted(
            dashes_painted(fb, n - 1),
            WIDTH as int / 2,
            (n - 1) * DASH_EVERY,
            1,
            DASH as int,
            C_LINE,
        )
    }
}

/// Paints the dashed line down the middle of the screen.
pub fn center_dashes(fb: &mut Vec<u32>)
    ensures
        final(fb)@ == dashes_painted(old(fb)@, DASHES as int),
{
    let cx = WIDTH / 2;
    let mut y: usize = 0;
    let mut n: usize = 0;
    while y < HEIGHT
        invariant
            y == n * DASH_EVERY,
            n <= DASHES,
            cx == WIDTH / 2,
            fb@ == dashes_painted(old(fb)@, n as int),
        decreases HEIGHT + DASH_EVERY - y,
    {
        let ghost before = fb@;
        let rows = if y + DASH <= HEIGHT {
            DASH
        } else {
            HEIGHT - y
        };
        fill_cells(fb, WIDTH, cx, y, 1, rows, C_LINE, true);
        proof {
            assert(fb@ =~= painted(before, WIDTH as int / 2, y as int, 1, DASH as int, C_LINE));
        }
        y = y + DASH_EVERY;
        n = n + 1;
    }
}

impl Pong {
    /// The picture of the game on the frame buffer `fb`: the background,
    /// the centre line, the two paddles at the left and the right edge, and
    /// the ball, one over the other.
    pub open spec fn picture(self, fb: Seq<u32>) -> Seq<u32> {
        let ground = dashes_painted(
            painted(fb, 0, 0, WIDTH as int, HEIGHT as int, C_BG),
            DASHES as int,
        );
        let left = rect_painted(ground, 0, self.p1y as int, PADDLE_W as int, PADDLE_H as int,
            C_PADDLE);
        let right = rect_painted(
            left,
            WIDTH - PADDLE_W,
            self.p2y as int,
            PADDLE_W as int,
            PADDLE_H as int,
            C_PADDLE,
        );
        rect_painted(right, self.bx as int, self.by as int, BALL_W as int, BALL_W as int, C_BALL)
    }

    /// Paints the picture of the game.
    pub fn render(&self, fb: &mut Vec<u32>)
        requires
            self.wf(),
        ensures
            final(fb)@ == self.picture(old(fb)@),
    {
        fill(fb, C_BG);
        center_dashes(fb);
        rect(fb, 0, self.p1y, PADDLE_W, PADDLE_H, C_PADDLE);
        rect(fb, 780, self.p2y, PADDLE_W, PADDLE_H, C_PADDLE);
        rect(fb, self.bx, self.by, BALL_W, BALL_W, C_BALL);
    }
}

} // verus!
