//! Painting into a frame buffer of 32-bit pixels, kept row by row.

use vstd::prelude::*;

verus! {

/// A colour by its four channels.
#[derive(Clone, Copy, PartialEq, Eq, Structural, Debug)]
pub struct Color {
    pub r: u8,
    pub g: u8,
    pub b: u8,
    pub a: u8,
}

impl Color {
    /// The pixel value of the colour: red in the lowest byte, alpha in the highest.
    pub open spec fn pixel(self) -> u32 {
        (self.r as u32 + self.g as u32 * 0x100 + self.b as u32 * 0x1_0000 + self.a as u32
            * 0x100_0000) as u32
    }

    /// The colour with the given channels and full alpha.
    pub open spec fn opaque(r: u8, g: u8, b: u8) -> Color {
        Color { r, g, b, a: 255 }
    }

    /// The colour with the given channels and full alpha.
    pub fn rgb(r: u8, g: u8, b: u8) -> (c: Color)
        ensures
            c == Color::opaque(r, g, b),
    {
        Color { r, g, b, a: 255 }
    }

    pub fn to_u32(&self) -> (p: u32)
        ensures
            p == self.pixel(),
    {
        self.r as u32 + self.g as u32 * 0x100 + self.b as u32 * 0x1_0000 + self.a as u32
            * 0x100_0000
    }
}

/// Whether `(x, y)` is a pixel of a screen of `width` by `height` pixels.
pub open spec fn on_screen(width: usize, height: usize, x: isize, y: isize) -> bool {
    0 <= x < width && 0 <= y < height
}

/// The place of pixel `(x, y)` in the frame buffer of a screen `width` wide.
pub open spec fn pixel_index(width: usize, x: int, y: int) -> int {
    y * width + x
}

/// A pixel of the screen has its place inside a frame buffer that holds the
/// whole screen.
pub proof fn lemma_pixel_index_in_bounds(width: usize, height: usize, x: int, y: int)
    requires
        0 <= x < width,
        0 <= y < height,
    ensures
        0 <= pixel_index(width, x, y) < width * height,
{
    assert(y * width + x < (y + 1) * width) by (nonlinear_arith)
        requires
            0 <= x < width,
    ;
    assert((y + 1) * width <= height * width) by (nonlinear_arith)
        requires
            0 <= y + 1 <= height,
            0 <= width,
    ;
    assert(0 <= y * width) by (nonlinear_arith)
        requires
            0 <= y,
            0 <= width,
    ;
    assert(height * width == width * height) by (nonlinear_arith);
}

/// Paints the pixel `(x, y)`, if it lies on the screen; a pixel off the screen
/// is left out and the frame buffer stays as it is.  The place of a pixel
/// on the screen must lie in the frame buffer.
pub fn set_pixel(
    fb_u32: &mut Vec<u32>,
    width: usize,
    height: usize,
    x: isize,
    y: isize,
    color: u32,
)
    requires
        on_screen(width, height, x, y) ==> pixel_index(width, x as int, y as int)
            < old(fb_u32).len(),
    ensures
        final(fb_u32)@ == if on_screen(width, height, x, y) {
            old(fb_u32)@.update(pixel_index(width, x as int, y as int), color)
        } else {
            old(fb_u32)@
        },
{
    if x >= 0 && y >= 0 && (x as usize) < width && (y as usize) < height {
        proof {
            assert(0 <= y * width) by (nonlinear_arith)
                requires
                    0 <= y,
                    0 <= width,
            ;
        }
        let i = y as usize * width + x as usize;
        fb_u32[i] = color;
    }
}

/// The place of the cell in row `row` and column `col` of a frame buffer
/// whose rows are `width` cells long.
pub open spec fn cell(width: int, row: int, col: int) -> int {
    row * width + col
}

/// Whether painting the columns from `x` and the rows from `y`, `w` by `h`
/// cells, reaches place `k` of the frame buffer before row `rows` and, in
/// row `rows`, before column `cols`.  With `clip`, columns beyond the width
/// are left out; without it they run on into the next row.
pub open spec fn reached(
    width: int,
    x: int,
    y: int,
    w: int,
    clip: bool,
    rows: int,
    cols: int,
    k: int,
) -> bool {
    exists|row: int, col: int|
        x <= col < x + w && (y <= row < rows || (row == rows && col < cols)) && (clip ==> col
            < width) && #[trigger] cell(width, row, col) == k
}

/// Whether painting the rectangle reaches place `k`.
pub open spec fn in_rect(width: int, x: int, y: int, w: int, h: int, clip: bool, k: int) -> bool {
    reached(width, x, y, w, clip, y + h, x, k)
}

/// Paints the cells of the columns from `x` and of the rows from `y`, `w`
/// by `h` cells, in a frame buffer whose rows are `width` cells long.
/// Cells that lie behind the end of the frame buffer are left out.
pub fn fill_cells(
    fb: &mut Vec<u32>,
    width: usize,
    x: usize,
    y: usize,
    w: usize,
    h: usize,
    pixel: u32,
    clip: bool,
)
    requires
        x + w <= usize::MAX,
        y + h <= usize::MAX,
    ensures
        final(fb)@.len() == old(fb)@.len(),
        forall|k: int|
            0 <= k < old(fb)@.len() ==> #[trigger] final(fb)@[k] == if in_rect(
                width as int,
                x as int,
                y as int,
                w as int,
                h as int,
                clip,
                k,
            ) {
                pixel
            } else {
                old(fb)@[k]
            },
{
    let mut row = y;
    while row < y + h
        invariant
            y <= row <= y + h,
            x + w <= usize::MAX,
            y + h <= usize::MAX,
            fb@.len() == old(fb)@.len(),
            forall|k: int|
                0 <= k < fb@.len() ==> #[trigger] fb@[k] == if reached(
                    width as int,
                    x as int,
                    y as int,
                    w as int,
                    clip,
                    row as int,
                    x as int,
                    k,
                ) {
                    pixel
                } else {
                    old(fb)@[k]
                },
        decreases y + h - row,
    {
        let mut col = x;
        while col < x + w
            invariant
                y <= row < y + h,
                x <= col <= x + w,
                x + w <= usize::MAX,
                fb@.len() == old(fb)@.len(),
                forall|k: int|
                    0 <= k < fb@.len() ==> #[trigger] fb@[k] == if reached(
                        width as int,
                        x as int,
                        y as int,
                        w as int,
                        clip,
                        row as int,
                        col as int,
                        k,
                    ) {
                        pixel
                    } else {
                        old(fb)@[k]
                    },
            decreases x + w - col,
        {
            let ghost before = fb@;
            let len = fb.len();
            let target: Option<usize> = if !clip || col < width {
                match row.checked_mul(width) {
                    Some(base) => match base.checked_add(col) {
                        Some(i) => if i < len {
                            Some(i)
                        } else {
                            None
                        },
                        None => None,
                    },
                    None => None,
                }
            } else {
                None
            };
            let painted = target.is_some();
            if let Some(i) = target {
                fb[i] = pixel;
            }
            proof {
                let wd = width as int;
                assert(row * width >= 0) by (nonlinear_arith)
                    requires
                        row >= 0,
                        width >= 0,
                ;
                assert(painted == ((clip ==> col < width) && row * width + col < fb@.len()));
                assert(painted ==> fb@ == before.update(cell(wd, row as int, col as int), pixel));
                assert(!painted ==> fb@ == before);
                assert forall|k: int| 0 <= k < fb@.len() implies #[trigger] fb@[k] == if reached(
                    wd,
                    x as int,
                    y as int,
                    w as int,
                    clip,
                    row as int,
                    col + 1,
                    k,
                ) {
                    pixel
                } else {
                    old(fb)@[k]
                } by {
                    let was = reached(wd, x as int, y as int, w as int, clip, row as int,
                        col as int, k);
                    let now = reached(wd, x as int, y as int, w as int, clip, row as int, col + 1,
                        k);
                    if was {
                        let (r, c) = choose|r: int, c: int|
                            x <= c < x + w && (y <= r < row || (r == row && c < col)) && (clip
                                ==> c < wd) && #[trigger] cell(wd, r, c) == k;
                        assert(cell(wd, r, c) == k && (y <= r < row || (r == row && c < col + 1)));
                    }
                    if now && !was {
                        let (r, c) = choose|r: int, c: int|
                            x <= c < x + w && (y <= r < row || (r == row && c < col + 1)) && (clip
                                ==> c < wd) && #[trigger] cell(wd, r, c) == k;
                        assert(r == row && c == col);
                        assert(cell(wd, row as int, col as int) == k);
                        assert(painted);
                    }
                    if painted && k == cell(wd, row as int, col as int) {
                        assert(now);
                    }
                }
            }
            col = col + 1;
        }
        proof {
            let wd = width as int;
            assert forall|k: int| 0 <= k < fb@.len() implies (#[trigger] reached(
                wd,
                x as int,
                y as int,
                w as int,
                clip,
                row as int,
                x + w,
                k,
            ) <==> reached(wd, x as int, y as int, w as int, clip, row + 1, x as int, k)) by {
                if reached(wd, x as int, y as int, w as int, clip, row as int, x + w, k) {
                    let (r, c) = choose|r: int, c: int|
                        x <= c < x + w && (y <= r < row || (r == row && c < x + w)) && (clip ==> c
                            < wd) && #[trigger] cell(wd, r, c) == k;
                    assert(cell(wd, r, c) == k && r < row + 1);
                }
                if reached(wd, x as int, y as int, w as int, clip, row + 1, x as int, k) {
                    let (r, c) = choose|r: int, c: int|
                        x <= c < x + w && (y <= r < row + 1 || (r == row + 1 && c < x)) && (clip
                            ==> c < wd) && #[trigger] cell(wd, r, c) == k;
                    assert(cell(wd, r, c) == k && (r < row || (r == row && c < x + w)));
                }
            }
        }
        row = row + 1;
    }
}

/// Fills the rectangle of `w` by `h` pixels at `(x, y)` with `color`, in a
/// frame buffer whose rows are `stride` bytes long.  Pixels behind the end
/// of the frame buffer are left out; pixels beyond the end of a row run on
/// into the next row.
pub fn draw_fill_rect(
    fb: &mut Vec<u32>,
    stride: usize,
    x: usize,
    y: usize,
    w: usize,
    h: usize,
    color: Color,
)
    requires
        x + w <= usize::MAX,
        y + h <= usize::MAX,
    ensures
        final(fb)@.len() == old(fb)@.len(),
        forall|k: int|
            0 <= k < old(fb)@.len() ==> #[trigger] final(fb)@[k] == if in_rect(
                stride as int / 4,
                x as int,
                y as int,
                w as int,
                h as int,
                false,
                k,
            ) {
                color.pixel()
            } else {
                old(fb)@[k]
            },
{
    fill_cells(fb, stride / 4, x, y, w, h, color.to_u32(), false);
}

/// Paints the rectangle of `w` by `h` pixels at `(x, y)` in a frame buffer
/// whose rows are `width` pixels long.  Pixels beyond the end of a row and
/// behind the end of the frame buffer are left out.
pub fn paint_rect(fb: &mut Vec<u32>, width: usize, x: usize, y: usize, w: usize, h: usize,
    color: u32)
    requires
        x + w <= usize::MAX,
        y + h <= usize::MAX,
    ensures
        final(fb)@.len() == old(fb)@.len(),
        forall|k: int|
            0 <= k < old(fb)@.len() ==> #[trigger] final(fb)@[k] == if in_rect(
                width as int,
                x as int,
                y as int,
                w as int,
                h as int,
                true,
                k,
            ) {
                color
            } else {
                old(fb)@[k]
            },
{
    fill_cells(fb, width, x, y, w, h, color, true);
}

/// The rectangle that a message of five words to the display asks for:
/// position, size and colour.
pub fn decode_rect(words: &Vec<u32>) -> (r: Option<(usize, usize, usize, usize, u32)>)
    ensures
        r == if words@.len() == 5 {
            Some(
                (
                    words@[0] as usize,
                    words@[1] as usize,
                    words@[2] as usize,
                    words@[3] as usize,
                    words@[4],
                ),
            )
        } else {
            None
        },
{
    if words.len() == 5 {
        Some(
            (
                words[0] as usize,
                words[1] as usize,
                words[2] as usize,
                words[3] as usize,
                words[4],
            ),
        )
    } else {
        None
    }
}

/// A point of the plane.
pub type Vertex = (isize, isize);

/// One more than the largest size of a screen and than the largest distance
/// of a vertex from the origin for which triangles are drawn; it keeps the
/// products of coordinates within 64 bits.
pub const COORDINATE_LIMIT: i64 = 0x4000_0000;

/// The edge function: twice the signed area of the triangle `a`, `b`, `c`.
/// Its sign says on which side of the line through `a` and `b` the point
/// `c` lies.
pub open spec fn edge(a: Vertex, b: Vertex, c: Vertex) -> int {
    (c.0 - a.0) * (b.1 - a.1) - (c.1 - a.1) * (b.0 - a.0)
}

/// Whether the point `p` lies in the triangle `p1`, `p2`, `p3` or on its
/// border: on the same side of all three edges.
pub open spec fn in_triangle(p1: Vertex, p2: Vertex, p3: Vertex, p: Vertex) -> bool {
    (edge(p1, p2, p) >= 0 && edge(p2, p3, p) >= 0 && edge(p3, p1, p) >= 0) || (edge(p1, p2, p)
        <= 0 && edge(p2, p3, p) <= 0 && edge(p3, p1, p) <= 0)
}

/// Whether a vertex is near enough to the origin.
pub open spec fn near(p: Vertex) -> bool {
    -COORDINATE_LIMIT < p.0 < COORDINATE_LIMIT && -COORDINATE_LIMIT < p.1 < COORDINATE_LIMIT
}

/// The width in pixels of a screen whose rows are `stride` bytes long.
pub open spec fn screen_width(stride: usize) -> int {
    stride as int / 4
}

/// The height in pixels of a screen of `pixels` pixels whose rows are
/// `stride` bytes long.
pub open spec fn screen_height(pixels: int, stride: usize) -> int {
    pixels * 4 / (stride as int)
}

/// Two pixels of the screen with the same place are the same pixel.
pub proof fn lemma_pixel_index_injective(width: int, x1: int, y1: int, x2: int, y2: int)
    requires
        0 <= x1 < width,
        0 <= x2 < width,
        0 <= y1,
        0 <= y2,
        pixel_index(width as usize, x1, y1) == pixel_index(width as usize, x2, y2),
        width <= usize::MAX,
    ensures
        x1 == x2,
        y1 == y2,
{
    assert(y1 == y2) by (nonlinear_arith)
        requires
            0 <= x1 < width,
            0 <= x2 < width,
            0 <= y1,
            0 <= y2,
            y1 * width + x1 == y2 * width + x2,
    ;
}

/// The whole screen fits into the frame buffer from which its height was taken.
pub proof fn lemma_screen_fits(pixels: int, stride: usize)
    requires
        pixels >= 0,
        stride > 0,
    ensures
        0 <= screen_width(stride) * screen_height(pixels, stride) <= pixels,
{
    let w = stride as int / 4;
    let h = pixels * 4 / (stride as int);
    assert(0 <= w * h <= pixels) by (nonlinear_arith)
        requires
            stride > 0,
            pixels >= 0,
            w == stride as int / 4,
            h == pixels * 4 / (stride as int),
    {
        assert(4 * w <= stride);
        assert(h * stride <= pixels * 4);
        assert(0 <= w && 0 <= h);
        assert(4 * (w * h) == (4 * w) * h);
        assert((4 * w) * h <= stride * h);
    }
}

/// The sign of the edge function: 1, 0 or -1.
fn edge_sign(a: Vertex, b: Vertex, c: Vertex) -> (sign: i8)
    requires
        near(a),
        near(b),
        -2 * COORDINATE_LIMIT < c.0 < 2 * COORDINATE_LIMIT,
        -2 * COORDINATE_LIMIT < c.1 < 2 * COORDINATE_LIMIT,
    ensures
        sign == if edge(a, b, c) > 0 {
            1int
        } else if edge(a, b, c) < 0 {
            -1int
        } else {
            0int
        },
{
    let dx = c.0 as i64 - a.0 as i64;
    let dy = b.1 as i64 - a.1 as i64;
    let ex = c.1 as i64 - a.1 as i64;
    let ey = b.0 as i64 - a.0 as i64;
    assert(-0x6000_0000_0000_0000 < dx * dy < 0x6000_0000_0000_0000) by (nonlinear_arith)
        requires
            -0xC000_0000 < dx < 0xC000_0000,
            -0x8000_0000 < dy < 0x8000_0000,
    ;
    assert(-0x6000_0000_0000_0000 < ex * ey < 0x6000_0000_0000_0000) by (nonlinear_arith)
        requires
            -0xC000_0000 < ex < 0xC000_0000,
            -0x8000_0000 < ey < 0x8000_0000,
    ;
    let first = (dx as i128) * (dy as i128);
    let second = (ex as i128) * (ey as i128);
    if first > second {
        1
    } else if first < second {
        -1
    } else {
        0
    }
}

/// Whether `v` lies between the least and the largest of `a`, `b` and `c`.
pub open spec fn between(a: int, b: int, c: int, v: int) -> bool {
    (v >= a || v >= b || v >= c) && (v <= a || v <= b || v <= c)
}

/// Whether the pixel `(x, y)` is painted when the triangle `p1`, `p2`, `p3`
/// is drawn on a screen of `width` by `height` pixels: it lies on the
/// screen, within the box around the three corners, and on the same side
/// of all three edges.
pub open spec fn triangle_covers(
    width: int,
    height: int,
    p1: Vertex,
    p2: Vertex,
    p3: Vertex,
    x: int,
    y: int,
) -> bool {
    &&& 0 <= x < width
    &&& 0 <= y < height
    &&& between(p1.0 as int, p2.0 as int, p3.0 as int, x)
    &&& between(p1.1 as int, p2.1 as int, p3.1 as int, y)
    &&& in_triangle(p1, p2, p3, (x as isize, y as isize))
}

/// What drawing a triangle makes of the frame buffer `before`: the pixels
/// that the triangle covers have the colour `pixel`, and nothing else has
/// changed.
pub open spec fn triangle_drawn(
    before: Seq<u32>,
    after: Seq<u32>,
    width: int,
    height: int,
    p1: Vertex,
    p2: Vertex,
    p3: Vertex,
    pixel: u32,
) -> bool {
    &&& after.len() == before.len()
    &&& forall|x: int, y: int|
        0 <= x < width && 0 <= y < height ==> #[trigger] after[pixel_index(width as usize, x, y)]
            == if triangle_covers(width, height, p1, p2, p3, x, y) {
            pixel
        } else {
            before[pixel_index(width as usize, x, y)]
        }
    &&& forall|k: int| width * height <= k < before.len() ==> #[trigger] after[k] == before[k]
}

/// The smallest of three numbers.
fn min3(a: isize, b: isize, c: isize) -> (m: isize)
    ensures
        m == min3_of(a, b, c),
{
    let ab = if a <= b {
        a
    } else {
        b
    };
    if ab <= c {
        ab
    } else {
        c
    }
}

/// The largest of three numbers.
fn max3(a: isize, b: isize, c: isize) -> (m: isize)
    ensures
        m == max3_of(a, b, c),
{
    let ab = if a >= b {
        a
    } else {
        b
    };
    if ab >= c {
        ab
    } else {
        c
    }
}

/// Whether all three signs are at least zero, or all three at most zero.
fn same_side(w0: i8, w1: i8, w2: i8) -> (b: bool)
    ensures
        b == ((w0 >= 0 && w1 >= 0 && w2 >= 0) || (w0 <= 0 && w1 <= 0 && w2 <= 0)),
{
    (w0 >= 0 && w1 >= 0 && w2 >= 0) || (w0 <= 0 && w1 <= 0 && w2 <= 0)
}

/// Whether the pixel `(x, y)` of the screen comes before the pixel `(cx,
/// cy)` when the pixels are taken row by row.
pub open spec fn comes_before(x: int, y: int, cx: int, cy: int) -> bool {
    y < cy || (y == cy && x < cx)
}

/// Draws the filled triangle `p1`, `p2`, `p3` in the colour `color` into a
/// frame buffer whose rows are `stride` bytes long.
pub fn draw_triangle(
    fb: &mut Vec<u32>,
    stride: usize,
    p1: Vertex,
    p2: Vertex,
    p3: Vertex,
    color: Color,
)
    requires
        stride > 0,
        old(fb)@.len() * 4 <= usize::MAX,
        stride < COORDINATE_LIMIT,
        screen_height(old(fb)@.len() as int, stride) < COORDINATE_LIMIT,
        near(p1),
        near(p2),
        near(p3),
    ensures
        triangle_drawn(
            old(fb)@,
            final(fb)@,
            screen_width(stride),
            screen_height(old(fb)@.len() as int, stride),
            p1,
            p2,
            p3,
            color.pixel(),
        ),
{
    let width = stride / 4;
    let height = fb.len() * 4 / stride;
    let pixel = color.to_u32();
    proof {
        lemma_screen_fits(fb@.len() as int, stride);
    }
    let min_x = {
        let m = min3(p1.0, p2.0, p3.0);
        if m < 0 {
            0
        } else {
            m
        }
    };
    let max_x = {
        let m = max3(p1.0, p2.0, p3.0);
        if m > width as isize - 1 {
            width as isize - 1
        } else {
            m
        }
    };
    let min_y = {
        let m = min3(p1.1, p2.1, p3.1);
        if m < 0 {
            0
        } else {
            m
        }
    };
    let max_y = {
        let m = max3(p1.1, p2.1, p3.1);
        if m > height as isize - 1 {
            height as isize - 1
        } else {
            m
        }
    };
    let ghost w = width as int;
    let ghost h = height as int;
    let mut y = min_y;
    while y <= max_y
        invariant
            0 <= min_y <= y,
            y <= max_y + 1 || y == min_y,
            max_y < h,
            0 <= min_x,
            max_x < w,
            w == width,
            h == height,
            w == screen_width(stride),
            h == screen_height(old(fb)@.len() as int, stride),
            w < COORDINATE_LIMIT,
            h < COORDINATE_LIMIT,
            w * h <= old(fb)@.len(),
            near(p1),
            near(p2),
            near(p3),
            pixel == color.pixel(),
            min_x == if min3_of(p1.0, p2.0, p3.0) < 0 {
                0
            } else {
                min3_of(p1.0, p2.0, p3.0)
            },
            max_x == if max3_of(p1.0, p2.0, p3.0) > w - 1 {
                w - 1
            } else {
                max3_of(p1.0, p2.0, p3.0)
            },
            min_y == if min3_of(p1.1, p2.1, p3.1) < 0 {
                0
            } else {
                min3_of(p1.1, p2.1, p3.1)
            },
            max_y == if max3_of(p1.1, p2.1, p3.1) > h - 1 {
                h - 1
            } else {
                max3_of(p1.1, p2.1, p3.1)
            },
            fb@.len() == old(fb)@.len(),
            forall|px: int, py: int|
                0 <= px < w && 0 <= py < h ==> #[trigger] fb@[pixel_index(width, px, py)]
                    == if triangle_covers(w, h, p1, p2, p3, px, py) && py < y {
                    pixel
                } else {
                    old(fb)@[pixel_index(width, px, py)]
                },
            forall|k: int| w * h <= k < fb@.len() ==> #[trigger] fb@[k] == old(fb)@[k],
        decreases
                (if y <= max_y {
                    max_y + 1 - y
                } else {
                    0
                }),
    {
        let mut x = min_x;
        while x <= max_x
            invariant
                0 <= min_y <= y <= max_y,
                max_y < h,
                0 <= min_x <= x,
                x <= max_x + 1 || x == min_x,
                max_x < w,
                w == width,
                h == height,
                w < COORDINATE_LIMIT,
                h < COORDINATE_LIMIT,
                w * h <= old(fb)@.len(),
                near(p1),
                near(p2),
                near(p3),
                min_x == if min3_of(p1.0, p2.0, p3.0) < 0 {
                    0
                } else {
                    min3_of(p1.0, p2.0, p3.0)
                },
                max_x == if max3_of(p1.0, p2.0, p3.0) > w - 1 {
                    w - 1
                } else {
                    max3_of(p1.0, p2.0, p3.0)
                },
                min_y == if min3_of(p1.1, p2.1, p3.1) < 0 {
                    0
                } else {
                    min3_of(p1.1, p2.1, p3.1)
                },
                max_y == if max3_of(p1.1, p2.1, p3.1) > h - 1 {
                    h - 1
                } else {
                    max3_of(p1.1, p2.1, p3.1)
                },
                fb@.len() == old(fb)@.len(),
                forall|px: int, py: int|
                    0 <= px < w && 0 <= py < h ==> #[trigger] fb@[pixel_index(width, px, py)]
                        == if triangle_covers(w, h, p1, p2, p3, px, py) && comes_before(
                        px,
                        py,
                        x as int,
                        y as int,
                    ) {
                        pixel
                    } else {
                        old(fb)@[pixel_index(width, px, py)]
                    },
                forall|k: int| w * h <= k < fb@.len() ==> #[trigger] fb@[k] == old(fb)@[k],
            decreases
                    (if x <= max_x {
                        max_x + 1 - x
                    } else {
                        0
                    }),
        {
            let p = (x, y);
            let w0 = edge_sign(p1, p2, p);
            let w1 = edge_sign(p2, p3, p);
            let w2 = edge_sign(p3, p1, p);
            let inside = same_side(w0, w1, w2);
            let ghost before = fb@;
            if inside {
                proof {
                    if on_screen(width, height, x, y) {
                        lemma_pixel_index_in_bounds(width, height, x as int, y as int);
                    }
                }
                set_pixel(fb, width, height, x, y, pixel);
            }
            proof {
                lemma_pixel_index_in_bounds(width, height, x as int, y as int);
                assert(inside == in_triangle(p1, p2, p3, p));
                assert(between(p1.0 as int, p2.0 as int, p3.0 as int, x as int));
                assert(between(p1.1 as int, p2.1 as int, p3.1 as int, y as int));
                assert forall|px: int, py: int| 0 <= px < w && 0 <= py < h
                    implies #[trigger] fb@[pixel_index(
                    width,
                    px,
                    py,
                )] == if triangle_covers(w, h, p1, p2, p3, px, py) && comes_before(
                    px,
                    py,
                    x + 1,
                    y as int,
                ) {
                    pixel
                } else {
                    old(fb)@[pixel_index(width, px, py)]
                } by {
                    lemma_pixel_index_in_bounds(width, height, px, py);
                    if pixel_index(width, px, py) == pixel_index(width, x as int, y as int) {
                        lemma_pixel_index_injective(w, px, py, x as int, y as int);
                    }
                }
            }
            x = x + 1;
        }
        proof {
            assert forall|px: int, py: int| 0 <= px < w && 0 <= py < h
                implies #[trigger] fb@[pixel_index(
                width,
                px,
                py,
            )] == if triangle_covers(w, h, p1, p2, p3, px, py) && py < y + 1 {
                pixel
            } else {
                old(fb)@[pixel_index(width, px, py)]
            } by {
                if triangle_covers(w, h, p1, p2, p3, px, py) && py == y {
                    assert(px <= max_x);
                }
            }
        }
        y = y + 1;
    }
    proof {
        assert forall|px: int, py: int| 0 <= px < w && 0 <= py < h
            implies #[trigger] fb@[pixel_index(
            width,
            px,
            py,
        )] == if triangle_covers(w, h, p1, p2, p3, px, py) {
            pixel
        } else {
            old(fb)@[pixel_index(width, px, py)]
        } by {
            if triangle_covers(w, h, p1, p2, p3, px, py) {
                assert(py <= max_y);
            }
        }
    }
}

/// The least of three numbers.
pub open spec fn min3_of(a: isize, b: isize, c: isize) -> int {
    if a <= b && a <= c {
        a as int
    } else if b <= c {
        b as int
    } else {
        c as int
    }
}

/// The largest of three numbers.
pub open spec fn max3_of(a: isize, b: isize, c: isize) -> int {
    if a >= b && a >= c {
        a as int
    } else if b >= c {
        b as int
    } else {
        c as int
    }
}

/// Draws the filled quadrangle `p1`, `p2`, `p3`, `p4` as the two triangles
/// `p1`, `p2`, `p3` and `p1`, `p3`, `p4`.
pub fn draw_quad(
    fb: &mut Vec<u32>,
    stride: usize,
    p1: Vertex,
    p2: Vertex,
    p3: Vertex,
    p4: Vertex,
    color: Color,
)
    requires
        stride > 0,
        old(fb)@.len() * 4 <= usize::MAX,
        stride < COORDINATE_LIMIT,
        screen_height(old(fb)@.len() as int, stride) < COORDINATE_LIMIT,
        near(p1),
        near(p2),
        near(p3),
        near(p4),
    ensures
        exists|between: Seq<u32>|
            #![trigger between.len()]
            triangle_drawn(
                old(fb)@,
                between,
                screen_width(stride),
                screen_height(old(fb)@.len() as int, stride),
                p1,
                p2,
                p3,
                color.pixel(),
            ) && triangle_drawn(
                between,
                final(fb)@,
                screen_width(stride),
                screen_height(old(fb)@.len() as int, stride),
                p1,
                p3,
                p4,
                color.pixel(),
            ),
{
    draw_triangle(fb, stride, p1, p2, p3, color);
    let ghost between = fb@;
    draw_triangle(fb, stride, p1, p3, p4, color);
    proof {
        assert(between.len() == old(fb)@.len());
    }
}

/// One piece of the picture.
#[derive(Clone, Copy, Debug)]
pub enum Piece {
    /// The whole screen in one colour.
    Background(Color),
    Triangle(Vertex, Vertex, Vertex, Color),
    Quad(Vertex, Vertex, Vertex, Vertex, Color),
    /// A rectangle by its corner and its size.
    Rect(usize, usize, usize, usize, Color),
}

/// The pieces of the picture: the background, six pieces that make up the
/// letter O and seven that make up the letter S.  Numbers from 14 on name
/// no piece.
pub open spec fn piece_numbered(piece_id: usize) -> Option<Piece> {
    if piece_id == 0 {
        Some(Piece::Background(Color::opaque(255, 255, 255)))
    } else if piece_id == 1 {
        Some(Piece::Triangle((50, 50), (150, 50), (50, 150), Color::opaque(10, 20, 200)))
    } else if piece_id == 2 {
        Some(Piece::Quad((50, 150), (150, 50), (150, 250), (50, 350), Color::opaque(10, 210, 255)))
    } else if piece_id == 3 {
        Some(Piece::Triangle((50, 350), (250, 550), (50, 550), Color::opaque(245, 200, 10)))
    } else if piece_id == 4 {
        Some(Piece::Triangle((150, 50), (350, 50), (350, 250), Color::opaque(220, 80, 240)))
    } else if piece_id == 5 {
        Some(Piece::Quad((250, 150), (350, 250), (350, 450), (250, 350), Color::opaque(240, 30,
            60)))
    } else if piece_id == 6 {
        Some(Piece::Quad((150, 450), (250, 350), (350, 450), (250, 550), Color::opaque(40, 240,
            100)))
    } else if piece_id == 7 {
        Some(Piece::Triangle((600, 50), (700, 50), (700, 150), Color::opaque(240, 30, 60)))
    } else if piece_id == 8 {
        Some(Piece::Triangle((700, 30), (900, 30), (700, 150), Color::opaque(220, 80, 240)))
    } else if piece_id == 9 {
        Some(Piece::Triangle((600, 50), (500, 150), (600, 250), Color::opaque(245, 200, 10)))
    } else if piece_id == 10 {
        Some(Piece::Rect(600, 250, 100, 100, Color::opaque(40, 240, 100)))
    } else if piece_id == 11 {
        Some(Piece::Triangle((700, 250), (800, 350), (700, 450), Color::opaque(220, 80, 240)))
    } else if piece_id == 12 {
        Some(Piece::Quad((500, 450), (600, 450), (650, 550), (550, 550), Color::opaque(0, 140,
            255)))
    } else if piece_id == 13 {
        Some(Piece::Triangle((600, 450), (700, 450), (650, 550), Color::opaque(240, 30, 60)))
    } else {
        None
    }
}

/// The piece with the number `piece_id`.
pub fn piece(piece_id: usize) -> (p: Option<Piece>)
    ensures
        p == piece_numbered(piece_id),
{
    if piece_id == 0 {
        Some(Piece::Background(Color::rgb(255, 255, 255)))
    } else if piece_id == 1 {
        Some(Piece::Triangle((50, 50), (150, 50), (50, 150), Color::rgb(10, 20, 200)))
    } else if piece_id == 2 {
        Some(Piece::Quad((50, 150), (150, 50), (150, 250), (50, 350), Color::rgb(10, 210, 255)))
    } else if piece_id == 3 {
        Some(Piece::Triangle((50, 350), (250, 550), (50, 550), Color::rgb(245, 200, 10)))
    } else if piece_id == 4 {
        Some(Piece::Triangle((150, 50), (350, 50), (350, 250), Color::rgb(220, 80, 240)))
    } else if piece_id == 5 {
        Some(Piece::Quad((250, 150), (350, 250), (350, 450), (250, 350), Color::rgb(240, 30, 60)))
    } else if piece_id == 6 {
        Some(Piece::Quad((150, 450), (250, 350), (350, 450), (250, 550), Color::rgb(40, 240, 100)))
    } else if piece_id == 7 {
        Some(Piece::Triangle((600, 50), (700, 50), (700, 150), Color::rgb(240, 30, 60)))
    } else if piece_id == 8 {
        Some(Piece::Triangle((700, 30), (900, 30), (700, 150), Color::rgb(220, 80, 240)))
    } else if piece_id == 9 {
        Some(Piece::Triangle((600, 50), (500, 150), (600, 250), Color::rgb(245, 200, 10)))
    } else if piece_id == 10 {
        Some(Piece::Rect(600, 250, 100, 100, Color::rgb(40, 240, 100)))
    } else if piece_id == 11 {
        Some(Piece::Triangle((700, 250), (800, 350), (700, 450), Color::rgb(220, 80, 240)))
    } else if piece_id == 12 {
        Some(Piece::Quad((500, 450), (600, 450), (650, 550), (550, 550), Color::rgb(0, 140, 255)))
    } else if piece_id == 13 {
        Some(Piece::Triangle((600, 450), (700, 450), (650, 550), Color::rgb(240, 30, 60)))
    } else {
        None
    }
}

/// What drawing a rectangle makes of the frame buffer `before`.
pub open spec fn rect_drawn(
    before: Seq<u32>,
    after: Seq<u32>,
    stride: usize,
    x: usize,
    y: usize,
    w: usize,
    h: usize,
    pixel: u32,
) -> bool {
    &&& after.len() == before.len()
    &&& forall|k: int|
        0 <= k < before.len() ==> #[trigger] after[k] == if in_rect(
            stride as int / 4,
            x as int,
            y as int,
            w as int,
            h as int,
            false,
            k,
        ) {
            pixel
        } else {
            before[k]
        }
}

/// What drawing the piece `p` makes of the frame buffer `before`; nothing
/// is drawn where there is no piece.
pub open spec fn piece_drawn(before: Seq<u32>, after: Seq<u32>, stride: usize,
    p: Option<Piece>) -> bool {
    let width = screen_width(stride);
    let height = screen_height(before.len() as int, stride);
    match p {
        None => after == before,
        Some(Piece::Background(color)) => rect_drawn(
            before,
            after,
            stride,
            0,
            0,
            width as usize,
            height as usize,
            color.pixel(),
        ),
        Some(Piece::Rect(x, y, w, h, color)) => rect_drawn(
            before,
            after,
            stride,
            x,
            y,
            w,
            h,
            color.pixel(),
        ),
        Some(Piece::Triangle(p1, p2, p3, color)) => triangle_drawn(
            before,
            after,
            width,
            height,
            p1,
            p2,
            p3,
            color.pixel(),
        ),
        Some(Piece::Quad(p1, p2, p3, p4, color)) => exists|between: Seq<u32>|
            #![trigger between.len()]
            triangle_drawn(before, between, width, height, p1, p2, p3, color.pixel())
                && triangle_drawn(between, after, width, height, p1, p3, p4, color.pixel()),
    }
}

/// Draws the piece with the number `piece_id` into a frame buffer whose
/// rows are `stride` bytes long.
pub fn render_piece(fb: &mut Vec<u32>, stride: usize, piece_id: usize)
    requires
        stride > 0,
        old(fb)@.len() * 4 <= usize::MAX,
        stride < COORDINATE_LIMIT,
        screen_height(old(fb)@.len() as int, stride) < COORDINATE_LIMIT,
    ensures
        piece_drawn(old(fb)@, final(fb)@, stride, piece_numbered(piece_id)),
{
    match piece(piece_id) {
        None => {},
        Some(Piece::Background(color)) => {
            let width = stride / 4;
            let height = fb.len() * 4 / stride;
            draw_fill_rect(fb, stride, 0, 0, width, height, color);
        },
        Some(Piece::Rect(x, y, w, h, color)) => {
            if x <= usize::MAX - w && y <= usize::MAX - h {
                draw_fill_rect(fb, stride, x, y, w, h, color);
            }
        },
        Some(Piece::Triangle(p1, p2, p3, color)) => {
            draw_triangle(fb, stride, p1, p2, p3, color);
        },
        Some(Piece::Quad(p1, p2, p3, p4, color)) => {
            draw_quad(fb, stride, p1, p2, p3, p4, color);
        },
    }
}

} // verus!
