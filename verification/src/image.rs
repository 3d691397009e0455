//! Raster images of point sets and of statistics: RGBA, eight bits a
//! channel, row by row from the top. Encoding an image into a file format is
//! left to the caller.

use vstd::prelude::*;

verus! {

/// The colour of one pixel: red, green, blue, alpha.
pub type Rgba = (u8, u8, u8, u8);

/// The radius in pixels of the disk that marks a point.
pub const POINT_RADIUS: usize = 2;

/// The side in pixels of the square that shows one entry of a table.
pub const BIT_PIXEL_SIZE: usize = 8;

/// An image held in memory.
pub struct Canvas {
    width: usize,
    height: usize,
    bytes: Vec<u8>,
}

proof fn lemma_offset_in_range(width: int, height: int, x: int, y: int)
    by (nonlinear_arith)
    requires
        0 <= x < width,
        0 <= y < height,
    ensures
        0 <= y * width <= y * width + x < width * height <= width * height * 4,
        0 <= (y * width + x) * 4,
        (y * width + x) * 4 + 4 <= width * height * 4,
{
}

proof fn lemma_offset_injective(width: int, x: int, y: int, x2: int, y2: int)
    by (nonlinear_arith)
    requires
        0 <= x < width,
        0 <= x2 < width,
        0 <= y,
        0 <= y2,
        y * width + x == y2 * width + x2,
    ensures
        x == x2,
        y == y2,
{
}

/// The pixel at `(px, py)` lies on the disk of radius `POINT_RADIUS` around
/// `(cx, cy)`.
pub open spec fn in_disk(cx: int, cy: int, px: int, py: int) -> bool {
    (cx - px) * (cx - px) + (cy - py) * (cy - py) <= POINT_RADIUS * POINT_RADIUS
}

proof fn lemma_disk_is_near(dx: int, dy: int)
    by (nonlinear_arith)
    requires
        dx * dx + dy * dy <= 4,
    ensures
        -2 <= dx <= 2,
        -2 <= dy <= 2,
{
}

proof fn lemma_small_square(d: int)
    by (nonlinear_arith)
    requires
        -2 <= d <= 2,
    ensures
        0 <= d * d <= 4,
        d * d == (-d) * (-d),
{
}

impl Canvas {
    /// The buffer holds four bytes for every pixel.
    pub closed spec fn well_formed(&self) -> bool {
        self.bytes@.len() == self.width * self.height * 4
    }

    /// The width of the image in pixels.
    pub closed spec fn width_spec(&self) -> nat {
        self.width as nat
    }

    /// The height of the image in pixels.
    pub closed spec fn height_spec(&self) -> nat {
        self.height as nat
    }

    /// The bytes of the image: row after row, four bytes a pixel.
    pub closed spec fn view(&self) -> Seq<u8> {
        self.bytes@
    }

    /// The colour of the pixel in column `x` of row `y`.
    pub closed spec fn pixel(&self, x: int, y: int) -> Rgba {
        let at = (y * self.width + x) * 4;
        (self.bytes@[at], self.bytes@[at + 1], self.bytes@[at + 2], self.bytes@[at + 3])
    }

    /// `(x, y)` is a pixel of the image.
    pub open spec fn holds(&self, x: int, y: int) -> bool {
        0 <= x < self.width_spec() && 0 <= y < self.height_spec()
    }

    /// An image of the given size with every byte set to `fill`.
    pub fn new(width: usize, height: usize, fill: u8) -> (canvas: Canvas)
        requires
            width * height * 4 <= usize::MAX,
        ensures
            canvas.well_formed(),
            canvas.width_spec() == width,
            canvas.height_spec() == height,
            forall|x: int, y: int|
                canvas.holds(x, y) ==> #[trigger] canvas.pixel(x, y) == (fill, fill, fill, fill),
    {
        proof {
            assert(width * height <= width * height * 4) by (nonlinear_arith)
                requires
                    0 <= width,
                    0 <= height,
            ;
        }
        let total = width * height * 4;
        let mut bytes: Vec<u8> = Vec::new();
        let mut k: usize = 0;
        while k < total
            invariant
                k <= total,
                bytes@.len() == k,
                forall|t: int| 0 <= t < k ==> bytes@[t] == fill,
            decreases total - k,
        {
            bytes.push(fill);
            k += 1;
        }
        let canvas = Canvas { width, height, bytes };
        proof {
            assert forall|x: int, y: int| canvas.holds(x, y) implies #[trigger] canvas.pixel(x, y)
                == (fill, fill, fill, fill) by {
                lemma_offset_in_range(width as int, height as int, x, y);
            }
        }
        canvas
    }

    /// The width of the image in pixels.
    pub fn width(&self) -> (w: usize)
        ensures
            w == self.width_spec(),
    {
        self.width
    }

    /// The height of the image in pixels.
    pub fn height(&self) -> (h: usize)
        ensures
            h == self.height_spec(),
    {
        self.height
    }

    /// The bytes of the image: row after row, four bytes a pixel.
    pub fn as_bytes(&self) -> (bytes: &[u8])
        ensures
            bytes@ == self@,
    {
        self.bytes.as_slice()
    }

    /// The colour of the pixel in column `x` of row `y`.
    pub fn get_pixel(&self, x: usize, y: usize) -> (colour: Rgba)
        requires
            self.well_formed(),
            self.holds(x as int, y as int),
        ensures
            colour == self.pixel(x as int, y as int),
    {
        let total = self.bytes.len();
        proof {
            lemma_offset_in_range(self.width as int, self.height as int, x as int, y as int);
            assert(total == self.width * self.height * 4);
        }
        let at = (y * self.width + x) * 4;
        (self.bytes[at], self.bytes[at + 1], self.bytes[at + 2], self.bytes[at + 3])
    }

    /// Gives the pixel in column `x` of row `y` a colour.
    pub fn set_pixel(&mut self, x: usize, y: usize, colour: Rgba)
        requires
            old(self).well_formed(),
            old(self).holds(x as int, y as int),
        ensures
            final(self).well_formed(),
            final(self).width_spec() == old(self).width_spec(),
            final(self).height_spec() == old(self).height_spec(),
            forall|px: int, py: int|
                old(self).holds(px, py) ==> #[trigger] final(self).pixel(px, py) == if px == x && py
                    == y {
                    colour
                } else {
                    old(self).pixel(px, py)
                },
    {
        let total = self.bytes.len();
        proof {
            lemma_offset_in_range(self.width as int, self.height as int, x as int, y as int);
            assert(total == self.width * self.height * 4);
        }
        let at = (y * self.width + x) * 4;
        self.bytes.set(at, colour.0);
        self.bytes.set(at + 1, colour.1);
        self.bytes.set(at + 2, colour.2);
        self.bytes.set(at + 3, colour.3);
        proof {
            let w = self.width as int;
            assert forall|px: int, py: int| old(self).holds(px, py) implies #[trigger] self.pixel(
                px,
                py,
            ) == if px == x && py == y {
                colour
            } else {
                old(self).pixel(px, py)
            } by {
                lemma_offset_in_range(w, self.height as int, px, py);
                if py * w + px == y * w + x {
                    lemma_offset_injective(w, px, py, x as int, y as int);
                }
            }
        }
    }
}

/// Black, fully opaque.
pub open spec fn black() -> Rgba {
    (0u8, 0u8, 0u8, 0xffu8)
}

/// The grey of the given shade, fully opaque.
pub open spec fn grey(shade: u8) -> Rgba {
    (shade, shade, shade, 0xffu8)
}

impl Canvas {
    /// Draws a point: a black disk of radius `POINT_RADIUS` around
    /// `(x, y)`, as far as it lies on the image.
    pub fn plot_point(&mut self, x: usize, y: usize)
        requires
            old(self).well_formed(),
            x + POINT_RADIUS + 1 <= usize::MAX,
            y + POINT_RADIUS + 1 <= usize::MAX,
        ensures
            final(self).well_formed(),
            final(self).width_spec() == old(self).width_spec(),
            final(self).height_spec() == old(self).height_spec(),
            forall|px: int, py: int|
                old(self).holds(px, py) ==> #[trigger] final(self).pixel(px, py) == if in_disk(
                    x as int,
                    y as int,
                    px,
                    py,
                ) {
                    black()
                } else {
                    old(self).pixel(px, py)
                },
    {
        let min_x = if x >= POINT_RADIUS { x - POINT_RADIUS } else { 0 };
        let min_y = if y >= POINT_RADIUS { y - POINT_RADIUS } else { 0 };
        let max_x = if x + POINT_RADIUS + 1 <= self.width { x + POINT_RADIUS + 1 } else { self.width };
        let max_y = if y + POINT_RADIUS + 1 <= self.height {
            y + POINT_RADIUS + 1
        } else {
            self.height
        };
        proof {
            assert forall|px: int, py: int|
                old(self).holds(px, py) && in_disk(x as int, y as int, px, py) implies min_x <= px
                < max_x && min_y <= py < max_y by {
                lemma_disk_is_near(x - px, y - py);
            }
        }
        let mut yy = min_y;
        while yy < max_y
            invariant
                min_y <= yy,
                max_x <= self.width,
                max_y <= self.height,
                min_x + POINT_RADIUS >= x,
                min_y + POINT_RADIUS >= y,
                max_x <= x + POINT_RADIUS + 1,
                max_y <= y + POINT_RADIUS + 1,
                self.well_formed(),
                self.width_spec() == old(self).width_spec(),
                self.height_spec() == old(self).height_spec(),
                forall|px: int, py: int|
                    old(self).holds(px, py) && in_disk(x as int, y as int, px, py) ==> min_x <= px
                        < max_x && min_y <= py < max_y,
                forall|px: int, py: int|
                    old(self).holds(px, py) ==> #[trigger] self.pixel(px, py) == if py < yy
                        && in_disk(x as int, y as int, px, py) {
                        black()
                    } else {
                        old(self).pixel(px, py)
                    },
            decreases max_y - yy,
        {
            let mut xx = min_x;
            while xx < max_x
                invariant
                    min_x <= xx,
                    min_y <= yy < max_y,
                    max_x <= self.width,
                    max_y <= self.height,
                    min_x + POINT_RADIUS >= x,
                    min_y + POINT_RADIUS >= y,
                    max_x <= x + POINT_RADIUS + 1,
                    max_y <= y + POINT_RADIUS + 1,
                    self.well_formed(),
                    self.width_spec() == old(self).width_spec(),
                    self.height_spec() == old(self).height_spec(),
                    forall|px: int, py: int|
                        old(self).holds(px, py) && in_disk(x as int, y as int, px, py) ==> min_x
                            <= px < max_x && min_y <= py < max_y,
                    forall|px: int, py: int|
                        old(self).holds(px, py) ==> #[trigger] self.pixel(px, py) == if (py < yy
                            || (py == yy && px < xx)) && in_disk(x as int, y as int, px, py) {
                            black()
                        } else {
                            old(self).pixel(px, py)
                        },
                decreases max_x - xx,
            {
                let dx = if x >= xx { x - xx } else { xx - x };
                let dy = if y >= yy { y - yy } else { yy - y };
                proof {
                    lemma_small_square(x - xx);
                    lemma_small_square(y - yy);
                }
                if dx * dx + dy * dy <= POINT_RADIUS * POINT_RADIUS {
                    self.set_pixel(xx, yy, (0, 0, 0, 0xff));
                }
                xx += 1;
            }
            yy += 1;
        }
    }

    /// Draws the points one after the other.
    pub fn plot_points(&mut self, points: &[(usize, usize)])
        requires
            old(self).well_formed(),
            forall|k: int|
                0 <= k < points@.len() ==> (#[trigger] points@[k]).0 + POINT_RADIUS + 1
                    <= usize::MAX && points@[k].1 + POINT_RADIUS + 1 <= usize::MAX,
        ensures
            final(self).well_formed(),
            final(self).width_spec() == old(self).width_spec(),
            final(self).height_spec() == old(self).height_spec(),
            forall|px: int, py: int|
                old(self).holds(px, py) ==> #[trigger] final(self).pixel(px, py) == if on_some_disk(
                    points@,
                    px,
                    py,
                ) {
                    black()
                } else {
                    old(self).pixel(px, py)
                },
    {
        let mut k: usize = 0;
        while k < points.len()
            invariant
                k <= points@.len(),
                self.well_formed(),
                self.width_spec() == old(self).width_spec(),
                self.height_spec() == old(self).height_spec(),
                forall|t: int|
                    0 <= t < points@.len() ==> (#[trigger] points@[t]).0 + POINT_RADIUS + 1
                        <= usize::MAX && points@[t].1 + POINT_RADIUS + 1 <= usize::MAX,
                forall|px: int, py: int|
                    old(self).holds(px, py) ==> #[trigger] self.pixel(px, py) == if on_some_disk(
                        points@.take(k as int),
                        px,
                        py,
                    ) {
                        black()
                    } else {
                        old(self).pixel(px, py)
                    },
            decreases points@.len() - k,
        {
            let ghost before = *self;
            let (x, y) = points[k];
            self.plot_point(x, y);
            proof {
                let done = points@.take(k as int);
                let next = points@.take(k + 1);
                assert forall|px: int, py: int| old(self).holds(px, py) implies #[trigger] self.pixel(
                    px,
                    py,
                ) == if on_some_disk(next, px, py) {
                    black()
                } else {
                    old(self).pixel(px, py)
                } by {
                    assert(before.holds(px, py));
                    if on_some_disk(done, px, py) {
                        let t = choose|t: int|
                            0 <= t < done.len() && in_disk(
                                done[t].0 as int,
                                done[t].1 as int,
                                px,
                                py,
                            );
                        assert(next[t] == done[t]);
                    }
                    if in_disk(x as int, y as int, px, py) {
                        assert(next[k as int] == (x, y));
                    }
                    if on_some_disk(next, px, py) {
                        let t = choose|t: int|
                            0 <= t < next.len() && in_disk(
                                next[t].0 as int,
                                next[t].1 as int,
                                px,
                                py,
                            );
                        if t < k {
                            assert(done[t] == next[t]);
                        }
                    }
                }
            }
            k += 1;
        }
        proof {
            assert(points@.take(k as int) =~= points@);
        }
    }
}

/// The pixel at `(px, py)` lies on the disk of one of the points.
pub open spec fn on_some_disk(points: Seq<(usize, usize)>, px: int, py: int) -> bool {
    exists|k: int|
        0 <= k < points.len() && in_disk(
            (#[trigger] points[k]).0 as int,
            points[k].1 as int,
            px,
            py,
        )
}

/// The width in pixels of the image of a set of statistics: three tables
/// side by side, each 32 squares wide.
pub const STATS_IMAGE_WIDTH: usize = 768;

/// The height in pixels of the image of a set of statistics: 32 squares.
pub const STATS_IMAGE_HEIGHT: usize = 256;

impl Canvas {
    /// Fills the square in column `bx` and row `by` of the grid of squares
    /// of side `BIT_PIXEL_SIZE` with a grey.
    pub fn fill_block(&mut self, bx: usize, by: usize, shade: u8)
        requires
            old(self).well_formed(),
            (bx + 1) * BIT_PIXEL_SIZE <= old(self).width_spec(),
            (by + 1) * BIT_PIXEL_SIZE <= old(self).height_spec(),
        ensures
            final(self).well_formed(),
            final(self).width_spec() == old(self).width_spec(),
            final(self).height_spec() == old(self).height_spec(),
            forall|px: int, py: int|
                old(self).holds(px, py) ==> #[trigger] final(self).pixel(px, py) == if px
                    / 8 == bx && py / 8 == by {
                    grey(shade)
                } else {
                    old(self).pixel(px, py)
                },
    {
        let min_x = bx * BIT_PIXEL_SIZE;
        let min_y = by * BIT_PIXEL_SIZE;
        let mut yy = min_y;
        while yy < min_y + BIT_PIXEL_SIZE
            invariant
                min_x == bx * 8,
                min_y == by * 8,
                min_y <= yy <= min_y + 8,
                min_x + 8 <= self.width,
                min_y + 8 <= self.height,
                self.well_formed(),
                self.width_spec() == old(self).width_spec(),
                self.height_spec() == old(self).height_spec(),
                forall|px: int, py: int|
                    old(self).holds(px, py) ==> #[trigger] self.pixel(px, py) == if px / 8 == bx
                        && py / 8 == by && py < yy {
                        grey(shade)
                    } else {
                        old(self).pixel(px, py)
                    },
            decreases min_y + 8 - yy,
        {
            let mut xx = min_x;
            while xx < min_x + BIT_PIXEL_SIZE
                invariant
                    min_x == bx * 8,
                    min_y == by * 8,
                    min_y <= yy < min_y + 8,
                    min_x <= xx <= min_x + 8,
                    min_x + 8 <= self.width,
                    min_y + 8 <= self.height,
                    self.well_formed(),
                    self.width_spec() == old(self).width_spec(),
                    self.height_spec() == old(self).height_spec(),
                    forall|px: int, py: int|
                        old(self).holds(px, py) ==> #[trigger] self.pixel(px, py) == if px / 8
                            == bx && py / 8 == by && (py < yy || (py == yy && px < xx)) {
                            grey(shade)
                        } else {
                            old(self).pixel(px, py)
                        },
                decreases min_x + 8 - xx,
            {
                self.set_pixel(xx, yy, (shade, shade, shade, 0xff));
                xx += 1;
            }
            yy += 1;
        }
    }
}

/// The shade of the pixel at `(px, py)` of the image of a set of
/// statistics. Each table is given row by row, 32 shades a row; the image
/// shows the avalanche table, the bias table and the tree table from left
/// to right, input bits downward and output bits to the right.
pub open spec fn stats_image_shade(
    avalanche: Seq<u8>,
    avalanche_avg_bias: Seq<u8>,
    tree_bias: Seq<u8>,
    px: int,
    py: int,
) -> u8 {
    let bit_in = py / 8;
    let bit_out = (px / 8) % 32;
    let table = (px / 8) / 32;
    let at = bit_in * 32 + bit_out;
    if table == 0 {
        avalanche[at]
    } else if table == 1 {
        avalanche_avg_bias[at]
    } else {
        tree_bias[at]
    }
}

/// Draws three tables of shades side by side, every entry as a grey square.
pub fn render_stats_image(avalanche: &[u8], avalanche_avg_bias: &[u8], tree_bias: &[u8]) -> (canvas:
    Canvas)
    requires
        avalanche@.len() == 1024,
        avalanche_avg_bias@.len() == 1024,
        tree_bias@.len() == 1024,
    ensures
        canvas.well_formed(),
        canvas.width_spec() == STATS_IMAGE_WIDTH,
        canvas.height_spec() == STATS_IMAGE_HEIGHT,
        forall|px: int, py: int|
            canvas.holds(px, py) ==> #[trigger] canvas.pixel(px, py) == grey(
                stats_image_shade(avalanche@, avalanche_avg_bias@, tree_bias@, px, py),
            ),
{
    let mut canvas = Canvas::new(STATS_IMAGE_WIDTH, STATS_IMAGE_HEIGHT, 0);
    let mut by: usize = 0;
    while by < 32
        invariant
            by <= 32,
            avalanche@.len() == 1024,
            avalanche_avg_bias@.len() == 1024,
            tree_bias@.len() == 1024,
            canvas.well_formed(),
            canvas.width_spec() == 768,
            canvas.height_spec() == 256,
            forall|px: int, py: int|
                canvas.holds(px, py) ==> #[trigger] canvas.pixel(px, py) == if py / 8 < by {
                    grey(stats_image_shade(avalanche@, avalanche_avg_bias@, tree_bias@, px, py))
                } else {
                    (0u8, 0u8, 0u8, 0u8)
                },
        decreases 32 - by,
    {
        let mut bx: usize = 0;
        while bx < 96
            invariant
                by < 32,
                bx <= 96,
                avalanche@.len() == 1024,
                avalanche_avg_bias@.len() == 1024,
                tree_bias@.len() == 1024,
                canvas.well_formed(),
                canvas.width_spec() == 768,
                canvas.height_spec() == 256,
                forall|px: int, py: int|
                    canvas.holds(px, py) ==> #[trigger] canvas.pixel(px, py) == if py / 8 < by || (
                    py / 8 == by && px / 8 < bx) {
                        grey(
                            stats_image_shade(avalanche@, avalanche_avg_bias@, tree_bias@, px, py),
                        )
                    } else {
                        (0u8, 0u8, 0u8, 0u8)
                    },
            decreases 96 - bx,
        {
            let at = by * 32 + bx % 32;
            let shade = if bx / 32 == 0 {
                avalanche[at]
            } else if bx / 32 == 1 {
                avalanche_avg_bias[at]
            } else {
                tree_bias[at]
            };
            canvas.fill_block(bx, by, shade);
            bx += 1;
        }
        by += 1;
    }
    canvas
}

} // verus!
