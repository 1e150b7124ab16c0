//! An RGBA raster image with integer drawing primitives, bitmap glyphs and
//! text layout.
use vstd::prelude::*;
use crate::math::fits_i32;
use crate::math::Vec2;
use crate::math::BB;
use crate::math::bb_of_points;
use crate::math::bb_fits;
use crate::math::in_triangle;
use crate::math::in_triangle_spec;
use crate::math::in_triangle_fits;
use crate::math::dist_spec;

pub mod colors;

verus! {

/// A pixel colour, stored blue-first as the display buffer expects.
#[derive(Clone, Copy, Debug, PartialEq, Eq, Structural)]
pub struct Color {
    pub b: u8,
    pub g: u8,
    pub r: u8,
    pub a: u8,
}

/// Opaque black, the colour of a fresh image.
pub open spec fn black_spec() -> Color {
    Color { r: 0, g: 0, b: 0, a: 255 }
}

/// A `width` x `height` raster stored row by row.
#[derive(Clone, Debug)]
pub struct Image {
    pub height: usize,
    pub width: usize,
    pub data: Vec<Color>,
}

/// A grid of rows, each of `w` cells, `h` rows in all.
pub open spec fn is_grid(v: Seq<Seq<Color>>, w: int, h: int) -> bool {
    v.len() == h && forall|r: int| 0 <= r < h ==> (#[trigger] v[r]).len() == w
}

/// The grid with every cell for which `sel(column, row)` holds set to `color`.
pub open spec fn paint(v: Seq<Seq<Color>>, sel: spec_fn(int, int) -> bool, color: Color) -> Seq<
    Seq<Color>,
> {
    Seq::new(
        v.len(),
        |r: int| Seq::new(v[r].len(), |c: int| if sel(c, r) { color } else { v[r][c] }),
    )
}

impl Image {
    /// The buffer holds exactly one colour per cell.
    pub open spec fn wf(&self) -> bool {
        self.data@.len() == self.width * self.height
    }

    /// The image as rows of pixels: `self@[y][x]` is the pixel at column `x`, row `y`.
    pub open spec fn pixels(&self) -> Seq<Seq<Color>> {
        Seq::new(
            self.height as nat,
            |r: int| Seq::new(self.width as nat, |c: int| self.data@[cell_index(self.width as int, c, r)]),
        )
    }
}

impl View for Image {
    type V = Seq<Seq<Color>>;

    open spec fn view(&self) -> Seq<Seq<Color>> {
        self.pixels()
    }
}

/// The position of column `c`, row `r` in a row-major buffer of rows `w` wide.
pub open spec fn cell_index(w: int, c: int, r: int) -> int {
    r * w + c
}

/// Row-major cell indices are distinct and in range.
pub proof fn lemma_cell_index(w: int, h: int, c: int, r: int, c2: int, r2: int)
    requires
        0 <= c < w,
        0 <= r < h,
        0 <= c2 < w,
        0 <= r2 < h,
    ensures
        0 <= r * w + c < w * h,
        (r * w + c == r2 * w + c2) ==> (c == c2 && r == r2),
{
    assert(0 <= r * w + c < w * h) by (nonlinear_arith)
        requires
            0 <= c < w,
            0 <= r < h,
    ;
    assert((r * w + c == r2 * w + c2) ==> (c == c2 && r == r2)) by (nonlinear_arith)
        requires
            0 <= c < w,
            0 <= c2 < w,
            0 <= r,
            0 <= r2,
    ;
}

/// A coordinate clamped to the last index below `n`.
pub open spec fn clamp_index(v: int, n: int) -> int {
    if v >= n {
        n - 1
    } else {
        v
    }
}

impl Image {
    /// A `width` x `height` image filled with opaque black.
    pub fn new(width: usize, height: usize) -> (img: Self)
        requires
            width * height <= usize::MAX,
        ensures
            img.wf(),
            img.width == width,
            img.height == height,
            img@ == Seq::new(height as nat, |r: int| Seq::new(width as nat, |c: int| black_spec())),
    {
        let n = height * width;
        let mut vs: Vec<Color> = Vec::new();
        let mut i: usize = 0;
        while i < n
            invariant
                0 <= i <= n,
                vs@.len() == i,
                forall|k: int| 0 <= k < i ==> vs@[k] == black_spec(),
            decreases n - i,
        {
            vs.push(Color { r: 0, g: 0, b: 0, a: 255 });
            i = i + 1;
        }
        let img = Image { height, width, data: vs };
        proof {
            assert forall|r: int, c: int| 0 <= r < height && 0 <= c < width implies img.data@[cell_index(width as int, c, r)] == black_spec() by {
                lemma_cell_index(width as int, height as int, c, r, c, r);
            }
            assert(img@ =~~= Seq::new(height as nat, |r: int| Seq::new(width as nat, |c: int| black_spec())));
        }
        img
    }

    /// Sets the pixel at column `x`, row `y` to `color`; positions outside
    /// the image are ignored.
    pub fn draw_pixel(&mut self, x: usize, y: usize, color: Color)
        requires
            old(self).wf(),
        ensures
            final(self).wf(),
            final(self).width == old(self).width,
            final(self).height == old(self).height,
            final(self)@ == (if x < old(self).width && y < old(self).height {
                old(self)@.update(y as int, old(self)@[y as int].update(x as int, color))
            } else {
                old(self)@
            }),
    {
        if x >= self.width || y >= self.height {
            return;
        }
        let len = self.data.len();
        proof {
            lemma_cell_index(self.width as int, self.height as int, x as int, y as int, x as int, y as int);
            assert(y * self.width <= y * self.width + x < len);
        }
        let idx = y * self.width + x;
        self.data.set(idx, color);
        proof {
            let w = self.width as int;
            let h = self.height as int;
            assert forall|r: int, c: int| 0 <= r < h && 0 <= c < w implies self.data@[cell_index(w, c, r)] == (
            if r == y && c == x {
                color
            } else {
                old(self).data@[cell_index(w, c, r)]
            }) by {
                lemma_cell_index(w, h, c, r, x as int, y as int);
            }
            assert(self@ =~~= old(self)@.update(y as int, old(self)@[y as int].update(x as int, color)));
        }
    }

    /// The pixel at column `x`, row `y`, with each coordinate clamped to the
    /// last column or row.
    pub fn get_pixel(&self, x: usize, y: usize) -> (c: Color)
        requires
            self.wf(),
            self.width > 0,
            self.height > 0,
        ensures
            c == self@[clamp_index(y as int, self.height as int)][clamp_index(
                x as int,
                self.width as int,
            )],
    {
        let mut x = x;
        let mut y = y;
        if x >= self.width {
            x = self.width - 1;
        }
        if y >= self.height {
            y = self.height - 1;
        }
        let len = self.data.len();
        proof {
            lemma_cell_index(self.width as int, self.height as int, x as int, y as int, x as int, y as int);
            assert(y * self.width <= y * self.width + x < len);
        }
        self.data[y * self.width + x]
    }

    /// Sets every pixel to `color`.
    pub fn clear(&mut self, color: Color)
        requires
            old(self).wf(),
        ensures
            final(self).wf(),
            final(self).width == old(self).width,
            final(self).height == old(self).height,
            final(self)@ == paint(old(self)@, |c: int, r: int| true, color),
    {
        let n = self.data.len();
        let mut i: usize = 0;
        while i < n
            invariant
                n == self.data@.len(),
                self.width == old(self).width,
                self.height == old(self).height,
                n == self.width * self.height,
                0 <= i <= n,
                forall|k: int| 0 <= k < i ==> self.data@[k] == color,
            decreases n - i,
        {
            self.data.set(i, color);
            i = i + 1;
        }
        proof {
            let w = self.width as int;
            let h = self.height as int;
            assert forall|r: int, c: int| 0 <= r < h && 0 <= c < w implies self.data@[cell_index(w, c, r)]
                == color by {
                lemma_cell_index(w, h, c, r, c, r);
            }
            assert(self@ =~~= paint(old(self)@, |c: int, r: int| true, color));
        }
    }
}

/// The layout cursor after one more character, or `None` where the
/// arithmetic would leave `i32`. The state is (column, line, widest
/// column); a line break comes with `\n` or when the next advance would reach
/// `max_width`, a tab moves three advances, any other character one.
pub open spec fn text_step(xoff: int, yoff: int, max_width: int, st: Option<(int, int, int)>, c: char) -> Option<(int, int, int)> {
    match st {
        None => None,
        Some((cx, cy, mx)) => {
            let breaks = c == '\n' || cx + xoff >= max_width;
            if c != '\n' && !fits_i32(cx + xoff) {
                None
            } else if breaks && !fits_i32(cy + yoff) {
                None
            } else if !breaks && c == '\t' && !(fits_i32(xoff * 3) && fits_i32(cx + xoff * 3)) {
                None
            } else {
                let (cx1, cy1) = if breaks {
                    (0, cy + yoff)
                } else if c == '\t' {
                    (cx + xoff * 3, cy)
                } else {
                    (cx, cy)
                };
                if c != '\n' && c != '\t' && !fits_i32(cx1 + xoff) {
                    None
                } else {
                    let cx2 = if c != '\n' && c != '\t' {
                        cx1 + xoff
                    } else {
                        cx1
                    };
                    Some((cx2, cy1, if cx2 > mx { cx2 } else { mx }))
                }
            }
        },
    }
}

/// The layout cursor after the first `n` characters of `s`.
pub open spec fn text_prefix(xoff: int, yoff: int, max_width: int, s: Seq<char>, n: int) -> Option<(int, int, int)>
    decreases n,
{
    if n <= 0 {
        Some((0, 0, 0))
    } else {
        text_step(xoff, yoff, max_width, text_prefix(xoff, yoff, max_width, s, n - 1), s[n - 1])
    }
}

/// The width and height that `s` takes when laid out with the given
/// advances and wrap width: the widest column plus one advance, the last
/// line plus one line height. `None` where the arithmetic would leave `i32`.
pub open spec fn text_bounds_spec(xoff: int, yoff: int, max_width: int, s: Seq<char>) -> Option<(int, int)> {
    match text_prefix(xoff, yoff, max_width, s, s.len() as int) {
        Some((cx, cy, mx)) => if fits_i32(mx + xoff) && fits_i32(cy + yoff) {
            Some((mx + xoff, cy + yoff))
        } else {
            None
        },
        None => None,
    }
}

/// A layout that completes has completed every prefix.
pub proof fn lemma_text_prefix_some(xoff: int, yoff: int, max_width: int, s: Seq<char>, i: int, n: int)
    requires
        0 <= i <= n,
        text_prefix(xoff, yoff, max_width, s, n) is Some,
    ensures
        text_prefix(xoff, yoff, max_width, s, i) is Some,
    decreases n - i,
{
    if i < n {
        lemma_text_prefix_some(xoff, yoff, max_width, s, i + 1, n);
    }
}

impl Image {
    /// The size of `text` laid out with a horizontal advance of `xoff`, a
    /// line height of `yoff` and wrapping at `w`.
    pub fn text_bounds(xoff: i32, yoff: i32, w: i32, text: &str) -> (r: (i32, i32))
        requires
            text_bounds_spec(xoff as int, yoff as int, w as int, text@) is Some,
        ensures
            text_bounds_spec(xoff as int, yoff as int, w as int, text@) == Some((r.0 as int, r.1 as int)),
    {
        let max_width = w;
        let mut max_cx: i32 = 0;
        let mut cx: i32 = 0;
        let mut cy: i32 = 0;
        let n = text.unicode_len();
        let mut i: usize = 0;
        proof {
            lemma_text_prefix_some(xoff as int, yoff as int, w as int, text@, 0, n as int);
        }
        while i < n
            invariant
                n == text@.len(),
                0 <= i <= n,
                max_width == w,
                text_prefix(xoff as int, yoff as int, w as int, text@, i as int) == Some((cx as int, cy as int, max_cx as int)),
                text_prefix(xoff as int, yoff as int, w as int, text@, n as int) is Some,
            decreases n - i,
        {
            proof {
                lemma_text_prefix_some(xoff as int, yoff as int, w as int, text@, i + 1, n as int);
            }
            let c = text.get_char(i);
            if c == '\n' || cx + xoff >= max_width {
                cy += yoff;
                cx = 0;
            } else if c == '\t' {
                cx += xoff * 3;
            }
            if c != '\n' && c != '\t' {
                cx += xoff;
            }
            if cx > max_cx {
                max_cx = cx;
            }
            i = i + 1;
        }
        (max_cx + xoff, cy + yoff)
    }
}

/// How text of one height is set: the horizontal advance of one character
/// and the height of one line.
#[derive(Clone, Copy, Debug)]
pub struct TextMetrics {
    pub advance: i32,
    pub line_height: i32,
}

/// The text metrics of a run of text heights, from `top` downward: entry
/// `k` of `steps` holds the metrics of height `top - k`.
#[derive(Clone, Debug)]
pub struct TextScale {
    pub top: i32,
    pub steps: Vec<TextMetrics>,
}

/// The metrics that `scale` holds for `height`, if it holds any.
pub open spec fn scale_at(scale: TextScale, height: int) -> Option<TextMetrics> {
    let k = scale.top - height;
    if 0 <= k < scale.steps@.len() {
        Some(scale.steps@[k])
    } else {
        None
    }
}

impl TextScale {
    /// Every height the scale covers is an `i32`.
    pub open spec fn wf(&self) -> bool {
        fits_i32(self.top - self.steps@.len())
    }

    /// The metrics for `height`, or `None` where the scale does not cover it.
    pub fn metrics_for(&self, height: i32) -> (r: Option<TextMetrics>)
        ensures
            r == scale_at(*self, height as int),
    {
        let k: i64 = self.top as i64 - height as i64;
        if k >= 0 && (k as u64) < (self.steps.len() as u64) {
            Some(self.steps[k as usize])
        } else {
            None
        }
    }
}

/// The text height at which a text box settles: starting from `hgt` (the
/// first try measured against the width less 2, as the box's border takes
/// it), the first height, going down one at a time, at which the laid-out
/// text is less than `h - 2` high. `None` where the scale runs out first.
pub open spec fn box_search(scale: TextScale, hgt: int, first: bool, w: int, h: int, s: Seq<char>) -> Option<int>
    decreases hgt - (scale.top - scale.steps@.len()),
{
    match scale_at(scale, hgt) {
        None => None,
        Some(m) => match text_bounds_spec(m.advance as int, m.line_height as int, if first { w - 2 } else { w }, s) {
            None => None,
            Some((_, by)) => if by + 2 < h {
                Some(hgt)
            } else {
                box_search(scale, hgt - 1, false, w, h, s)
            },
        },
    }
}

/// Every measurement that the search from `hgt` makes stays within `i32`.
pub open spec fn box_search_ok(scale: TextScale, hgt: int, first: bool, w: int, h: int, s: Seq<char>) -> bool
    decreases hgt - (scale.top - scale.steps@.len()),
{
    match scale_at(scale, hgt) {
        None => true,
        Some(m) => match text_bounds_spec(m.advance as int, m.line_height as int, if first { w - 2 } else { w }, s) {
            None => false,
            Some((_, by)) => fits_i32(by + 2) && (by + 2 < h || box_search_ok(scale, hgt - 1, false, w, h, s)),
        },
    }
}

impl Image {
    /// The text height that a box of width `w` and height `h` uses for
    /// `text`: searched down from 100 as `box_search` says.
    pub fn text_box_height(scale: &TextScale, w: i32, h: i32, text: &str) -> (r: Option<i32>)
        requires
            scale.wf(),
            fits_i32(w - 2),
            box_search_ok(*scale, 100, true, w as int, h as int, text@),
        ensures
            match r {
                Some(v) => box_search(*scale, 100, true, w as int, h as int, text@) == Some(v as int),
                None => box_search(*scale, 100, true, w as int, h as int, text@) is None,
            },
    {
        let mut hp: i32 = 100;
        let mut first = true;
        loop
            invariant
                scale.wf(),
                fits_i32(w - 2),
                box_search(*scale, 100, true, w as int, h as int, text@) == box_search(
                    *scale,
                    hp as int,
                    first,
                    w as int,
                    h as int,
                    text@,
                ),
                box_search_ok(*scale, hp as int, first, w as int, h as int, text@),
            decreases hp - (scale.top - scale.steps@.len()),
        {
            match scale.metrics_for(hp) {
                None => {
                    return None;
                },
                Some(m) => {
                    let ww: i32 = if first { w - 2 } else { w };
                    let (_, by) = Image::text_bounds(m.advance, m.line_height, ww, text);
                    if by + 2 < h {
                        return Some(hp);
                    }
                    hp = hp - 1;
                    first = false;
                },
            }
        }
    }
}

/// The grid with `color` written at every cell `(fx(i), fy(j))` for which
/// `pts(i, j)` holds: a set of points stamped through a coordinate mapping.
pub open spec fn stamp(
    v: Seq<Seq<Color>>,
    pts: spec_fn(int, int) -> bool,
    fx: spec_fn(int) -> int,
    fy: spec_fn(int) -> int,
    color: Color,
) -> Seq<Seq<Color>> {
    paint(v, |c: int, r: int| exists|i: int, j: int| #[trigger] pts(i, j) && fx(i) == c && fy(j) == r, color)
}

/// A point-set that holds the same points gives the same stamp.
pub proof fn lemma_stamp_ext(
    v: Seq<Seq<Color>>,
    p: spec_fn(int, int) -> bool,
    q: spec_fn(int, int) -> bool,
    fx: spec_fn(int) -> int,
    fy: spec_fn(int) -> int,
    color: Color,
)
    requires
        forall|i: int, j: int| #[trigger] p(i, j) == q(i, j),
    ensures
        stamp(v, p, fx, fy, color) == stamp(v, q, fx, fy, color),
{
    assert forall|r: int, c: int| 0 <= r < v.len() && 0 <= c < v[r].len() implies stamp(v, p, fx, fy, color)[r][c] == stamp(v, q, fx, fy, color)[r][c] by {
        if exists|i: int, j: int| #[trigger] p(i, j) && fx(i) == c && fy(j) == r {
            let (i, j) = choose|i: int, j: int| #[trigger] p(i, j) && fx(i) == c && fy(j) == r;
            assert(q(i, j));
        }
        if exists|i: int, j: int| #[trigger] q(i, j) && fx(i) == c && fy(j) == r {
            let (i, j) = choose|i: int, j: int| #[trigger] q(i, j) && fx(i) == c && fy(j) == r;
            assert(p(i, j));
        }
    }
    assert(stamp(v, p, fx, fy, color) =~~= stamp(v, q, fx, fy, color));
}

/// Adding one point to the set writes one more cell, when it falls on the grid.
pub proof fn lemma_stamp_add(
    v: Seq<Seq<Color>>,
    w: int,
    h: int,
    p: spec_fn(int, int) -> bool,
    q: spec_fn(int, int) -> bool,
    fx: spec_fn(int) -> int,
    fy: spec_fn(int) -> int,
    a: int,
    b: int,
    color: Color,
)
    requires
        is_grid(v, w, h),
        forall|i: int, j: int| #[trigger] q(i, j) == (p(i, j) || (i == a && j == b)),
    ensures
        stamp(v, q, fx, fy, color) == (if 0 <= fx(a) < w && 0 <= fy(b) < h {
            stamp(v, p, fx, fy, color).update(fy(b), stamp(v, p, fx, fy, color)[fy(b)].update(fx(a), color))
        } else {
            stamp(v, p, fx, fy, color)
        }),
{
    let sp = stamp(v, p, fx, fy, color);
    let sq = stamp(v, q, fx, fy, color);
    let expected = if 0 <= fx(a) < w && 0 <= fy(b) < h {
        sp.update(fy(b), sp[fy(b)].update(fx(a), color))
    } else {
        sp
    };
    assert forall|r: int, c: int| 0 <= r < h && 0 <= c < w implies sq[r][c] == expected[r][c] by {
        assert(v[r].len() == w);
        if c == fx(a) && r == fy(b) {
            assert(q(a, b));
        } else {
            if exists|i: int, j: int| #[trigger] q(i, j) && fx(i) == c && fy(j) == r {
                let (i, j) = choose|i: int, j: int| #[trigger] q(i, j) && fx(i) == c && fy(j) == r;
                assert(p(i, j));
            }
            if exists|i: int, j: int| #[trigger] p(i, j) && fx(i) == c && fy(j) == r {
                let (i, j) = choose|i: int, j: int| #[trigger] p(i, j) && fx(i) == c && fy(j) == r;
                assert(q(i, j));
            }
        }
    }
    assert(sq =~~= expected);
}

/// An image's pixel grid is `width` x `height`.
pub proof fn lemma_image_grid(img: &Image)
    ensures
        is_grid(img@, img.width as int, img.height as int),
{
}

/// The cell a signed coordinate lands on once cast to `usize`.
pub open spec fn cast_cell(i: int) -> int {
    (i as usize) as int
}

/// The points of the rectangle `x <= i < x + w`, `y <= j < y + h`.
pub open spec fn rect_points(x: int, y: int, w: int, h: int) -> spec_fn(int, int) -> bool {
    |i: int, j: int| x <= i < x + w && y <= j < y + h
}

/// The points of the rectangle visited before (`xp`, `yp`) in row-major order.
pub open spec fn rect_visited(x: int, y: int, w: int, h: int, yp: int, xp: int) -> spec_fn(int, int) -> bool {
    |i: int, j: int| rect_points(x, y, w, h)(i, j) && (j < yp || (j == yp && i < xp))
}

/// The cast-to-`usize` cell mapping.
pub open spec fn cast_map() -> spec_fn(int) -> int {
    |i: int| cast_cell(i)
}

impl Image {
    /// Fills the rectangle of `w` x `h` cells at (`x`, `y`), each cell cast
    /// to `usize` as a position; cells outside the image are skipped.
    pub fn draw_rect(&mut self, x: i32, y: i32, w: i32, h: i32, color: Color)
        requires
            old(self).wf(),
            fits_i32(x + w),
            fits_i32(y + h),
        ensures
            final(self).wf(),
            final(self).width == old(self).width,
            final(self).height == old(self).height,
            final(self)@ == stamp(old(self)@, rect_points(x as int, y as int, w as int, h as int), cast_map(), cast_map(), color),
    {
        let ghost v0 = self@;
        let ghost fx = cast_map();
        let ghost wd = self.width as int;
        let ghost ht = self.height as int;
        let ghost (xi, yi, wi, hi) = (x as int, y as int, w as int, h as int);
        proof {
            lemma_image_grid(self);
            lemma_stamp_ext(v0, rect_visited(xi, yi, wi, hi, yi, xi), |i: int, j: int| false, fx, fx, color);
            assert(stamp(v0, |i: int, j: int| false, fx, fx, color) =~~= v0);
        }
        let mut yp = y;
        while yp < y + h
            invariant
                self.wf(),
                self.width == wd,
                self.height == ht,
                is_grid(v0, wd, ht),
                fx == cast_map(),
                xi == x && yi == y && wi == w && hi == h,
                y <= yp,
                yp <= y + h || yp == y,
                fits_i32(x + w),
                fits_i32(y + h),
                self@ == stamp(v0, rect_visited(xi, yi, wi, hi, yp as int, xi), fx, fx, color),
            decreases y + h - yp,
        {
            let mut xp = x;
            while xp < x + w
                invariant
                    self.wf(),
                    self.width == wd,
                    self.height == ht,
                    is_grid(v0, wd, ht),
                    fx == cast_map(),
                    xi == x && yi == y && wi == w && hi == h,
                    y <= yp < y + h,
                    x <= xp,
                    xp <= x + w || xp == x,
                    fits_i32(x + w),
                    fits_i32(y + h),
                    self@ == stamp(v0, rect_visited(xi, yi, wi, hi, yp as int, xp as int), fx, fx, color),
                decreases x + w - xp,
            {
                proof {
                    lemma_stamp_add(
                        v0,
                        wd,
                        ht,
                        rect_visited(xi, yi, wi, hi, yp as int, xp as int),
                        rect_visited(xi, yi, wi, hi, yp as int, xp + 1),
                        fx,
                        fx,
                        xp as int,
                        yp as int,
                        color,
                    );
                }
                self.draw_pixel(#[verifier::truncate] (xp as usize), #[verifier::truncate] (yp as usize), color);
                xp = xp + 1;
            }
            proof {
                lemma_stamp_ext(v0, rect_visited(xi, yi, wi, hi, yp as int, xp as int), rect_visited(xi, yi, wi, hi, yp + 1, xi), fx, fx, color);
            }
            yp = yp + 1;
        }
        proof {
            lemma_stamp_ext(v0, rect_visited(xi, yi, wi, hi, yp as int, xi), rect_points(xi, yi, wi, hi), fx, fx, color);
        }
    }
}

/// The grid point at column `i`, row `j`.
pub open spec fn cell_point(i: int, j: int) -> Vec2 {
    Vec2 { x: i as i32, y: j as i32 }
}

/// The box that `draw_triangle` scans: the box of the three vertices.
pub open spec fn triangle_box(p1: Vec2, p2: Vec2, p3: Vec2) -> BB {
    bb_of_points(seq![p1, p2, p3])
}

/// The cells that `draw_triangle` fills: those of the scanned box that pass
/// the point-in-triangle test.
pub open spec fn triangle_points(p1: Vec2, p2: Vec2, p3: Vec2) -> spec_fn(int, int) -> bool {
    |i: int, j: int| {
        let b = triangle_box(p1, p2, p3);
        rect_points(b.x as int, b.y as int, b.w as int, b.h as int)(i, j) && in_triangle_spec(
            p1,
            p2,
            p3,
            cell_point(i, j),
        )
    }
}

/// The triangle's cells visited before (`xp`, `yp`) in row-major order.
pub open spec fn triangle_visited(p1: Vec2, p2: Vec2, p3: Vec2, yp: int, xp: int) -> spec_fn(int, int) -> bool {
    |i: int, j: int| triangle_points(p1, p2, p3)(i, j) && (j < yp || (j == yp && i < xp))
}

/// `draw_triangle` stays within `i32` throughout.
pub open spec fn triangle_fits(p1: Vec2, p2: Vec2, p3: Vec2) -> bool {
    let b = triangle_box(p1, p2, p3);
    &&& bb_fits(seq![p1, p2, p3])
    &&& fits_i32(b.x + b.w)
    &&& fits_i32(b.y + b.h)
    &&& forall|i: int, j: int|
        rect_points(b.x as int, b.y as int, b.w as int, b.h as int)(i, j) ==> in_triangle_fits(
            p1,
            p2,
            p3,
            #[trigger] cell_point(i, j),
        )
}

/// The cells `draw_circ` fills, as offsets from the centre: those within
/// `rad` along each axis that fall in a `w` x `h` image and whose squared
/// distance from the centre is below `rad`.
pub open spec fn circle_points(pos: Vec2, rad: int, w: int, h: int) -> spec_fn(int, int) -> bool {
    |dx: int, dy: int|
        -rad <= dx <= rad && -rad <= dy <= rad && 0 <= pos.x + dx < w && 0 <= pos.y + dy < h
            && dx * dx + dy * dy < rad
}

/// The circle's cells visited before offset (`xc`, `yc`) in row-major order.
pub open spec fn circle_visited(pos: Vec2, rad: int, w: int, h: int, yc: int, xc: int) -> spec_fn(int, int) -> bool {
    |dx: int, dy: int| circle_points(pos, rad, w, h)(dx, dy) && (dy < yc || (dy == yc && dx < xc))
}

/// `draw_circ` stays within `i32` throughout on a `w` x `h` image.
pub open spec fn circle_fits(pos: Vec2, rad: int, w: int, h: int) -> bool {
    &&& rad > i32::MIN
    &&& fits_i32(rad + 1)
    &&& rad >= 0 ==> fits_i32(pos.x - rad) && fits_i32(pos.x + rad) && fits_i32(pos.y - rad)
        && fits_i32(pos.y + rad)
    &&& forall|dx: int, dy: int|
        -rad <= dx <= rad && -rad <= dy <= rad && 0 <= pos.x + dx < w && 0 <= pos.y + dy < h
            ==> fits_i32(#[trigger] (dx * dx) + #[trigger] (dy * dy))
}

/// The map from an offset to a column (or row) about `base`.
pub open spec fn offset_map(base: int) -> spec_fn(int) -> int {
    |d: int| base + d
}

impl Image {
    /// Fills the cells of the triangle's box that lie in the triangle.
    pub fn draw_triangle(&mut self, p1: Vec2, p2: Vec2, p3: Vec2, color: Color)
        requires
            old(self).wf(),
            triangle_fits(p1, p2, p3),
        ensures
            final(self).wf(),
            final(self).width == old(self).width,
            final(self).height == old(self).height,
            final(self)@ == stamp(old(self)@, triangle_points(p1, p2, p3), cast_map(), cast_map(), color),
    {
        let pts = [p1, p2, p3];
        assert(pts@ == seq![p1, p2, p3]);
        let bx = BB::from_points(&pts);
        let ghost v0 = self@;
        let ghost fx = cast_map();
        let ghost wd = self.width as int;
        let ghost ht = self.height as int;
        let ghost tb = triangle_box(p1, p2, p3);
        proof {
            lemma_image_grid(self);
            lemma_stamp_ext(v0, triangle_visited(p1, p2, p3, bx.y as int, bx.x as int), |i: int, j: int| false, fx, fx, color);
            assert(stamp(v0, |i: int, j: int| false, fx, fx, color) =~~= v0);
        }
        let mut y = bx.y;
        while y < bx.y + bx.h
            invariant
                self.wf(),
                self.width == wd,
                self.height == ht,
                is_grid(v0, wd, ht),
                fx == cast_map(),
                bx == tb,
                tb == triangle_box(p1, p2, p3),
                triangle_fits(p1, p2, p3),
                bx.y <= y,
                y <= bx.y + bx.h || y == bx.y,
                self@ == stamp(v0, triangle_visited(p1, p2, p3, y as int, bx.x as int), fx, fx, color),
            decreases bx.y + bx.h - y,
        {
            let mut x = bx.x;
            while x < bx.x + bx.w
                invariant
                    self.wf(),
                    self.width == wd,
                    self.height == ht,
                    is_grid(v0, wd, ht),
                    fx == cast_map(),
                    bx == tb,
                    tb == triangle_box(p1, p2, p3),
                    triangle_fits(p1, p2, p3),
                    bx.y <= y < bx.y + bx.h,
                    bx.x <= x,
                    x <= bx.x + bx.w || x == bx.x,
                    self@ == stamp(v0, triangle_visited(p1, p2, p3, y as int, x as int), fx, fx, color),
                decreases bx.x + bx.w - x,
            {
                let v = Vec2 { x, y };
                assert(rect_points(tb.x as int, tb.y as int, tb.w as int, tb.h as int)(x as int, y as int));
                assert(in_triangle_fits(p1, p2, p3, cell_point(x as int, y as int)));
                assert(v == cell_point(x as int, y as int));
                if in_triangle(p1, p2, p3, v) {
                    proof {
                        lemma_stamp_add(
                            v0,
                            wd,
                            ht,
                            triangle_visited(p1, p2, p3, y as int, x as int),
                            triangle_visited(p1, p2, p3, y as int, x + 1),
                            fx,
                            fx,
                            x as int,
                            y as int,
                            color,
                        );
                    }
                    self.draw_pixel(#[verifier::truncate] (v.x as usize), #[verifier::truncate] (v.y as usize), color);
                } else {
                    proof {
                        lemma_stamp_ext(v0, triangle_visited(p1, p2, p3, y as int, x as int), triangle_visited(p1, p2, p3, y as int, x + 1), fx, fx, color);
                    }
                }
                x = x + 1;
            }
            proof {
                lemma_stamp_ext(v0, triangle_visited(p1, p2, p3, y as int, x as int), triangle_visited(p1, p2, p3, y + 1, bx.x as int), fx, fx, color);
            }
            y = y + 1;
        }
        proof {
            lemma_stamp_ext(v0, triangle_visited(p1, p2, p3, y as int, bx.x as int), triangle_points(p1, p2, p3), fx, fx, color);
        }
    }

    /// Fills the cells of the image at offsets (`dx`, `dy`) from `pos`, both
    /// within `rad`, whose squared distance from `pos` is below `rad`.
    pub fn draw_circ(&mut self, pos: Vec2, rad: i32, color: Color)
        requires
            old(self).wf(),
            circle_fits(pos, rad as int, old(self).width as int, old(self).height as int),
        ensures
            final(self).wf(),
            final(self).width == old(self).width,
            final(self).height == old(self).height,
            final(self)@ == stamp(
                old(self)@,
                circle_points(pos, rad as int, old(self).width as int, old(self).height as int),
                offset_map(pos.x as int),
                offset_map(pos.y as int),
                color,
            ),
    {
        let ghost v0 = self@;
        let ghost fx = offset_map(pos.x as int);
        let ghost fy = offset_map(pos.y as int);
        let ghost wd = self.width as int;
        let ghost ht = self.height as int;
        let ghost r = rad as int;
        proof {
            lemma_image_grid(self);
            lemma_stamp_ext(v0, circle_visited(pos, r, wd, ht, -r, -r), |i: int, j: int| false, fx, fy, color);
            assert(stamp(v0, |i: int, j: int| false, fx, fy, color) =~~= v0);
        }
        let mut y = -rad;
        while y < rad + 1
            invariant
                self.wf(),
                self.width == wd,
                self.height == ht,
                is_grid(v0, wd, ht),
                fx == offset_map(pos.x as int),
                fy == offset_map(pos.y as int),
                r == rad,
                circle_fits(pos, r, wd, ht),
                -rad <= y,
                y <= rad + 1 || y == -rad,
                self@ == stamp(v0, circle_visited(pos, r, wd, ht, y as int, -r), fx, fy, color),
            decreases rad + 1 - y,
        {
            let mut x = -rad;
            while x < rad + 1
                invariant
                    self.wf(),
                    self.width == wd,
                    self.height == ht,
                    is_grid(v0, wd, ht),
                    fx == offset_map(pos.x as int),
                    fy == offset_map(pos.y as int),
                    r == rad,
                    circle_fits(pos, r, wd, ht),
                    -rad <= y < rad + 1,
                    -rad <= x,
                    x <= rad + 1 || x == -rad,
                    self@ == stamp(v0, circle_visited(pos, r, wd, ht, y as int, x as int), fx, fy, color),
                decreases rad + 1 - x,
            {
                let xp = pos.x + x;
                let yp = pos.y + y;
                if xp < 0 || yp < 0 || yp as usize >= self.height || xp as usize >= self.width {
                    proof {
                        lemma_stamp_ext(v0, circle_visited(pos, r, wd, ht, y as int, x as int), circle_visited(pos, r, wd, ht, y as int, x + 1), fx, fy, color);
                    }
                } else {
                    let p = Vec2::new(xp, yp);
                    proof {
                        assert(fits_i32((x * x) + (y * y)));
                        assert(0 <= x * x && 0 <= y * y) by (nonlinear_arith);
                        assert(dist_spec(p, pos) == x * x + y * y);
                    }
                    if p.dist(pos) < rad {
                        proof {
                            lemma_stamp_add(
                                v0,
                                wd,
                                ht,
                                circle_visited(pos, r, wd, ht, y as int, x as int),
                                circle_visited(pos, r, wd, ht, y as int, x + 1),
                                fx,
                                fy,
                                x as int,
                                y as int,
                                color,
                            );
                        }
                        self.draw_pixel(xp as usize, yp as usize, color);
                    } else {
                        proof {
                            lemma_stamp_ext(v0, circle_visited(pos, r, wd, ht, y as int, x as int), circle_visited(pos, r, wd, ht, y as int, x + 1), fx, fy, color);
                        }
                    }
                }
                x = x + 1;
            }
            proof {
                lemma_stamp_ext(v0, circle_visited(pos, r, wd, ht, y as int, x as int), circle_visited(pos, r, wd, ht, y + 1, -r), fx, fy, color);
            }
            y = y + 1;
        }
        proof {
            lemma_stamp_ext(v0, circle_visited(pos, r, wd, ht, y as int, -r), circle_points(pos, r, wd, ht), fx, fy, color);
        }
    }
}

/// A one-bit-per-cell glyph: a cell is set where its byte is non-zero.
#[derive(Clone, Copy)]
pub struct Bitmap {
    pub width: usize,
    pub height: usize,
    pub data: &'static [u8],
}

impl Bitmap {
    /// The buffer holds a byte for every cell.
    pub open spec fn wf(&self) -> bool {
        self.data@.len() >= self.width * self.height
    }

    /// Whether the cell at column `x`, row `y` is set; cells outside the
    /// bitmap are clear.
    pub fn get(&self, x: i32, y: i32) -> (r: bool)
        requires
            self.wf(),
        ensures
            r == bitmap_bit(*self, x as int, y as int),
    {
        if (#[verifier::truncate] (x as usize)) >= self.width || (#[verifier::truncate] (y as usize))
            >= self.height || y < 0 || x < 0 {
            return false;
        }
        let xu = x as usize;
        let yu = y as usize;
        proof {
            lemma_cell_index(self.width as int, self.height as int, xu as int, yu as int, xu as int, yu as int);
        }
        let len = self.data.len();
        assert(yu * self.width <= yu * self.width + xu < len);
        self.data[yu * self.width + xu] != 0
    }
}

/// The cell at column `x`, row `y` of `bmp` is inside it and set.
pub open spec fn bitmap_bit(bmp: Bitmap, x: int, y: int) -> bool {
    0 <= x < bmp.width && 0 <= y < bmp.height && bmp.data@[cell_index(bmp.width as int, x, y)] != 0
}

/// The cells `draw_bitmap` visits and finds set: each column and row index
/// is cast to `i32` to query the bitmap.
pub open spec fn glyph_points(bmp: Bitmap) -> spec_fn(int, int) -> bool {
    |i: int, j: int| 0 <= i < bmp.width && 0 <= j < bmp.height && bitmap_bit(bmp, (i as i32) as int, (j as i32) as int)
}

/// The glyph cells visited before (`xp`, `yp`) in row-major order.
pub open spec fn glyph_visited(bmp: Bitmap, yp: int, xp: int) -> spec_fn(int, int) -> bool {
    |i: int, j: int| glyph_points(bmp)(i, j) && (j < yp || (j == yp && i < xp))
}

/// Placing `bmp` at (`x`, `y`) (cast to `usize`) does not overflow `usize`.
pub open spec fn bitmap_fits(bmp: Bitmap, x: int, y: int) -> bool {
    forall|i: int, j: int|
        #[trigger] glyph_points(bmp)(i, j) ==> i + cast_cell(x) <= usize::MAX && j + cast_cell(y) <= usize::MAX
}

/// The grid after stamping the set cells of `bmp` with their top-left
/// corner at (`x`, `y`), both cast to `usize`.
pub open spec fn bitmap_stamp(v: Seq<Seq<Color>>, x: int, y: int, bmp: Bitmap, color: Color) -> Seq<Seq<Color>> {
    stamp(v, glyph_points(bmp), offset_map(cast_cell(x)), offset_map(cast_cell(y)), color)
}

impl Image {
    /// Stamps the set cells of `bmp` with its top-left corner at (`x`, `y`).
    pub fn draw_bitmap(&mut self, x: i32, y: i32, bmp: &Bitmap, color: Color)
        requires
            old(self).wf(),
            bmp.wf(),
            bitmap_fits(*bmp, x as int, y as int),
        ensures
            final(self).wf(),
            final(self).width == old(self).width,
            final(self).height == old(self).height,
            final(self)@ == bitmap_stamp(old(self)@, x as int, y as int, *bmp, color),
    {
        let x0 = #[verifier::truncate] (x as usize);
        let y0 = #[verifier::truncate] (y as usize);
        let ghost v0 = self@;
        let ghost fx = offset_map(cast_cell(x as int));
        let ghost fy = offset_map(cast_cell(y as int));
        let ghost wd = self.width as int;
        let ghost ht = self.height as int;
        let ghost b = *bmp;
        proof {
            lemma_image_grid(self);
            lemma_stamp_ext(v0, glyph_visited(b, 0, 0), |i: int, j: int| false, fx, fy, color);
            assert(stamp(v0, |i: int, j: int| false, fx, fy, color) =~~= v0);
        }
        let mut yp: usize = 0;
        while yp < bmp.height
            invariant
                self.wf(),
                self.width == wd,
                self.height == ht,
                is_grid(v0, wd, ht),
                b == *bmp,
                bmp.wf(),
                bitmap_fits(b, x as int, y as int),
                fx == offset_map(cast_cell(x as int)),
                fy == offset_map(cast_cell(y as int)),
                x0 == cast_cell(x as int),
                y0 == cast_cell(y as int),
                yp <= bmp.height,
                self@ == stamp(v0, glyph_visited(b, yp as int, 0), fx, fy, color),
            decreases bmp.height - yp,
        {
            let mut xp: usize = 0;
            while xp < bmp.width
                invariant
                    self.wf(),
                    self.width == wd,
                    self.height == ht,
                    is_grid(v0, wd, ht),
                    b == *bmp,
                    bmp.wf(),
                    bitmap_fits(b, x as int, y as int),
                    fx == offset_map(cast_cell(x as int)),
                    fy == offset_map(cast_cell(y as int)),
                    x0 == cast_cell(x as int),
                    y0 == cast_cell(y as int),
                    yp < bmp.height,
                    xp <= bmp.width,
                    self@ == stamp(v0, glyph_visited(b, yp as int, xp as int), fx, fy, color),
                decreases bmp.width - xp,
            {
                if bmp.get(#[verifier::truncate] (xp as i32), #[verifier::truncate] (yp as i32)) {
                    proof {
                        assert(glyph_points(b)(xp as int, yp as int));
                        lemma_stamp_add(
                            v0,
                            wd,
                            ht,
                            glyph_visited(b, yp as int, xp as int),
                            glyph_visited(b, yp as int, xp + 1),
                            fx,
                            fy,
                            xp as int,
                            yp as int,
                            color,
                        );
                    }
                    self.draw_pixel(xp + x0, yp + y0, color);
                } else {
                    proof {
                        lemma_stamp_ext(v0, glyph_visited(b, yp as int, xp as int), glyph_visited(b, yp as int, xp + 1), fx, fy, color);
                    }
                }
                xp = xp + 1;
            }
            proof {
                lemma_stamp_ext(v0, glyph_visited(b, yp as int, xp as int), glyph_visited(b, yp + 1, 0), fx, fy, color);
            }
            yp = yp + 1;
        }
        proof {
            lemma_stamp_ext(v0, glyph_visited(b, yp as int, 0), glyph_points(b), fx, fy, color);
        }
    }
}

/// A bitmap font: glyphs looked up by character, a glyph for characters
/// not in the table, the glyph size and the horizontal and vertical advance.
pub struct Font {
    pub glyphs: Vec<(char, Bitmap)>,
    pub missing: Bitmap,
    pub text_width: i32,
    pub text_height: i32,
    pub text_space: i32,
    pub text_space_v: i32,
}

/// The first glyph for `c` among the entries from position `k` on, or the
/// fallback glyph.
pub open spec fn glyph_from(glyphs: Seq<(char, Bitmap)>, missing: Bitmap, c: char, k: int) -> Bitmap
    decreases glyphs.len() - k,
{
    if k < 0 || k >= glyphs.len() {
        missing
    } else if glyphs[k].0 == c {
        glyphs[k].1
    } else {
        glyph_from(glyphs, missing, c, k + 1)
    }
}

impl Font {
    /// Every glyph holds a byte for each of its cells.
    pub open spec fn wf(&self) -> bool {
        &&& self.missing.wf()
        &&& forall|i: int| 0 <= i < self.glyphs@.len() ==> (#[trigger] self.glyphs@[i]).1.wf()
    }

    /// The glyph drawn for `c`.
    pub open spec fn glyph_of(&self, c: char) -> Bitmap {
        glyph_from(self.glyphs@, self.missing, c, 0)
    }

    /// The glyph drawn for `c`: the first table entry for it, or the fallback.
    pub fn glyph(&self, c: char) -> (r: &Bitmap)
        requires
            self.wf(),
        ensures
            *r == self.glyph_of(c),
            r.wf(),
    {
        let mut k: usize = 0;
        while k < self.glyphs.len()
            invariant
                self.wf(),
                k <= self.glyphs@.len(),
                glyph_from(self.glyphs@, self.missing, c, k as int) == self.glyph_of(c),
            decreases self.glyphs@.len() - k,
        {
            if self.glyphs[k].0 == c {
                return &self.glyphs[k].1;
            }
            k = k + 1;
        }
        &self.missing
    }
}

/// The image, cursor column and cursor line after drawing one more
/// character: a newline returns to column `x` one line down, a tab moves
/// three advances, any other character stamps its glyph and moves one
/// advance. `None` where the arithmetic would overflow.
pub open spec fn text_draw_step(
    font: Font,
    x: int,
    color: Color,
    st: Option<(Seq<Seq<Color>>, int, int)>,
    c: char,
) -> Option<(Seq<Seq<Color>>, int, int)> {
    match st {
        None => None,
        Some((v, cx, cy)) => if c == '\n' {
            if fits_i32(cy + font.text_space_v) {
                Some((v, x, cy + font.text_space_v))
            } else {
                None
            }
        } else if c == '\t' {
            if fits_i32(font.text_space * 3) && fits_i32(cx + font.text_space * 3) {
                Some((v, cx + font.text_space * 3, cy))
            } else {
                None
            }
        } else {
            let g = font.glyph_of(c);
            if bitmap_fits(g, cx, cy) && fits_i32(cx + font.text_space) {
                Some((bitmap_stamp(v, cx, cy, g, color), cx + font.text_space, cy))
            } else {
                None
            }
        },
    }
}

/// The state after drawing the first `n` characters of `s` from (`x`, `y`).
pub open spec fn text_draw_prefix(
    font: Font,
    x: int,
    y: int,
    color: Color,
    v: Seq<Seq<Color>>,
    s: Seq<char>,
    n: int,
) -> Option<(Seq<Seq<Color>>, int, int)>
    decreases n,
{
    if n <= 0 {
        Some((v, x, y))
    } else {
        text_draw_step(font, x, color, text_draw_prefix(font, x, y, color, v, s, n - 1), s[n - 1])
    }
}

/// Drawing that completes has completed every prefix.
pub proof fn lemma_text_draw_prefix_some(
    font: Font,
    x: int,
    y: int,
    color: Color,
    v: Seq<Seq<Color>>,
    s: Seq<char>,
    i: int,
    n: int,
)
    requires
        0 <= i <= n,
        text_draw_prefix(font, x, y, color, v, s, n) is Some,
    ensures
        text_draw_prefix(font, x, y, color, v, s, i) is Some,
    decreases n - i,
{
    if i < n {
        lemma_text_draw_prefix_some(font, x, y, color, v, s, i + 1, n);
    }
}

impl Image {
    /// Stamps the glyph of `c` with its top-left corner at (`x`, `y`).
    pub fn draw_char(&mut self, x: i32, y: i32, c: char, color: Color, font: &Font)
        requires
            old(self).wf(),
            font.wf(),
            bitmap_fits(font.glyph_of(c), x as int, y as int),
        ensures
            final(self).wf(),
            final(self).width == old(self).width,
            final(self).height == old(self).height,
            final(self)@ == bitmap_stamp(old(self)@, x as int, y as int, font.glyph_of(c), color),
    {
        let bmp = font.glyph(c);
        self.draw_bitmap(x, y, bmp, color);
    }

    /// Draws `text` from (`x`, `y`): glyphs one advance apart, newlines
    /// back to column `x` one line down, tabs three advances wide.
    pub fn draw_text(&mut self, x: i32, y: i32, text: &str, color: Color, font: &Font)
        requires
            old(self).wf(),
            font.wf(),
            text_draw_prefix(*font, x as int, y as int, color, old(self)@, text@, text@.len() as int) is Some,
        ensures
            final(self).wf(),
            final(self).width == old(self).width,
            final(self).height == old(self).height,
            text_draw_prefix(*font, x as int, y as int, color, old(self)@, text@, text@.len() as int)
                matches Some((v, cx, cy)) && final(self)@ == v,
    {
        let ghost v0 = self@;
        let mut cx = x;
        let mut cy = y;
        let n = text.unicode_len();
        let mut i: usize = 0;
        while i < n
            invariant
                self.wf(),
                self.width == old(self).width,
                self.height == old(self).height,
                font.wf(),
                v0 == old(self)@,
                n == text@.len(),
                0 <= i <= n,
                text_draw_prefix(*font, x as int, y as int, color, v0, text@, n as int) is Some,
                text_draw_prefix(*font, x as int, y as int, color, v0, text@, i as int) == Some((self@, cx as int, cy as int)),
            decreases n - i,
        {
            proof {
                lemma_text_draw_prefix_some(*font, x as int, y as int, color, v0, text@, i + 1, n as int);
            }
            let c = text.get_char(i);
            if c == '\n' {
                cy += font.text_space_v;
                cx = x;
            } else if c == '\t' {
                cx += font.text_space * 3;
            } else {
                self.draw_char(cx, cy, c, color, font);
                cx += font.text_space;
            }
            i = i + 1;
        }
    }
}

/// The decimal digits of `n`, as ASCII bytes, most significant first.
pub open spec fn dec(n: nat) -> Seq<u8>
    decreases n,
{
    if n < 10 {
        seq![(48 + n) as u8]
    } else {
        dec(n / 10).push((48 + n % 10) as u8)
    }
}

/// One pixel's line of a plain PPM file: red, green and blue in decimal.
pub open spec fn ppm_pixel(c: Color) -> Seq<u8> {
    dec(c.r as nat) + seq![32u8] + dec(c.g as nat) + seq![32u8] + dec(c.b as nat) + seq![10u8]
}

/// The lines of the first `n` pixels of `d`.
pub open spec fn ppm_pixels(d: Seq<Color>, n: int) -> Seq<u8>
    decreases n,
{
    if n <= 0 {
        seq![]
    } else {
        ppm_pixels(d, n - 1) + ppm_pixel(d[n - 1])
    }
}

/// The header of a plain PPM file: the magic `P3`, the width and height,
/// and the largest channel value 255, each on its own line.
pub open spec fn ppm_header(w: nat, h: nat) -> Seq<u8> {
    seq![80u8, 51u8, 10u8] + dec(w) + seq![32u8] + dec(h) + seq![10u8, 50u8, 53u8, 53u8, 10u8]
}

/// Appends the decimal digits of `n`.
fn push_dec(out: &mut Vec<u8>, n: usize)
    ensures
        final(out)@ == old(out)@ + dec(n as nat),
    decreases n,
{
    if n < 10 {
        out.push((48 + n) as u8);
    } else {
        push_dec(out, n / 10);
        out.push((48 + n % 10) as u8);
    }
}

fn push_byte(out: &mut Vec<u8>, b: u8)
    ensures
        final(out)@ == old(out)@ + seq![b],
{
    out.push(b);
}

/// The image rows swapped into a `height` x `width` image, as loading does:
/// the pixel at column `c`, row `r` comes from `pixels[r * w + c]` where
/// that cell lies in the source, and is black elsewhere.
pub open spec fn loaded(w: int, h: int, pixels: Seq<Color>, yp: int, xp: int) -> Seq<Seq<Color>> {
    Seq::new(
        w as nat,
        |r: int|
            Seq::new(
                h as nat,
                |c: int|
                    if r < h && c < w && (r < yp || (r == yp && c < xp)) {
                        pixels[r * w + c]
                    } else {
                        black_spec()
                    },
            ),
    )
}

impl Image {
    /// The image built from `w` x `h` decoded pixels (row-major) the way the
    /// loader builds it: a `h`-wide, `w`-high black image on which each
    /// source pixel is drawn at its own column and row.
    pub fn from_pixels(w: usize, h: usize, pixels: &Vec<Color>) -> (img: Self)
        requires
            pixels@.len() == w * h,
            w * h <= usize::MAX,
        ensures
            img.wf(),
            img.width == h,
            img.height == w,
            img@ == loaded(w as int, h as int, pixels@, h as int, 0),
    {
        assert(h * w == w * h) by (nonlinear_arith);
        let mut out = Self::new(h, w);
        assert(out@ =~~= loaded(w as int, h as int, pixels@, 0, 0));
        let mut yp: usize = 0;
        while yp < h
            invariant
                out.wf(),
                out.width == h,
                out.height == w,
                pixels@.len() == w * h,
                yp <= h,
                out@ == loaded(w as int, h as int, pixels@, yp as int, 0),
            decreases h - yp,
        {
            let mut x: usize = 0;
            while x < w
                invariant
                    out.wf(),
                    out.width == h,
                    out.height == w,
                    pixels@.len() == w * h,
                    yp < h,
                    x <= w,
                    out@ == loaded(w as int, h as int, pixels@, yp as int, x as int),
                decreases w - x,
            {
                let plen = pixels.len();
                proof {
                    lemma_cell_index(w as int, h as int, x as int, yp as int, x as int, yp as int);
                }
                assert(yp * w <= yp * w + x < plen);
                let ct = pixels[yp * w + x];
                let ghost before = out@;
                out.draw_pixel(x, yp, ct);
                assert(out@ =~~= loaded(w as int, h as int, pixels@, yp as int, x + 1));
                x = x + 1;
            }
            assert(out@ =~~= loaded(w as int, h as int, pixels@, yp + 1, 0));
            yp = yp + 1;
        }
        out
    }

    /// The image as a plain (text) PPM file: the header, then one line of
    /// red, green and blue per pixel in buffer order.
    pub fn export_bytes(&self) -> (r: Vec<u8>)
        ensures
            r@ == ppm_header(self.width as nat, self.height as nat) + ppm_pixels(self.data@, self.data@.len() as int),
    {
        let mut out: Vec<u8> = Vec::new();
        push_byte(&mut out, 80);
        push_byte(&mut out, 51);
        push_byte(&mut out, 10);
        push_dec(&mut out, self.width);
        push_byte(&mut out, 32);
        push_dec(&mut out, self.height);
        push_byte(&mut out, 10);
        push_byte(&mut out, 50);
        push_byte(&mut out, 53);
        push_byte(&mut out, 53);
        push_byte(&mut out, 10);
        let ghost head = out@;
        assert(head =~= ppm_header(self.width as nat, self.height as nat));
        let n = self.data.len();
        let mut i: usize = 0;
        while i < n
            invariant
                n == self.data@.len(),
                i <= n,
                head == ppm_header(self.width as nat, self.height as nat),
                out@ == head + ppm_pixels(self.data@, i as int),
            decreases n - i,
        {
            let c = self.data[i];
            let ghost before = out@;
            push_dec(&mut out, c.r as usize);
            push_byte(&mut out, 32);
            push_dec(&mut out, c.g as usize);
            push_byte(&mut out, 32);
            push_dec(&mut out, c.b as usize);
            push_byte(&mut out, 10);
            assert(out@ =~= before + ppm_pixel(c));
            assert(ppm_pixels(self.data@, i + 1) == ppm_pixels(self.data@, i as int) + ppm_pixel(self.data@[i as int]));
            i = i + 1;
        }
        out
    }
}

/// Reading a pixel back after drawing it gives the colour drawn, and no
/// other pixel changes.
pub proof fn lemma_pixel_read_after_write(v: Seq<Seq<Color>>, w: int, h: int, x: int, y: int, color: Color)
    requires
        is_grid(v, w, h),
        0 <= x < w,
        0 <= y < h,
    ensures
        v.update(y, v[y].update(x, color))[clamp_index(y, h)][clamp_index(x, w)] == color,
        forall|r: int, c: int|
            0 <= r < h && 0 <= c < w && (r != y || c != x) ==> #[trigger] v.update(y, v[y].update(x, color))[r][c]
                == v[r][c],
{
}

/// Stamping the same points twice leaves what stamping them once leaves.
pub proof fn lemma_stamp_idempotent(
    v: Seq<Seq<Color>>,
    pts: spec_fn(int, int) -> bool,
    fx: spec_fn(int) -> int,
    fy: spec_fn(int) -> int,
    color: Color,
)
    ensures
        stamp(stamp(v, pts, fx, fy, color), pts, fx, fy, color) == stamp(v, pts, fx, fy, color),
{
    assert(stamp(stamp(v, pts, fx, fy, color), pts, fx, fy, color) =~~= stamp(v, pts, fx, fy, color));
}

/// Clearing paints every pixel, whatever was drawn before.
pub proof fn lemma_clear_uniform(v: Seq<Seq<Color>>, color: Color, r: int, c: int)
    requires
        0 <= r < v.len(),
        0 <= c < v[r].len(),
    ensures
        paint(v, |c: int, r: int| true, color)[r][c] == color,
{
}

/// A non-negative coordinate lands on the cell of the same number.
pub proof fn lemma_cast_cell_nonneg(i: int)
    requires
        0 <= i <= i32::MAX,
    ensures
        cast_cell(i) == i,
{
}

/// The glyph placements and cursor after one more character of unwrapped
/// text: a newline returns to column `x` one line down, a tab moves three
/// advances, any other character is placed at the cursor and moves one
/// advance. `None` where the arithmetic would leave `i32`.
pub open spec fn place_step(
    x: int,
    xoff: int,
    yoff: int,
    st: Option<(int, int, Seq<(i32, i32, char)>)>,
    c: char,
) -> Option<(int, int, Seq<(i32, i32, char)>)> {
    match st {
        None => None,
        Some((cx, cy, ps)) => if c == '\n' {
            if fits_i32(cy + yoff) {
                Some((x, cy + yoff, ps))
            } else {
                None
            }
        } else if c == '\t' {
            if fits_i32(xoff * 3) && fits_i32(cx + xoff * 3) {
                Some((cx + xoff * 3, cy, ps))
            } else {
                None
            }
        } else if fits_i32(cx + xoff) {
            Some((cx + xoff, cy, ps.push((cx as i32, cy as i32, c))))
        } else {
            None
        },
    }
}

/// The state after placing the first `n` characters of `s` from (`x`, `y`).
pub open spec fn place_prefix(x: int, y: int, xoff: int, yoff: int, s: Seq<char>, n: int) -> Option<
    (int, int, Seq<(i32, i32, char)>),
>
    decreases n,
{
    if n <= 0 {
        Some((x, y, seq![]))
    } else {
        place_step(x, xoff, yoff, place_prefix(x, y, xoff, yoff, s, n - 1), s[n - 1])
    }
}

/// As `place_step`, wrapping to a new line when the next advance would
/// reach `max_width` from column `x`; a tab that wraps does not advance.
pub open spec fn place_wrapped_step(
    x: int,
    max_width: int,
    xoff: int,
    yoff: int,
    st: Option<(int, int, Seq<(i32, i32, char)>)>,
    c: char,
) -> Option<(int, int, Seq<(i32, i32, char)>)> {
    match st {
        None => None,
        Some((cx, cy, ps)) => {
            if c != '\n' && !(fits_i32(cx - x) && fits_i32(cx - x + xoff)) {
                None
            } else {
                let breaks = c == '\n' || cx - x + xoff >= max_width;
                if breaks && !fits_i32(cy + yoff) {
                    None
                } else if !breaks && c == '\t' && !(fits_i32(xoff * 3) && fits_i32(cx + xoff * 3)) {
                    None
                } else {
                    let (cx1, cy1) = if breaks {
                        (x, cy + yoff)
                    } else if c == '\t' {
                        (cx + xoff * 3, cy)
                    } else {
                        (cx, cy)
                    };
                    if c != '\n' && c != '\t' {
                        if fits_i32(cx1 + xoff) {
                            Some((cx1 + xoff, cy1, ps.push((cx1 as i32, cy1 as i32, c))))
                        } else {
                            None
                        }
                    } else {
                        Some((cx1, cy1, ps))
                    }
                }
            }
        },
    }
}

/// The state after placing the first `n` characters of `s` from (`x`, `y`),
/// wrapping at `max_width`.
pub open spec fn place_wrapped_prefix(
    x: int,
    y: int,
    max_width: int,
    xoff: int,
    yoff: int,
    s: Seq<char>,
    n: int,
) -> Option<(int, int, Seq<(i32, i32, char)>)>
    decreases n,
{
    if n <= 0 {
        Some((x, y, seq![]))
    } else {
        place_wrapped_step(x, max_width, xoff, yoff, place_wrapped_prefix(x, y, max_width, xoff, yoff, s, n - 1), s[n - 1])
    }
}

/// Placing that completes has completed every prefix.
pub proof fn lemma_place_prefix_some(x: int, y: int, xoff: int, yoff: int, s: Seq<char>, i: int, n: int)
    requires
        0 <= i <= n,
        place_prefix(x, y, xoff, yoff, s, n) is Some,
    ensures
        place_prefix(x, y, xoff, yoff, s, i) is Some,
    decreases n - i,
{
    if i < n {
        lemma_place_prefix_some(x, y, xoff, yoff, s, i + 1, n);
    }
}

/// Wrapped placing that completes has completed every prefix.
pub proof fn lemma_place_wrapped_prefix_some(
    x: int,
    y: int,
    max_width: int,
    xoff: int,
    yoff: int,
    s: Seq<char>,
    i: int,
    n: int,
)
    requires
        0 <= i <= n,
        place_wrapped_prefix(x, y, max_width, xoff, yoff, s, n) is Some,
    ensures
        place_wrapped_prefix(x, y, max_width, xoff, yoff, s, i) is Some,
    decreases n - i,
{
    if i < n {
        lemma_place_wrapped_prefix_some(x, y, max_width, xoff, yoff, s, i + 1, n);
    }
}

impl Image {
    /// Where each glyph of `text` goes when it is drawn from (`x`, `y`) with
    /// a horizontal advance of `xoff` and a line height of `yoff`: the
    /// layout of scaled text.
    pub fn layout_text(x: i32, y: i32, xoff: i32, yoff: i32, text: &str) -> (r: Vec<(i32, i32, char)>)
        requires
            place_prefix(x as int, y as int, xoff as int, yoff as int, text@, text@.len() as int) is Some,
        ensures
            place_prefix(x as int, y as int, xoff as int, yoff as int, text@, text@.len() as int) matches Some(
                (cx, cy, ps),
            ) && r@ == ps,
    {
        let mut out: Vec<(i32, i32, char)> = Vec::new();
        let mut cx = x;
        let mut cy = y;
        let n = text.unicode_len();
        let mut i: usize = 0;
        while i < n
            invariant
                n == text@.len(),
                0 <= i <= n,
                place_prefix(x as int, y as int, xoff as int, yoff as int, text@, n as int) is Some,
                place_prefix(x as int, y as int, xoff as int, yoff as int, text@, i as int) == Some(
                    (cx as int, cy as int, out@),
                ),
            decreases n - i,
        {
            proof {
                lemma_place_prefix_some(x as int, y as int, xoff as int, yoff as int, text@, i + 1, n as int);
            }
            let c = text.get_char(i);
            if c == '\n' {
                cy += yoff;
                cx = x;
            } else if c == '\t' {
                cx += xoff * 3;
            } else {
                out.push((cx, cy, c));
                cx += xoff;
            }
            i = i + 1;
        }
        out
    }

    /// Where each glyph of `text` goes when it is drawn from (`x`, `y`) with
    /// a horizontal advance of `xoff` and a line height of `yoff`, wrapping
    /// before the advance reaches `max_width`: the layout of width-limited text.
    pub fn layout_text_width(x: i32, y: i32, max_width: i32, xoff: i32, yoff: i32, text: &str) -> (r: Vec<
        (i32, i32, char),
    >)
        requires
            place_wrapped_prefix(x as int, y as int, max_width as int, xoff as int, yoff as int, text@, text@.len() as int) is Some,
        ensures
            place_wrapped_prefix(x as int, y as int, max_width as int, xoff as int, yoff as int, text@, text@.len() as int)
                matches Some((cx, cy, ps)) && r@ == ps,
    {
        let mut out: Vec<(i32, i32, char)> = Vec::new();
        let mut cx = x;
        let mut cy = y;
        let n = text.unicode_len();
        let mut i: usize = 0;
        while i < n
            invariant
                n == text@.len(),
                0 <= i <= n,
                place_wrapped_prefix(x as int, y as int, max_width as int, xoff as int, yoff as int, text@, n as int) is Some,
                place_wrapped_prefix(x as int, y as int, max_width as int, xoff as int, yoff as int, text@, i as int)
                    == Some((cx as int, cy as int, out@)),
            decreases n - i,
        {
            proof {
                lemma_place_wrapped_prefix_some(x as int, y as int, max_width as int, xoff as int, yoff as int, text@, i + 1, n as int);
            }
            let c = text.get_char(i);
            if c == '\n' || cx - x + xoff >= max_width {
                cy += yoff;
                cx = x;
            } else if c == '\t' {
                cx += xoff * 3;
            }
            if c != '\n' && c != '\t' {
                out.push((cx, cy, c));
                cx += xoff;
            }
            i = i + 1;
        }
        out
    }
}

/// The grid after stamping, in order, the glyph of each placed character at
/// its position.
pub open spec fn stamp_glyphs(v: Seq<Seq<Color>>, font: Font, ps: Seq<(i32, i32, char)>, color: Color) -> Seq<
    Seq<Color>,
>
    decreases ps.len(),
{
    if ps.len() == 0 {
        v
    } else {
        let (px, py, c) = ps.last();
        bitmap_stamp(stamp_glyphs(v, font, ps.drop_last(), color), px as int, py as int, font.glyph_of(c), color)
    }
}

/// Drawing text stamps each glyph exactly where the text layout places it,
/// with the font's advances: `draw_text` and `layout_text` agree.
pub proof fn lemma_draw_text_follows_layout(
    font: Font,
    x: int,
    y: int,
    color: Color,
    v: Seq<Seq<Color>>,
    s: Seq<char>,
    n: int,
)
    requires
        0 <= n <= s.len(),
        fits_i32(x),
        fits_i32(y),
        text_draw_prefix(font, x, y, color, v, s, n) is Some,
    ensures
        place_prefix(x, y, font.text_space as int, font.text_space_v as int, s, n) matches Some((cx, cy, ps))
            && text_draw_prefix(font, x, y, color, v, s, n) == Some((stamp_glyphs(v, font, ps, color), cx, cy))
            && fits_i32(cx) && fits_i32(cy),
    decreases n,
{
    if n > 0 {
        lemma_text_draw_prefix_some(font, x, y, color, v, s, n - 1, n);
        lemma_draw_text_follows_layout(font, x, y, color, v, s, n - 1);
        let (cx, cy, ps) = place_prefix(x, y, font.text_space as int, font.text_space_v as int, s, n - 1).unwrap();
        let c = s[n - 1];
        if c != '\n' && c != '\t' {
            let ps2 = ps.push((cx as i32, cy as i32, c));
            assert(ps2.drop_last() =~= ps);
        }
    }
}


/// Drawing depends only on the characters drawn so far.
proof fn lemma_text_draw_prefix_agree(
    font: Font,
    x: int,
    y: int,
    color: Color,
    v: Seq<Seq<Color>>,
    s1: Seq<char>,
    s2: Seq<char>,
    n: int,
)
    requires
        0 <= n <= s1.len(),
        n <= s2.len(),
        forall|i: int| 0 <= i < n ==> s1[i] == s2[i],
    ensures
        text_draw_prefix(font, x, y, color, v, s1, n) == text_draw_prefix(font, x, y, color, v, s2, n),
    decreases n,
{
    if n > 0 {
        lemma_text_draw_prefix_agree(font, x, y, color, v, s1, s2, n - 1);
    }
}

/// Drawing `s` followed by the first `j` characters of a text `t` without
/// newlines is drawing `s`, then those characters from where `s` ended.
proof fn lemma_text_draw_concat_upto(
    font: Font,
    x: int,
    y: int,
    color: Color,
    v: Seq<Seq<Color>>,
    s: Seq<char>,
    t: Seq<char>,
    j: int,
)
    requires
        0 <= j <= t.len(),
        forall|i: int| 0 <= i < t.len() ==> t[i] != '\n',
    ensures
        text_draw_prefix(font, x, y, color, v, s + t, s.len() + j) == match text_draw_prefix(
            font,
            x,
            y,
            color,
            v,
            s,
            s.len() as int,
        ) {
            None => None,
            Some((v1, cx, cy)) => text_draw_prefix(font, cx, cy, color, v1, t, j),
        },
    decreases j,
{
    if j == 0 {
        lemma_text_draw_prefix_agree(font, x, y, color, v, s + t, s, s.len() as int);
    } else {
        lemma_text_draw_concat_upto(font, x, y, color, v, s, t, j - 1);
        assert((s + t)[s.len() + j - 1] == t[j - 1]);
    }
}

/// Drawing a text with neither newlines nor tabs moves the cursor one
/// advance per character and stays on the line.
proof fn lemma_text_draw_plain_cursor(
    font: Font,
    x: int,
    y: int,
    color: Color,
    v: Seq<Seq<Color>>,
    s: Seq<char>,
    n: int,
)
    requires
        0 <= n <= s.len(),
        forall|i: int| 0 <= i < s.len() ==> s[i] != '\n' && s[i] != '\t',
    ensures
        text_draw_prefix(font, x, y, color, v, s, n) matches Some((v1, cx, cy)) ==> cx == x + n
            * font.text_space && cy == y,
    decreases n,
{
    if n > 0 {
        lemma_text_draw_plain_cursor(font, x, y, color, v, s, n - 1);
        assert(s[n - 1] != '\n' && s[n - 1] != '\t');
        if text_draw_prefix(font, x, y, color, v, s, n) is Some {
            lemma_text_draw_prefix_some(font, x, y, color, v, s, n - 1, n);
            let (v0, cx0, cy0) = text_draw_prefix(font, x, y, color, v, s, n - 1).unwrap();
            let (v1, cx1, cy1) = text_draw_prefix(font, x, y, color, v, s, n).unwrap();
            assert(cx1 == cx0 + font.text_space && cy1 == cy0);
            assert(cx0 == x + (n - 1) * font.text_space);
            assert(x + (n - 1) * font.text_space + font.text_space == x + n * font.text_space) by (nonlinear_arith);
            assert(cx1 == x + n * font.text_space);
        }
    } else {
        assert(n * font.text_space == 0) by (nonlinear_arith)
            requires
                n == 0,
        ;
    }
}

/// Drawing the concatenation of two texts, the second without newlines,
/// is drawing the first and then the second from where the first ended;
/// where the first has neither newlines nor tabs, that is one advance per
/// character to the right on the same line.
pub proof fn lemma_draw_text_concat(
    font: Font,
    x: int,
    y: int,
    color: Color,
    v: Seq<Seq<Color>>,
    s: Seq<char>,
    t: Seq<char>,
)
    requires
        forall|i: int| 0 <= i < t.len() ==> t[i] != '\n',
    ensures
        text_draw_prefix(font, x, y, color, v, s + t, (s + t).len() as int) == match text_draw_prefix(
            font,
            x,
            y,
            color,
            v,
            s,
            s.len() as int,
        ) {
            None => None,
            Some((v1, cx, cy)) => text_draw_prefix(font, cx, cy, color, v1, t, t.len() as int),
        },
        (forall|i: int| 0 <= i < s.len() ==> s[i] != '\n' && s[i] != '\t') ==> (text_draw_prefix(
            font,
            x,
            y,
            color,
            v,
            s,
            s.len() as int,
        ) matches Some((v1, cx, cy)) ==> cx == x + s.len() * font.text_space && cy == y),
{
    lemma_text_draw_concat_upto(font, x, y, color, v, s, t, t.len() as int);
    if forall|i: int| 0 <= i < s.len() ==> s[i] != '\n' && s[i] != '\t' {
        lemma_text_draw_plain_cursor(font, x, y, color, v, s, s.len() as int);
    }
}


/// The layout cursor after `n` characters depends only on those characters.
proof fn lemma_text_prefix_agree(xoff: int, yoff: int, w: int, s1: Seq<char>, s2: Seq<char>, n: int)
    requires
        0 <= n <= s1.len(),
        n <= s2.len(),
        forall|i: int| 0 <= i < n ==> s1[i] == s2[i],
    ensures
        text_prefix(xoff, yoff, w, s1, n) == text_prefix(xoff, yoff, w, s2, n),
    decreases n,
{
    if n > 0 {
        lemma_text_prefix_agree(xoff, yoff, w, s1, s2, n - 1);
    }
}

/// The widest column reached never shrinks as more text is laid out.
proof fn lemma_text_prefix_widest_grows(xoff: int, yoff: int, w: int, s: Seq<char>, i: int, n: int)
    requires
        0 <= i <= n,
        text_prefix(xoff, yoff, w, s, n) is Some,
    ensures
        text_prefix(xoff, yoff, w, s, i) matches Some((cx1, cy1, mx1)) && (text_prefix(xoff, yoff, w, s, n) matches Some(
            (cx2, cy2, mx2),
        ) && mx1 <= mx2 && cx1 <= mx1),
    decreases n - i,
{
    lemma_text_prefix_some(xoff, yoff, w, s, i, n);
    if i < n {
        lemma_text_prefix_widest_grows(xoff, yoff, w, s, i + 1, n);
        lemma_text_prefix_some(xoff, yoff, w, s, i + 1, n);
    } else {
        lemma_text_prefix_cursor_within(xoff, yoff, w, s, n);
    }
}

/// The cursor column never passes the widest column reached.
proof fn lemma_text_prefix_cursor_within(xoff: int, yoff: int, w: int, s: Seq<char>, n: int)
    ensures
        text_prefix(xoff, yoff, w, s, n) matches Some((cx, cy, mx)) ==> cx <= mx,
    decreases n,
{
    if n > 0 {
        lemma_text_prefix_cursor_within(xoff, yoff, w, s, n - 1);
    }
}

/// The measured width covers every prefix of the text: no line of the text
/// sticks out of the box measured for the whole of it. In particular the
/// width of `t + "\n" + u` is at least the width of `t`.
pub proof fn lemma_text_bounds_covers_prefixes(xoff: int, yoff: int, w: int, s: Seq<char>, i: int)
    requires
        0 <= i <= s.len(),
    ensures
        text_bounds_spec(xoff, yoff, w, s) matches Some((bw, bh)) ==> (text_bounds_spec(xoff, yoff, w, s.take(i))
            matches Some((bw1, bh1)) ==> bw1 <= bw),
{
    if text_bounds_spec(xoff, yoff, w, s) is Some {
        lemma_text_prefix_widest_grows(xoff, yoff, w, s, i, s.len() as int);
        lemma_text_prefix_agree(xoff, yoff, w, s, s.take(i), i);
        assert(s.take(i).len() == i);
    }
}

/// After a newline, the next character of unwrapped text is placed at the
/// start column `x`, one line height below the line the newline ended.
pub proof fn lemma_layout_newline_returns(x: int, y: int, xoff: int, yoff: int, s: Seq<char>, i: int)
    requires
        0 <= i,
        i + 1 < s.len(),
        s[i] == '\n',
        s[i + 1] != '\n',
        s[i + 1] != '\t',
    ensures
        place_prefix(x, y, xoff, yoff, s, i) matches Some((cx0, cy0, ps0)) ==> (place_prefix(
            x,
            y,
            xoff,
            yoff,
            s,
            i + 2,
        ) matches Some((cx2, cy2, ps2)) ==> ps2 == ps0.push((x as i32, (cy0 + yoff) as i32, s[i + 1]))),
{
    assert(place_prefix(x, y, xoff, yoff, s, i + 1) == place_step(x, xoff, yoff, place_prefix(x, y, xoff, yoff, s, i), s[i]));
    assert(place_prefix(x, y, xoff, yoff, s, i + 2) == place_step(
        x,
        xoff,
        yoff,
        place_prefix(x, y, xoff, yoff, s, i + 1),
        s[i + 1],
    ));
}

/// After a newline, the next character of wrapped text is placed at the
/// start column `x`, one line height below the line the newline ended (two
/// where a single advance already reaches the wrap width).
pub proof fn lemma_wrapped_newline_returns(x: int, y: int, max_width: int, xoff: int, yoff: int, s: Seq<char>, i: int)
    requires
        0 <= i,
        i + 1 < s.len(),
        s[i] == '\n',
        s[i + 1] != '\n',
        s[i + 1] != '\t',
    ensures
        place_wrapped_prefix(x, y, max_width, xoff, yoff, s, i) matches Some((cx0, cy0, ps0)) ==> (
        place_wrapped_prefix(x, y, max_width, xoff, yoff, s, i + 2) matches Some((cx2, cy2, ps2)) ==> ps2
            == ps0.push(
            (
                x as i32,
                (if xoff < max_width {
                    cy0 + yoff
                } else {
                    cy0 + 2 * yoff
                }) as i32,
                s[i + 1],
            ),
        )),
{
    assert(place_wrapped_prefix(x, y, max_width, xoff, yoff, s, i + 1) == place_wrapped_step(
        x,
        max_width,
        xoff,
        yoff,
        place_wrapped_prefix(x, y, max_width, xoff, yoff, s, i),
        s[i],
    ));
    assert(place_wrapped_prefix(x, y, max_width, xoff, yoff, s, i + 2) == place_wrapped_step(
        x,
        max_width,
        xoff,
        yoff,
        place_wrapped_prefix(x, y, max_width, xoff, yoff, s, i + 1),
        s[i + 1],
    ));
}


/// A newline in drawn text returns the cursor to the start column `x`, one
/// line below, and draws nothing.
pub proof fn lemma_draw_newline_returns(
    font: Font,
    x: int,
    y: int,
    color: Color,
    v: Seq<Seq<Color>>,
    s: Seq<char>,
    i: int,
)
    requires
        0 <= i < s.len(),
        s[i] == '\n',
    ensures
        text_draw_prefix(font, x, y, color, v, s, i) matches Some((v0, cx0, cy0)) ==> (text_draw_prefix(
            font,
            x,
            y,
            color,
            v,
            s,
            i + 1,
        ) matches Some((v1, cx1, cy1)) ==> v1 == v0 && cx1 == x && cy1 == cy0 + font.text_space_v),
{
    assert(text_draw_prefix(font, x, y, color, v, s, i + 1) == text_draw_step(
        font,
        x,
        color,
        text_draw_prefix(font, x, y, color, v, s, i),
        s[i],
    ));
}

/// In measured text a newline starts a new line at column 0, one line
/// height down, and keeps the widest column reached.
pub proof fn lemma_measure_newline_returns(xoff: int, yoff: int, w: int, s: Seq<char>, i: int)
    requires
        0 <= i < s.len(),
        s[i] == '\n',
    ensures
        text_prefix(xoff, yoff, w, s, i) matches Some((cx0, cy0, mx0)) ==> (text_prefix(xoff, yoff, w, s, i + 1)
            matches Some((cx1, cy1, mx1)) ==> cx1 == 0 && cy1 == cy0 + yoff && mx1 == (if mx0 >= 0 {
            mx0
        } else {
            0
        })),
{
    assert(text_prefix(xoff, yoff, w, s, i + 1) == text_step(xoff, yoff, w, text_prefix(xoff, yoff, w, s, i), s[i]));
}

} // verus!
