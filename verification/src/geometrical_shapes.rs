//! The shapes and their rasterizers. Every shape implements [`Drawable`] and
//! writes its pixels into a [`Displayable`] sink; the sequence of writes a
//! draw call makes is pinned down exactly by the shape's `emitted` sequence.

use vstd::prelude::*;
use vstd::arithmetic::div_mod::{lemma_div_is_ordered, lemma_fundamental_div_mod_converse};
use crate::arith::{
    is_rounded_sqrt, lemma_rnd_div_bound, lemma_rnd_div_exact, lemma_rnd_div_interp,
    lemma_rnd_div_zero, rdiv, rnd_div, rounded_sqrt,
};
use crate::rng::{random_below, random_u8};
use crate::trig::{cos_pair, lemma_turn_cos_q_bounds, lemma_turn_sin_q_bounds, sin_pair,
    turn_cos_q, turn_sin_q};

verus! {

/// An opaque 4-channel color, chosen once per draw call and repeated on every
/// pixel that call writes.
#[derive(Clone, Copy, PartialEq, Eq, Structural, Debug)]
pub struct Color {
    pub r: u8,
    pub g: u8,
    pub b: u8,
    pub a: u8,
}

impl Color {
    /// An opaque color from its three channels.
    pub fn rgb(r: u8, g: u8, b: u8) -> (c: Color)
        ensures
            c == (Color { r, g, b, a: 255 }),
    {
        Color { r, g, b, a: 255 }
    }
}

/// The abstract pixel sink every shape draws into. Its `writes` view is the
/// history of pixel writes the sink has received; whether a write is kept or
/// clipped is the sink's own business.
pub trait Displayable {
    spec fn writes(&self) -> Seq<(int, int, Color)>;

    fn display(&mut self, x: i32, y: i32, color: Color)
        ensures
            final(self).writes() == old(self).writes().push((x as int, y as int, color)),
    ;
}

/// The capability every shape offers: draw itself into a sink, either with a
/// caller-supplied color or with a freshly chosen random one.
pub trait Drawable {
    /// The exact sequence of pixel writes a draw with color `c` makes.
    spec fn emitted(&self, c: Color) -> Seq<(int, int, Color)>;

    /// Draw with the caller's color; every sub-part uses that same color.
    fn draw_with_color<D: Displayable>(&self, img: &mut D, color: &Color)
        ensures
            final(img).writes() == old(img).writes() + self.emitted(*color),
    ;

    /// An independently chosen uniformly random opaque color.
    fn color(&self) -> (c: Color)
        ensures
            c.a == 255,
    {
        Color::rgb(random_u8(), random_u8(), random_u8())
    }

    /// Draw with one freshly chosen opaque color shared by every pixel.
    fn draw<D: Displayable>(&self, img: &mut D)
        ensures
            exists|c: Color|
                c.a == 255 && final(img).writes() == old(img).writes() + self.emitted(c),
    {
        let c = self.color();
        self.draw_with_color(img, &c);
    }
}

/// A 2-D integer coordinate. Coordinates may be negative or out of bounds;
/// rejection is the sink's responsibility.
#[derive(Clone, Copy, PartialEq, Eq, Structural, Debug)]
pub struct Point {
    pub x: i32,
    pub y: i32,
}

impl Point {
    pub fn new(x: i32, y: i32) -> (p: Point)
        ensures
            p == (Point { x, y }),
    {
        Point { x, y }
    }

    /// A point drawn uniformly from `[0, max_width) x [0, max_height)`.
    pub fn random(max_width: i32, max_height: i32) -> (p: Point)
        requires
            max_width > 0,
            max_height > 0,
        ensures
            0 <= p.x < max_width,
            0 <= p.y < max_height,
    {
        Point { x: random_below(max_width), y: random_below(max_height) }
    }
}

impl Drawable for Point {
    open spec fn emitted(&self, c: Color) -> Seq<(int, int, Color)> {
        seq![(self.x as int, self.y as int, c)]
    }

    fn draw_with_color<D: Displayable>(&self, img: &mut D, color: &Color) {
        img.display(self.x, self.y, *color);
        proof {
            assert(old(img).writes().push((self.x as int, self.y as int, *color)) =~= old(
                img,
            ).writes() + self.emitted(*color));
        }
    }
}

/// The number of interpolation steps between two endpoints: the extent of the
/// dominant axis, `max(|dx|, |dy|)`.
pub open spec fn line_steps(x1: int, y1: int, x2: int, y2: int) -> int {
    let dx = if x2 >= x1 {
        x2 - x1
    } else {
        x1 - x2
    };
    let dy = if y2 >= y1 {
        y2 - y1
    } else {
        y1 - y2
    };
    if dx >= dy {
        dx
    } else {
        dy
    }
}

/// The `i`-th sample of the segment: both coordinates move by the rounded
/// fraction `i / steps` of their total extent; a zero-length segment has the
/// single sample `(x1, y1)`.
pub open spec fn line_point(x1: int, y1: int, x2: int, y2: int, i: int) -> (int, int) {
    let s = line_steps(x1, y1, x2, y2);
    if s == 0 {
        (x1, y1)
    } else {
        (x1 + rnd_div((x2 - x1) * i, s), y1 + rnd_div((y2 - y1) * i, s))
    }
}

/// The exact sequence of writes drawing the segment from `a` to `b` with
/// color `c` makes: one sample per pixel of the dominant axis, endpoints
/// included.
pub open spec fn segment_writes(a: Point, b: Point, c: Color) -> Seq<(int, int, Color)> {
    Seq::new(
        (line_steps(a.x as int, a.y as int, b.x as int, b.y as int) + 1) as nat,
        |i: int|
            {
                let p = line_point(a.x as int, a.y as int, b.x as int, b.y as int, i);
                (p.0, p.1, c)
            },
    )
}

/// A straight segment between two points, endpoints included.
pub struct Line {
    pub p1: Point,
    pub p2: Point,
}

impl Line {
    pub fn new(p1: &Point, p2: &Point) -> (l: Line)
        ensures
            l.p1 == *p1,
            l.p2 == *p2,
    {
        Line { p1: *p1, p2: *p2 }
    }

    /// A segment with both endpoints drawn independently within the bounds.
    pub fn random(max_width: i32, max_height: i32) -> (l: Line)
        requires
            max_width > 0,
            max_height > 0,
        ensures
            0 <= l.p1.x < max_width && 0 <= l.p1.y < max_height,
            0 <= l.p2.x < max_width && 0 <= l.p2.y < max_height,
    {
        Line { p1: Point::random(max_width, max_height), p2: Point::random(max_width, max_height) }
    }
}

impl Drawable for Line {
    open spec fn emitted(&self, c: Color) -> Seq<(int, int, Color)> {
        segment_writes(self.p1, self.p2, c)
    }

    fn draw_with_color<D: Displayable>(&self, img: &mut D, color: &Color) {
        let x1: i32 = self.p1.x;
        let y1: i32 = self.p1.y;
        let x2: i32 = self.p2.x;
        let y2: i32 = self.p2.y;
        let dx: i64 = x2 as i64 - x1 as i64;
        let dy: i64 = y2 as i64 - y1 as i64;
        let adx: i64 = if dx < 0 {
            -dx
        } else {
            dx
        };
        let ady: i64 = if dy < 0 {
            -dy
        } else {
            dy
        };
        let steps: i64 = if adx > ady {
            adx
        } else {
            ady
        };
        let ghost w0: Seq<(int, int, Color)> = img.writes();
        let ghost emit: Seq<(int, int, Color)> = self.emitted(*color);
        if steps == 0 {
            img.display(x1, y1, *color);
            proof {
                assert(w0.push((x1 as int, y1 as int, *color)) =~= w0 + emit);
            }
            return ;
        }
        let mut i: i64 = 0;
        while i <= steps
            invariant
                0 <= i <= steps + 1,
                0 < steps == line_steps(x1 as int, y1 as int, x2 as int, y2 as int),
                x1 == self.p1.x && y1 == self.p1.y && x2 == self.p2.x && y2 == self.p2.y,
                dx == x2 as int - x1 as int,
                dy == y2 as int - y1 as int,
                emit == self.emitted(*color),
                img.writes() == w0 + emit.take(i as int),
            decreases steps + 1 - i,
        {
            proof {
                assert(-0x1_0000_0000_0000_0000 <= (dx as int) * (i as int) <= 0x1_0000_0000_0000_0000
                    && -0x1_0000_0000_0000_0000 <= (dy as int) * (i as int)
                    <= 0x1_0000_0000_0000_0000) by (nonlinear_arith)
                    requires
                        -0x1_0000_0000 <= dx as int <= 0x1_0000_0000,
                        -0x1_0000_0000 <= dy as int <= 0x1_0000_0000,
                        0 <= i as int <= 0x1_0000_0000,
                ;
            }
            let ox: i128 = rdiv((dx as i128) * (i as i128), steps as i128);
            let oy: i128 = rdiv((dy as i128) * (i as i128), steps as i128);
            proof {
                lemma_rnd_div_interp(dx as int, i as int, steps as int);
                lemma_rnd_div_interp(dy as int, i as int, steps as int);
            }
            let px: i32 = (x1 as i64 + ox as i64) as i32;
            let py: i32 = (y1 as i64 + oy as i64) as i32;
            img.display(px, py, *color);
            proof {
                assert(emit[i as int] == (px as int, py as int, *color));
                assert(w0 + emit.take(i as int + 1) =~= (w0 + emit.take(i as int)).push(
                    emit[i as int],
                ));
            }
            i = i + 1;
        }
        proof {
            assert(emit.take(steps as int + 1) =~= emit);
        }
    }
}

/// Three corners joined by three segments in the fixed cyclic order
/// `p1 -> p2 -> p3 -> p1`; collinear corners are not an error.
pub struct Triangle {
    pub p1: Point,
    pub p2: Point,
    pub p3: Point,
}

impl Triangle {
    pub fn new(p1: &Point, p2: &Point, p3: &Point) -> (t: Triangle)
        ensures
            t.p1 == *p1,
            t.p2 == *p2,
            t.p3 == *p3,
    {
        Triangle { p1: *p1, p2: *p2, p3: *p3 }
    }

    /// A triangle with all three corners drawn independently within the
    /// bounds.
    pub fn random(max_width: i32, max_height: i32) -> (t: Triangle)
        requires
            max_width > 0,
            max_height > 0,
        ensures
            0 <= t.p1.x < max_width && 0 <= t.p1.y < max_height,
            0 <= t.p2.x < max_width && 0 <= t.p2.y < max_height,
            0 <= t.p3.x < max_width && 0 <= t.p3.y < max_height,
    {
        Triangle {
            p1: Point::random(max_width, max_height),
            p2: Point::random(max_width, max_height),
            p3: Point::random(max_width, max_height),
        }
    }
}

impl Drawable for Triangle {
    open spec fn emitted(&self, c: Color) -> Seq<(int, int, Color)> {
        segment_writes(self.p1, self.p2, c) + segment_writes(self.p2, self.p3, c)
            + segment_writes(self.p3, self.p1, c)
    }

    fn draw_with_color<D: Displayable>(&self, img: &mut D, color: &Color) {
        let ghost w0 = img.writes();
        Line::new(&self.p1, &self.p2).draw_with_color(img, color);
        Line::new(&self.p2, &self.p3).draw_with_color(img, color);
        Line::new(&self.p3, &self.p1).draw_with_color(img, color);
        proof {
            assert(img.writes() =~= w0 + self.emitted(*color));
        }
    }
}

/// Two opposite corners, in either order; the other two corners are derived,
/// and the four sides are drawn in the fixed cyclic order
/// `p1 -> (p1.x, p2.y) -> p2 -> (p2.x, p1.y) -> p1`.
pub struct Rectangle {
    pub p1: Point,
    pub p2: Point,
}

impl Rectangle {
    pub fn new(p1: &Point, p2: &Point) -> (r: Rectangle)
        ensures
            r.p1 == *p1,
            r.p2 == *p2,
    {
        Rectangle { p1: *p1, p2: *p2 }
    }
}

impl Drawable for Rectangle {
    open spec fn emitted(&self, c: Color) -> Seq<(int, int, Color)> {
        let p3 = (Point { x: self.p1.x, y: self.p2.y });
        let p4 = (Point { x: self.p2.x, y: self.p1.y });
        segment_writes(self.p1, p3, c) + segment_writes(p3, self.p2, c) + segment_writes(
            self.p2,
            p4,
            c,
        ) + segment_writes(p4, self.p1, c)
    }

    fn draw_with_color<D: Displayable>(&self, img: &mut D, color: &Color) {
        let ghost w0 = img.writes();
        let p3 = Point::new(self.p1.x, self.p2.y);
        let p4 = Point::new(self.p2.x, self.p1.y);
        Line::new(&self.p1, &p3).draw_with_color(img, color);
        Line::new(&p3, &self.p2).draw_with_color(img, color);
        Line::new(&self.p2, &p4).draw_with_color(img, color);
        Line::new(&p4, &self.p1).draw_with_color(img, color);
        proof {
            assert(img.writes() =~= w0 + self.emitted(*color));
        }
    }
}

/// A value clipped into the representable `i32` coordinate range, as the
/// sink's interface requires.
pub open spec fn clip_i32(v: int) -> int {
    if v < -0x8000_0000 {
        -0x8000_0000
    } else if v > 0x7fff_ffff {
        0x7fff_ffff
    } else {
        v
    }
}

/// The number of circumference samples for a radius: about one sample per
/// unit of circumference, `round(r * 710/113)` (the classical rational
/// approximation of two pi), clamped to at least one so that degenerate
/// circles still draw a pixel.
pub open spec fn circ_steps(r: int) -> int {
    if r <= 0 {
        1
    } else {
        rnd_div(710 * r, 113)
    }
}

/// The sample count is one for degenerate radii and within `[6r, 7r]`
/// otherwise.
pub proof fn lemma_circ_steps(r: int)
    ensures
        circ_steps(r) >= 1,
        r <= 0 ==> circ_steps(r) == 1,
        r > 0 ==> 6 * r <= circ_steps(r) <= 7 * r,
{
    if r > 0 {
        assert(1356 * r == (6 * r) * 226 + 0);
        lemma_fundamental_div_mod_converse(1356 * r, 226, 6 * r, 0);
        lemma_div_is_ordered(1356 * r, 1420 * r + 113, 226);
        assert(1582 * r + 225 == (7 * r) * 226 + 225);
        lemma_fundamental_div_mod_converse(1582 * r + 225, 226, 7 * r, 225);
        lemma_div_is_ordered(1420 * r + 113, 1582 * r + 225, 226);
        assert(rnd_div(710 * r, 113) == (1420 * r + 113) / 226);
    }
}

/// The `i`-th of `s` circumference samples of the circle with center
/// `(cx, cy)` and radius `r`: the center moved by the rounded rational
/// cosine and sine offsets, clipped into the `i32` coordinate range.
pub open spec fn circle_point(cx: int, cy: int, r: int, s: int, i: int) -> (int, int)
    recommends
        s > 0,
        0 <= i <= s,
{
    let cp = turn_cos_q(i, s);
    let sp = turn_sin_q(i, s);
    (clip_i32(cx + rnd_div(r * cp.0, cp.1)), clip_i32(cy + rnd_div(r * sp.0, sp.1)))
}

/// The squared Euclidean distance between `(cx, cy)` and `(ex, ey)`.
pub open spec fn dist_sq(cx: int, cy: int, ex: int, ey: int) -> int {
    (ex - cx) * (ex - cx) + (ey - cy) * (ey - cy)
}

/// A circle drawn as its circumference; the disc is not filled. A zero or
/// negative radius still draws at least one pixel.
pub struct Circle {
    pub center: Point,
    pub radius: i32,
}

/// `base + off` clipped into the `i32` range.
fn clamp_add(base: i32, off: i64) -> (r: i32)
    requires
        -0x1_0000_0000 <= off <= 0x1_0000_0000,
    ensures
        r as int == clip_i32(base as int + off as int),
{
    let t: i64 = (base as i64) + off;
    if t < (i32::MIN as i64) {
        i32::MIN
    } else if t > (i32::MAX as i64) {
        i32::MAX
    } else {
        t as i32
    }
}

/// The rounded offset `round(r * pn / pd)` of one coordinate, for a trig
/// fraction `pn / pd` of magnitude at most one.
fn circle_offset(r: i32, pn: i128, pd: i128) -> (off: i64)
    requires
        0 < pd <= 0x1400_0000_0000_0000_0000,
        -pd <= pn <= pd,
    ensures
        off == rnd_div(r as int * pn as int, pd as int),
        -0x1_0000_0000 <= off <= 0x1_0000_0000,
{
    let k: i128 = if r < 0 {
        -(r as i128)
    } else {
        r as i128
    };
    proof {
        assert(-(k * pd) <= (r as int) * (pn as int) <= k * pd) by (nonlinear_arith)
            requires
                -pd <= pn <= pd,
                -k <= r as int <= k,
                0 <= k,
                pd > 0,
        ;
        assert(k * pd <= 0x8000_0000 * 0x1400_0000_0000_0000_0000) by (nonlinear_arith)
            requires
                0 <= k <= 0x8000_0000,
                0 < pd <= 0x1400_0000_0000_0000_0000,
        ;
        lemma_rnd_div_bound((r as int) * (pn as int), pd as int, k as int);
    }
    let n: i128 = (r as i128) * pn;
    let q: i128 = rdiv(n, pd);
    q as i64
}

impl Circle {
    pub fn new(center: Point, radius: i32) -> (c: Circle)
        ensures
            c.center == center,
            c.radius == radius,
    {
        Circle { center, radius }
    }

    /// A circle around a random center whose radius is the rounded Euclidean
    /// distance to a second random point; it may well reach outside the
    /// bounds, which is the sink's business.
    pub fn random(width: i32, height: i32) -> (c: Circle)
        requires
            width > 0,
            height > 0,
        ensures
            0 <= c.center.x < width,
            0 <= c.center.y < height,
            0 <= c.radius,
            exists|ex: int, ey: int, rq: int|
                0 <= ex < width && 0 <= ey < height && #[trigger] is_rounded_sqrt(
                    rq,
                    dist_sq(c.center.x as int, c.center.y as int, ex, ey),
                ) && c.radius == (if rq > 0x7fff_ffff {
                    0x7fff_ffff as int
                } else {
                    rq
                }),
    {
        let center = Point::random(width, height);
        let edge = Point::random(width, height);
        let dx: i64 = edge.x as i64 - center.x as i64;
        let dy: i64 = edge.y as i64 - center.y as i64;
        proof {
            assert(0 <= dx * dx <= 0x4000_0000_0000_0000 && 0 <= dy * dy
                <= 0x4000_0000_0000_0000 && 0 <= dx * dx + dy * dy <= 0x7fff_ffff_ffff_ffff)
                by (nonlinear_arith)
                requires
                    -0x7fff_fffe <= dx <= 0x7fff_fffe,
                    -0x7fff_fffe <= dy <= 0x7fff_fffe,
            ;
        }
        let d2: u64 = (dx * dx + dy * dy) as u64;
        let rs: u64 = rounded_sqrt(d2);
        let radius: i32 = if rs > 0x7fff_ffff {
            i32::MAX
        } else {
            rs as i32
        };
        let c = Circle { center, radius };
        proof {
            let ex = edge.x as int;
            let ey = edge.y as int;
            let rq = rs as int;
            assert(dist_sq(c.center.x as int, c.center.y as int, ex, ey) == dx * dx + dy * dy)
                by (nonlinear_arith)
                requires
                    dx == ex - c.center.x as int,
                    dy == ey - c.center.y as int,
                    dist_sq(c.center.x as int, c.center.y as int, ex, ey) == (ex - c.center.x as int)
                        * (ex - c.center.x as int) + (ey - c.center.y as int) * (ey - c.center.y
                        as int),
            ;
            assert(0 <= ex < width && 0 <= ey < height && is_rounded_sqrt(
                rq,
                dist_sq(c.center.x as int, c.center.y as int, ex, ey),
            ) && c.radius == (if rq > 0x7fff_ffff {
                0x7fff_ffff as int
            } else {
                rq
            }));
        }
        c
    }
}

impl Drawable for Circle {
    open spec fn emitted(&self, c: Color) -> Seq<(int, int, Color)> {
        Seq::new(
            (circ_steps(self.radius as int) + 1) as nat,
            |i: int|
                {
                    let p = circle_point(
                        self.center.x as int,
                        self.center.y as int,
                        self.radius as int,
                        circ_steps(self.radius as int),
                        i,
                    );
                    (p.0, p.1, c)
                },
        )
    }

    fn draw_with_color<D: Displayable>(&self, img: &mut D, color: &Color) {
        let cx: i32 = self.center.x;
        let cy: i32 = self.center.y;
        let r: i32 = self.radius;
        let mut steps: i64 = 1;
        if r > 0 {
            let s128: i128 = rdiv(710 * (r as i128), 113);
            proof {
                lemma_circ_steps(r as int);
            }
            steps = s128 as i64;
        }
        proof {
            lemma_circ_steps(r as int);
            assert(1 <= steps <= 0x4_0000_0000);
        }
        let ghost w0: Seq<(int, int, Color)> = img.writes();
        let ghost emit: Seq<(int, int, Color)> = self.emitted(*color);
        let mut i: i64 = 0;
        while i <= steps
            invariant
                0 <= i <= steps + 1,
                1 <= steps <= 0x4_0000_0000,
                steps == circ_steps(r as int),
                cx == self.center.x && cy == self.center.y && r == self.radius,
                emit == self.emitted(*color),
                img.writes() == w0 + emit.take(i as int),
            decreases steps + 1 - i,
        {
            let cp: (i128, i128) = cos_pair(i, steps);
            let sp: (i128, i128) = sin_pair(i, steps);
            proof {
                lemma_turn_cos_q_bounds(i as int, steps as int);
                lemma_turn_sin_q_bounds(i as int, steps as int);
                assert(0 < steps * steps <= 0x10_0000_0000_0000_0000) by (nonlinear_arith)
                    requires
                        0 < steps <= 0x4_0000_0000,
                ;
                assert(320 * (steps as int * steps as int) <= 0x1400_0000_0000_0000_0000);
            }
            let ox: i64 = circle_offset(r, cp.0, cp.1);
            let oy: i64 = circle_offset(r, sp.0, sp.1);
            let px: i32 = clamp_add(cx, ox);
            let py: i32 = clamp_add(cy, oy);
            img.display(px, py, *color);
            proof {
                assert(emit[i as int] == (px as int, py as int, *color));
                assert(w0 + emit.take(i as int + 1) =~= (w0 + emit.take(i as int)).push(
                    emit[i as int],
                ));
            }
            i = i + 1;
        }
        proof {
            assert(emit.take(steps as int + 1) =~= emit);
        }
    }
}

/// Every pixel of a segment carries the color the segment was drawn with.
pub proof fn lemma_segment_one_color(a: Point, b: Point, c: Color)
    ensures
        forall|j: int|
            0 <= j < segment_writes(a, b, c).len() ==> #[trigger] segment_writes(a, b, c)[j].2
                == c,
{
}

/// A drawn segment always emits both of its endpoints exactly: the first
/// write is `p1`, the last is `p2`; a zero-length segment emits exactly one
/// point.
pub proof fn lemma_line_endpoints(l: Line, c: Color)
    ensures
        l.emitted(c).len() >= 1,
        l.emitted(c).first() == (l.p1.x as int, l.p1.y as int, c),
        l.emitted(c).last() == (l.p2.x as int, l.p2.y as int, c),
        l.p1 == l.p2 ==> l.emitted(c).len() == 1,
{
    let x1 = l.p1.x as int;
    let y1 = l.p1.y as int;
    let x2 = l.p2.x as int;
    let y2 = l.p2.y as int;
    let s = line_steps(x1, y1, x2, y2);
    if s > 0 {
        assert((x2 - x1) * 0 == 0 && (y2 - y1) * 0 == 0) by (nonlinear_arith);
        lemma_rnd_div_zero(s);
        lemma_rnd_div_exact(x2 - x1, s);
        lemma_rnd_div_exact(y2 - y1, s);
        assert(l.emitted(c).last() == (l.p2.x as int, l.p2.y as int, c));
    }
}

/// A drawn segment emits exactly `max(|dx|, |dy|) + 1` points: one sample per
/// pixel of the dominant axis.
pub proof fn lemma_line_count(l: Line, c: Color)
    ensures
        l.emitted(c).len() == line_steps(l.p1.x as int, l.p1.y as int, l.p2.x as int, l.p2.y as int)
            + 1,
{
}

/// Along the dominant axis a segment never skips and never repeats a pixel:
/// the `i`-th sample's dominant coordinate is exactly the start moved `i`
/// pixels towards the end.
pub proof fn lemma_line_dominant_axis(l: Line, c: Color, i: int)
    requires
        0 <= i < l.emitted(c).len(),
    ensures
        line_steps(l.p1.x as int, l.p1.y as int, l.p2.x as int, l.p2.y as int) == (if l.p2.x
            >= l.p1.x {
            l.p2.x - l.p1.x
        } else {
            l.p1.x - l.p2.x
        }) ==> l.emitted(c)[i].0 == l.p1.x + (if l.p2.x >= l.p1.x {
            i
        } else {
            -i
        }),
        line_steps(l.p1.x as int, l.p1.y as int, l.p2.x as int, l.p2.y as int) == (if l.p2.y
            >= l.p1.y {
            l.p2.y - l.p1.y
        } else {
            l.p1.y - l.p2.y
        }) ==> l.emitted(c)[i].1 == l.p1.y + (if l.p2.y >= l.p1.y {
            i
        } else {
            -i
        }),
{
    let x1 = l.p1.x as int;
    let y1 = l.p1.y as int;
    let x2 = l.p2.x as int;
    let y2 = l.p2.y as int;
    let s = line_steps(x1, y1, x2, y2);
    if s > 0 {
        if x2 >= x1 && s == x2 - x1 {
            assert((x2 - x1) * i == i * s) by (nonlinear_arith)
                requires
                    s == x2 - x1,
            ;
            lemma_rnd_div_exact(i, s);
        }
        if x2 < x1 && s == x1 - x2 {
            assert((x2 - x1) * i == (-i) * s) by (nonlinear_arith)
                requires
                    s == x1 - x2,
            ;
            lemma_rnd_div_exact(-i, s);
        }
        if y2 >= y1 && s == y2 - y1 {
            assert((y2 - y1) * i == i * s) by (nonlinear_arith)
                requires
                    s == y2 - y1,
            ;
            lemma_rnd_div_exact(i, s);
        }
        if y2 < y1 && s == y1 - y2 {
            assert((y2 - y1) * i == (-i) * s) by (nonlinear_arith)
                requires
                    s == y1 - y2,
            ;
            lemma_rnd_div_exact(-i, s);
        }
    }
}

/// A circle draw emits `circ_steps(radius) + 1` samples: the parametric loop
/// closes, so the first sample is repeated as the last, and even a degenerate
/// circle emits at least one pixel.
pub proof fn lemma_circle_count(c: Circle, col: Color)
    ensures
        c.emitted(col).len() == circ_steps(c.radius as int) + 1,
        c.emitted(col).len() >= 2,
{
    lemma_circ_steps(c.radius as int);
}

/// A circle draw starts at the rightmost sample `(cx + r, cy)` (clipped into
/// the coordinate range) and its closing sample repeats the opening one: the
/// sampled circumference is a closed curve.
pub proof fn lemma_circle_closes(c: Circle, col: Color)
    ensures
        c.emitted(col)[0] == (
            clip_i32(c.center.x as int + c.radius as int),
            c.center.y as int,
            col,
        ),
        c.emitted(col).last() == c.emitted(col)[0],
{
    let r = c.radius as int;
    let s = circ_steps(r);
    lemma_circ_steps(r);
    lemma_fundamental_div_mod_converse(s, 4 * s, 0, s);
    lemma_fundamental_div_mod_converse(5 * s, 4 * s, 1, s);
    assert(s * (4 * s - 2 * s) == 2 * (s * s) && (4 * s) * (4 * s) == 16 * (s * s) && s * s > 0)
        by (nonlinear_arith)
        requires
            s >= 1,
    ;
    let d = 5 * ((4 * s) * (4 * s)) - 8 * (s * (4 * s - 2 * s));
    assert(d == 64 * (s * s));
    assert(turn_cos_q(0, s) == (64 * (s * s), 64 * (s * s)));
    assert(turn_cos_q(s, s) == (64 * (s * s), 64 * (s * s)));
    lemma_rnd_div_exact(r, 64 * (s * s));
    lemma_turn_sin_q_bounds(0, s);
    lemma_turn_sin_q_bounds(s, s);
    assert(turn_sin_q(0, s).0 == 0);
    assert(turn_sin_q(s, s).0 == 0) by {
        assert(4 * ((2 * s - s) * (s - s)) == 0) by (nonlinear_arith);
    }
    lemma_rnd_div_zero(turn_sin_q(0, s).1);
    lemma_rnd_div_zero(turn_sin_q(s, s).1);
}

/// A circle of radius zero emits exactly its center point (twice: the
/// closing sample repeats the opening one).
pub proof fn lemma_circle_degenerate(c: Circle, col: Color)
    requires
        c.radius == 0,
    ensures
        c.emitted(col).len() == 2,
        forall|j: int|
            0 <= j < c.emitted(col).len() ==> #[trigger] c.emitted(col)[j] == (
                c.center.x as int,
                c.center.y as int,
                col,
            ),
{
    assert forall|j: int| 0 <= j < c.emitted(col).len() implies #[trigger] c.emitted(col)[j] == (
        c.center.x as int,
        c.center.y as int,
        col,
    ) by {
        lemma_turn_cos_q_bounds(j, 1);
        lemma_turn_sin_q_bounds(j, 1);
        let cp = turn_cos_q(j, 1);
        let sp = turn_sin_q(j, 1);
        lemma_rnd_div_zero(cp.1);
        lemma_rnd_div_zero(sp.1);
    }
}

/// Every pixel a triangle draw emits carries the one color of that draw: no
/// per-edge color variance.
pub proof fn lemma_triangle_one_color(t: Triangle, c: Color)
    ensures
        t.emitted(c).len() >= 3,
        forall|j: int|
            0 <= j < t.emitted(c).len() ==> #[trigger] t.emitted(c)[j].2 == c,
{
    lemma_segment_one_color(t.p1, t.p2, c);
    lemma_segment_one_color(t.p2, t.p3, c);
    lemma_segment_one_color(t.p3, t.p1, c);
}

/// Every pixel a rectangle draw emits carries the one color of that draw: no
/// per-edge color variance.
pub proof fn lemma_rectangle_one_color(r: Rectangle, c: Color)
    ensures
        r.emitted(c).len() >= 4,
        forall|j: int|
            0 <= j < r.emitted(c).len() ==> #[trigger] r.emitted(c)[j].2 == c,
{
    let p3 = (Point { x: r.p1.x, y: r.p2.y });
    let p4 = (Point { x: r.p2.x, y: r.p1.y });
    lemma_segment_one_color(r.p1, p3, c);
    lemma_segment_one_color(p3, r.p2, c);
    lemma_segment_one_color(r.p2, p4, c);
    lemma_segment_one_color(p4, r.p1, c);
}

} // verus!
