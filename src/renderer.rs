//! Rasterization of lines and depth-tested, textured triangles.
use vstd::prelude::*;

use crate::tga::{lemma_row_split, ImageView, TgaColor, TgaImage};
use vstd::arithmetic::mul::{
    lemma_mul_is_associative, lemma_mul_is_commutative, lemma_mul_is_distributive_sub, lemma_mul_unary_negation,
};

verus! {

pub open spec fn abs(a: int) -> int {
    if a < 0 { -a } else { a }
}

/// A line's endpoints after transposing a steep line and ordering the
/// endpoints by their major coordinate.
pub ghost struct LineSetup {
    pub steep: bool,
    pub x0: int,
    pub y0: int,
    pub x1: int,
    pub y1: int,
}

pub open spec fn line_setup(x0: int, y0: int, x1: int, y1: int) -> LineSetup {
    let steep = abs(x0 - x1) < abs(y0 - y1);
    let (a, b, c, d) = if steep { (y0, x0, y1, x1) } else { (x0, y0, x1, y1) };
    if a > c {
        LineSetup { steep, x0: c, y0: d, x1: a, y1: b }
    } else {
        LineSetup { steep, x0: a, y0: b, x1: c, y1: d }
    }
}

/// The doubled error term and the minor coordinate after `k` steps.
pub open spec fn bresenham(s: LineSetup, k: nat) -> (int, int)
    decreases k,
{
    if k == 0 {
        (0, s.y0)
    } else {
        let (e, y) = bresenham(s, (k - 1) as nat);
        let e2 = e + 2 * abs(s.y1 - s.y0);
        if e2 > s.x1 - s.x0 {
            (e2 - 2 * (s.x1 - s.x0), if s.y1 > s.y0 { y + 1 } else { y - 1 })
        } else {
            (e2, y)
        }
    }
}

/// The pixel plotted at step `k`, in image coordinates.
pub open spec fn line_pixel(s: LineSetup, k: nat) -> (int, int) {
    let y = bresenham(s, k).1;
    if s.steep { (y, s.x0 + k) } else { (s.x0 + k, y) }
}

/// The image after the first `k` steps of a line.
pub open spec fn line_steps(v: ImageView, s: LineSetup, k: nat, c: Seq<u8>) -> ImageView
    decreases k,
{
    if k == 0 {
        v
    } else {
        let p = line_pixel(s, (k - 1) as nat);
        line_steps(v, s, (k - 1) as nat, c).put(p.0, p.1, c)
    }
}

/// The image after drawing the line from (x0, y0) towards (x1, y1): one pixel
/// per step along the major axis, the far end excluded.
pub open spec fn drawn_line(v: ImageView, x0: int, y0: int, x1: int, y1: int, c: Seq<u8>) -> ImageView {
    let s = line_setup(x0, y0, x1, y1);
    line_steps(v, s, (s.x1 - s.x0) as nat, c)
}

/// Drawing a line from a to b lights the same pixels as drawing it from b to a.
pub proof fn lemma_line_symmetric(v: ImageView, x0: int, y0: int, x1: int, y1: int, c: Seq<u8>)
    ensures
        drawn_line(v, x0, y0, x1, y1, c) == drawn_line(v, x1, y1, x0, y0, c),
{
    let s = line_setup(x0, y0, x1, y1);
    let r = line_setup(x1, y1, x0, y0);
    if s.x1 - s.x0 != 0 {
        assert(s == r);
    } else {
        assert(r.x1 - r.x0 == 0);
    }
}

proof fn lemma_line_steps_wf(v: ImageView, s: LineSetup, k: nat, c: Seq<u8>)
    requires
        v.wf(),
    ensures
        line_steps(v, s, k, c).wf(),
        line_steps(v, s, k, c).width == v.width,
        line_steps(v, s, k, c).height == v.height,
        line_steps(v, s, k, c).bytespp == v.bytespp,
    decreases k,
{
    if k > 0 {
        lemma_line_steps_wf(v, s, (k - 1) as nat, c);
    }
}

/// Draws a line with Bresenham's algorithm. Pixels that fall outside the
/// image are skipped.
pub fn line(x0: u16, y0: u16, x1: u16, y1: u16, image: &mut TgaImage, color: &TgaColor)
    requires
        old(image)@.wf(),
    ensures
        final(image)@ == drawn_line(old(image)@, x0 as int, y0 as int, x1 as int, y1 as int, color.bgra@),
        final(image)@.wf(),
{
    let ghost v = image@;
    let ghost s = line_setup(x0 as int, y0 as int, x1 as int, y1 as int);
    let mut x0 = x0 as i32;
    let mut x1 = x1 as i32;
    let mut y0 = y0 as i32;
    let mut y1 = y1 as i32;
    let mut steep = false;
    let adx = if x0 > x1 { x0 - x1 } else { x1 - x0 };
    let ady = if y0 > y1 { y0 - y1 } else { y1 - y0 };
    if adx < ady {
        let t = x0;
        x0 = y0;
        y0 = t;
        let t = x1;
        x1 = y1;
        y1 = t;
        steep = true;
    }
    if x0 > x1 {
        let t = x0;
        x0 = x1;
        x1 = t;
        let t = y0;
        y0 = y1;
        y1 = t;
    }
    assert(s == LineSetup { steep, x0: x0 as int, y0: y0 as int, x1: x1 as int, y1: y1 as int });
    let dx: i64 = (x1 - x0) as i64;
    let dy: i64 = (y1 - y0) as i64;
    let derror2: i64 = if dy < 0 { -dy * 2 } else { dy * 2 };
    let mut error2: i64 = 0;
    let mut y: i64 = y0 as i64;
    let mut x: i32 = x0;
    let pixel = *color;
    while x < x1
        invariant
            s == (LineSetup { steep, x0: x0 as int, y0: y0 as int, x1: x1 as int, y1: y1 as int }),
            0 <= x0 <= x <= x1 <= 65535,
            0 <= y0 <= 65535,
            0 <= y1 <= 65535,
            dx == x1 - x0,
            abs(y1 - y0) <= dx,
            derror2 == 2 * abs(y1 - y0),
            -dx <= error2 <= dx,
            abs(y - y0) <= x - x0,
            (error2 as int, y as int) == bresenham(s, (x - x0) as nat),
            image@ == line_steps(v, s, (x - x0) as nat, color.bgra@),
            image@.wf(),
            v.wf(),
            v.width <= 65535,
            v.height <= 65535,
            pixel == *color,
        decreases x1 - x,
    {
        proof {
            lemma_line_steps_wf(v, s, (x - x0) as nat, color.bgra@);
        }
        let ghost k = (x - x0) as nat;
        let (px, py): (i64, i64) = if steep { (y, x as i64) } else { (x as i64, y) };
        assert(line_pixel(s, k) == (px as int, py as int));
        if 0 <= px && px <= 65535 && 0 <= py && py <= 65535 {
            let _ = image.set(px as u16, py as u16, pixel);
        }
        assert(image@ == line_steps(v, s, k + 1, color.bgra@));
        error2 = error2 + derror2;
        if error2 > dx {
            if y1 > y0 {
                y = y + 1;
            } else {
                y = y - 1;
            }
            error2 = error2 - dx * 2;
        }
        x = x + 1;
    }
}


/// The image after drawing the first `k` edges of the closed polygon with
/// corners (xs[i], ys[i]).
pub open spec fn outline_steps(v: ImageView, xs: Seq<u16>, ys: Seq<u16>, k: nat, c: Seq<u8>) -> ImageView
    decreases k,
{
    if k == 0 {
        v
    } else {
        let i = k - 1;
        let j = (k as int) % (xs.len() as int);
        drawn_line(outline_steps(v, xs, ys, (k - 1) as nat, c), xs[i] as int, ys[i] as int, xs[j] as int, ys[j] as int, c)
    }
}

/// Draws the edges of a closed polygon: from each corner to the next, and
/// from the last corner back to the first.
pub fn polygon(xs: &Vec<u16>, ys: &Vec<u16>, image: &mut TgaImage, color: &TgaColor)
    requires
        old(image)@.wf(),
        xs@.len() == ys@.len(),
    ensures
        final(image)@ == outline_steps(old(image)@, xs@, ys@, xs@.len(), color.bgra@),
        final(image)@.wf(),
{
    let ghost v = image@;
    let n = xs.len();
    let mut i: usize = 0;
    while i < n
        invariant
            n == xs@.len(),
            n == ys@.len(),
            i <= n,
            image@.wf(),
            image@ == outline_steps(v, xs@, ys@, i as nat, color.bgra@),
        decreases n - i,
    {
        let j = (i + 1) % n;
        line(xs[i], ys[i], xs[j], ys[j], image, color);
        i = i + 1;
    }
}

/// The cross product of (x0, y0, z0) and (x1, y1, z1).
pub fn cross_product(x0: i32, y0: i32, z0: i32, x1: i32, y1: i32, z1: i32) -> (r: (i64, i64, i64))
    requires
        x0 > i32::MIN,
        y0 > i32::MIN,
        z0 > i32::MIN,
        x1 > i32::MIN,
        y1 > i32::MIN,
        z1 > i32::MIN,
    ensures
        r.0 == y0 * z1 - z0 * y1,
        r.1 == z0 * x1 - x0 * z1,
        r.2 == x0 * y1 - y0 * x1,
{
    let x0 = x0 as i64;
    let y0 = y0 as i64;
    let z0 = z0 as i64;
    let x1 = x1 as i64;
    let y1 = y1 as i64;
    let z1 = z1 as i64;
    proof {
        lemma_product_bound(y0 as int, z1 as int);
        lemma_product_bound(z0 as int, y1 as int);
        lemma_product_bound(z0 as int, x1 as int);
        lemma_product_bound(x0 as int, z1 as int);
        lemma_product_bound(x0 as int, y1 as int);
        lemma_product_bound(y0 as int, x1 as int);
    }
    (y0 * z1 - z0 * y1, z0 * x1 - x0 * z1, x0 * y1 - y0 * x1)
}

proof fn lemma_product_bound(a: int, b: int)
    requires
        abs(a) <= 0x7fff_ffff,
        abs(b) <= 0x7fff_ffff,
    ensures
        abs(a * b) <= 0x3fff_ffff_0000_0001,
{
    assert(abs(a * b) <= 0x3fff_ffff_0000_0001) by (nonlinear_arith)
        requires abs(a) <= 0x7fff_ffff, abs(b) <= 0x7fff_ffff;
}

/// A triangle corner in screen space: its pixel, its depth in fixed point
/// (larger is nearer), and its texture coordinates in fixed point, with
/// `TEX_ONE` standing for 1.
#[derive(Clone, Copy, Debug)]
pub struct Vertex {
    pub x: u16,
    pub y: u16,
    pub z: u32,
    pub u: u32,
    pub v: u32,
}

pub const TEX_ONE: u64 = 65536;

/// The depth buffer value of a pixel that nothing has been drawn to.
pub const DEPTH_FAR: i64 = i64::MIN;

/// The barycentric weights of (px, py) with respect to vertices b and c,
/// and their common denominator, signs turned so that the denominator is
/// not negative. It is twice the triangle's area.
pub open spec fn weights(a: Vertex, b: Vertex, c: Vertex, px: int, py: int) -> (int, int, int) {
    let cp0 = (c.x - a.x) * (a.y - py) - (a.x - px) * (c.y - a.y);
    let cp1 = (a.x - px) * (b.y - a.y) - (b.x - a.x) * (a.y - py);
    let cp2 = (b.x - a.x) * (c.y - a.y) - (c.x - a.x) * (b.y - a.y);
    if cp2 < 0 { (-cp0, -cp1, -cp2) } else { (cp0, cp1, cp2) }
}

/// (px, py) lies in the closed triangle, which has a non-zero area.
pub open spec fn inside(a: Vertex, b: Vertex, c: Vertex, px: int, py: int) -> bool {
    let w = weights(a, b, c, px, py);
    w.2 > 0 && w.0 >= 0 && w.1 >= 0 && w.0 + w.1 <= w.2
}

/// The three points lie on one line.
pub open spec fn collinear(a: Vertex, b: Vertex, c: Vertex) -> bool {
    (b.x - a.x) * (c.y - a.y) == (c.x - a.x) * (b.y - a.y)
}

/// A corner attribute interpolated at weights `w`, rounded down.
pub open spec fn interp(q0: int, q1: int, q2: int, w: (int, int, int)) -> int {
    (q0 * (w.2 - w.0 - w.1) + q1 * w.0 + q2 * w.1) / w.2
}

/// The texel sampled at texture coordinates (tu, tv): columns left to
/// right, `v` measured from the bottom row up, both clamped to the texture.
pub open spec fn texel(tex: ImageView, tu: int, tv: int) -> (int, int) {
    let col = tu * tex.width / (TEX_ONE as int);
    let row = tv * tex.height / (TEX_ONE as int);
    (
        if col < tex.width - 1 { col } else { tex.width - 1 },
        tex.height - 1 - (if row < tex.height - 1 { row } else { tex.height - 1 }),
    )
}

/// What a triangle draws with: its corners, its texture and its tint.
pub ghost struct TriangleArgs {
    pub a: Vertex,
    pub b: Vertex,
    pub c: Vertex,
    pub tex: ImageView,
    pub tint: Seq<u8>,
}

/// The color written at weights `w`: the sampled texel times the tint.
pub open spec fn shade(t: TriangleArgs, w: (int, int, int)) -> Seq<u8> {
    let p = texel(t.tex, interp(t.a.u as int, t.b.u as int, t.c.u as int, w), interp(t.a.v as int, t.b.v as int, t.c.v as int, w));
    Seq::new(4, |i: int| crate::tga::modulate(t.tex.channel(p.0, p.1, i), t.tint[i]))
}

/// One pixel of the fill: where it is covered and its depth beats the
/// buffer's, the depth is stored and the shaded color written.
pub open spec fn fill_pixel(st: (ImageView, Seq<i64>), t: TriangleArgs, px: int, py: int) -> (ImageView, Seq<i64>) {
    let w = weights(t.a, t.b, t.c, px, py);
    let z = interp(t.a.z as int, t.b.z as int, t.c.z as int, w);
    let idx = px + py * st.0.width;
    if inside(t.a, t.b, t.c, px, py) && z > st.1[idx] {
        (st.0.put(px, py, shade(t, w)), st.1.update(idx, z as i64))
    } else {
        st
    }
}

/// The first `k` pixels of column `px`, from row `y0` down.
pub open spec fn fill_column(st: (ImageView, Seq<i64>), t: TriangleArgs, px: int, y0: int, k: nat) -> (ImageView, Seq<i64>)
    decreases k,
{
    if k == 0 {
        st
    } else {
        fill_pixel(fill_column(st, t, px, y0, (k - 1) as nat), t, px, y0 + k - 1)
    }
}

/// The first `k` columns of the box from (x0, y0) with rows up to `y1`.
pub open spec fn fill_box(st: (ImageView, Seq<i64>), t: TriangleArgs, x0: int, y0: int, y1: int, k: nat) -> (ImageView, Seq<i64>)
    decreases k,
{
    if k == 0 {
        st
    } else {
        fill_column(fill_box(st, t, x0, y0, y1, (k - 1) as nat), t, x0 + k - 1, y0, span(y0, y1))
    }
}

pub open spec fn span(lo: int, hi: int) -> nat {
    if hi > lo { (hi - lo) as nat } else { 0 }
}

pub open spec fn min3(a: int, b: int, c: int) -> int {
    if a <= b && a <= c { a } else if b <= c { b } else { c }
}

pub open spec fn max3(a: int, b: int, c: int) -> int {
    if a >= b && a >= c { a } else if b >= c { b } else { c }
}

pub open spec fn min2(a: int, b: int) -> int {
    if a <= b { a } else { b }
}

/// The image and depth buffer after filling a triangle: every pixel of the
/// bounding box, edges included, clamped to the image.
pub open spec fn filled_triangle(v: ImageView, zb: Seq<i64>, t: TriangleArgs) -> (ImageView, Seq<i64>) {
    let x0 = min3(t.a.x as int, t.b.x as int, t.c.x as int);
    let x1 = min2(max3(t.a.x as int, t.b.x as int, t.c.x as int) + 1, v.width as int);
    let y0 = min3(t.a.y as int, t.b.y as int, t.c.y as int);
    let y1 = min2(max3(t.a.y as int, t.b.y as int, t.c.y as int) + 1, v.height as int);
    fill_box((v, zb), t, x0, y0, y1, span(x0, x1))
}

proof fn lemma_degenerate_column(st: (ImageView, Seq<i64>), t: TriangleArgs, px: int, y0: int, k: nat)
    requires
        collinear(t.a, t.b, t.c),
    ensures
        fill_column(st, t, px, y0, k) == st,
    decreases k,
{
    if k > 0 {
        lemma_degenerate_column(st, t, px, y0, (k - 1) as nat);
        lemma_collinear_not_inside(t.a, t.b, t.c, px, y0 + k - 1);
    }
}

proof fn lemma_degenerate_box(st: (ImageView, Seq<i64>), t: TriangleArgs, x0: int, y0: int, y1: int, k: nat)
    requires
        collinear(t.a, t.b, t.c),
    ensures
        fill_box(st, t, x0, y0, y1, k) == st,
    decreases k,
{
    if k > 0 {
        lemma_degenerate_box(st, t, x0, y0, y1, (k - 1) as nat);
        lemma_degenerate_column(st, t, x0 + k - 1, y0, span(y0, y1));
    }
}

proof fn lemma_collinear_not_inside(a: Vertex, b: Vertex, c: Vertex, px: int, py: int)
    requires
        collinear(a, b, c),
    ensures
        !inside(a, b, c, px, py),
{
}

/// Three collinear corners draw nothing: the image and the depth buffer
/// stay as they were.
pub proof fn lemma_degenerate_triangle(v: ImageView, zb: Seq<i64>, t: TriangleArgs)
    requires
        collinear(t.a, t.b, t.c),
    ensures
        filled_triangle(v, zb, t) == (v, zb),
{
    let x0 = min3(t.a.x as int, t.b.x as int, t.c.x as int);
    let x1 = min2(max3(t.a.x as int, t.b.x as int, t.c.x as int) + 1, v.width as int);
    let y0 = min3(t.a.y as int, t.b.y as int, t.c.y as int);
    let y1 = min2(max3(t.a.y as int, t.b.y as int, t.c.y as int) + 1, v.height as int);
    lemma_degenerate_box((v, zb), t, x0, y0, y1, span(x0, x1));
}

/// A covered pixel lies within the triangle's bounding box.
pub proof fn lemma_covered_in_bounding_box(a: Vertex, b: Vertex, c: Vertex, px: int, py: int)
    requires
        inside(a, b, c, px, py),
    ensures
        min3(a.x as int, b.x as int, c.x as int) <= px <= max3(a.x as int, b.x as int, c.x as int),
        min3(a.y as int, b.y as int, c.y as int) <= py <= max3(a.y as int, b.y as int, c.y as int),
{
    let w = weights(a, b, c, px, py);
    let (ax, bx, cx, ay, by, cy) = (a.x as int, b.x as int, c.x as int, a.y as int, b.y as int, c.y as int);
    let cp0 = (cx - ax) * (ay - py) - (ax - px) * (cy - ay);
    let cp1 = (ax - px) * (by - ay) - (bx - ax) * (ay - py);
    let cp2 = (bx - ax) * (cy - ay) - (cx - ax) * (by - ay);
    lemma_weight_identity(bx - ax, cx - ax, ax - px, by - ay, cy - ay, ay - py);
    lemma_weight_identity(by - ay, cy - ay, ay - py, bx - ax, cx - ax, ax - px);
    // the second call gives the y relation with all three weights negated
    lemma_negate_relation(py - ay, by - ay, cy - ay, -cp2, -cp0, -cp1);
    if cp2 < 0 {
        lemma_negate_relation(px - ax, bx - ax, cx - ax, cp2, cp0, cp1);
        lemma_negate_relation(py - ay, by - ay, cy - ay, cp2, cp0, cp1);
    }
    lemma_convex_bounds(px, ax, bx, cx, w.0, w.1, w.2);
    lemma_convex_bounds(py, ay, by, cy, w.0, w.1, w.2);
}

/// With e = a - p, d1 = b - a and d2 = c - a:
/// (p - a) * cp2 == d1 * cp0 + d2 * cp1.
proof fn lemma_weight_identity(dx1: int, dx2: int, ex: int, dy1: int, dy2: int, ey: int)
    ensures
        (-ex) * (dx1 * dy2 - dx2 * dy1) == dx1 * (dx2 * ey - ex * dy2) + dx2 * (ex * dy1 - dx1 * ey),
{
    lemma_mul_is_distributive_sub(dx1, dx2 * ey, ex * dy2);
    lemma_mul_is_distributive_sub(dx2, ex * dy1, dx1 * ey);
    lemma_mul_is_distributive_sub(-ex, dx1 * dy2, dx2 * dy1);
    lemma_mul_is_associative(dx1, dx2, ey);
    lemma_mul_is_associative(dx2, dx1, ey);
    lemma_mul_is_commutative(dx1, dx2);
    lemma_mul_is_associative(dx1, ex, dy2);
    lemma_mul_is_associative(ex, dx1, dy2);
    lemma_mul_is_commutative(dx1, ex);
    lemma_mul_is_associative(dx2, ex, dy1);
    lemma_mul_is_associative(ex, dx2, dy1);
    lemma_mul_is_commutative(dx2, ex);
    lemma_mul_unary_negation(ex, dx1 * dy2);
    lemma_mul_unary_negation(ex, dx2 * dy1);
}

proof fn lemma_negate_relation(p: int, q1: int, q2: int, t: int, w1: int, w2: int)
    requires
        p * t == q1 * w1 + q2 * w2,
    ensures
        p * (-t) == q1 * (-w1) + q2 * (-w2),
{
    assert(p * (-t) == q1 * (-w1) + q2 * (-w2)) by (nonlinear_arith)
        requires p * t == q1 * w1 + q2 * w2;
}

proof fn lemma_convex_bounds(p: int, q0: int, q1: int, q2: int, w1: int, w2: int, total: int)
    requires
        w1 >= 0,
        w2 >= 0,
        w1 + w2 <= total,
        total > 0,
        (p - q0) * total == (q1 - q0) * w1 + (q2 - q0) * w2,
    ensures
        min3(q0, q1, q2) <= p <= max3(q0, q1, q2),
{
    let lo = min3(q0, q1, q2);
    let hi = max3(q0, q1, q2);
    assert((lo - q0) * total <= (p - q0) * total <= (hi - q0) * total) by (nonlinear_arith)
        requires
            lo <= q0, lo <= q1, lo <= q2, q0 <= hi, q1 <= hi, q2 <= hi,
            w1 >= 0, w2 >= 0, w1 + w2 <= total,
            (p - q0) * total == (q1 - q0) * w1 + (q2 - q0) * w2;
    assert(lo <= p <= hi) by (nonlinear_arith)
        requires (lo - q0) * total <= (p - q0) * total <= (hi - q0) * total, total > 0;
}


/// The weights of (px, py) when it lies in the triangle, `None` otherwise,
/// degenerate triangles included.
pub fn barycentric(a: &Vertex, b: &Vertex, c: &Vertex, px: u16, py: u16) -> (r: Option<(u64, u64, u64)>)
    ensures
        r is Some <==> inside(*a, *b, *c, px as int, py as int),
        r is Some ==> (r->Some_0.0 as int, r->Some_0.1 as int, r->Some_0.2 as int) == weights(*a, *b, *c, px as int, py as int),
{
    let cp = cross_product(
        b.x as i32 - a.x as i32,
        c.x as i32 - a.x as i32,
        a.x as i32 - px as i32,
        b.y as i32 - a.y as i32,
        c.y as i32 - a.y as i32,
        a.y as i32 - py as i32,
    );
    proof {
        lemma_small_product((c.x - a.x) as int, (a.y - py) as int);
        lemma_small_product((a.x - px) as int, (c.y - a.y) as int);
        lemma_small_product((a.x - px) as int, (b.y - a.y) as int);
        lemma_small_product((b.x - a.x) as int, (a.y - py) as int);
        lemma_small_product((b.x - a.x) as int, (c.y - a.y) as int);
        lemma_small_product((c.x - a.x) as int, (b.y - a.y) as int);
    }
    let (w0, w1, w2) = if cp.2 < 0 { (-cp.0, -cp.1, -cp.2) } else { cp };
    if w2 > 0 && w0 >= 0 && w1 >= 0 && w0 + w1 <= w2 {
        Some((w0 as u64, w1 as u64, w2 as u64))
    } else {
        None
    }
}

/// A corner attribute interpolated at weights `w`.
fn interpolate(q0: u32, q1: u32, q2: u32, w: (u64, u64, u64)) -> (r: u64)
    requires
        w.0 + w.1 <= w.2,
        0 < w.2 <= 0x4_0000_0000,
    ensures
        r == interp(q0 as int, q1 as int, q2 as int, (w.0 as int, w.1 as int, w.2 as int)),
        r <= u32::MAX,
{
    let w0 = w.2 - w.0 - w.1;
    assert(q0 * w0 + q1 * w.0 + q2 * w.1 <= u32::MAX * w.2) by (nonlinear_arith)
        requires q0 <= u32::MAX, q1 <= u32::MAX, q2 <= u32::MAX, w0 + w.0 + w.1 == w.2, w0 >= 0, w.0 >= 0, w.1 >= 0;
    assert(u32::MAX * w.2 <= 0x4_0000_0000_0000_0000) by (nonlinear_arith)
        requires w.2 <= 0x4_0000_0000;
    let num: u128 = q0 as u128 * w0 as u128 + q1 as u128 * w.0 as u128 + q2 as u128 * w.1 as u128;
    let r = num / (w.2 as u128);
    assert(r <= u32::MAX) by (nonlinear_arith)
        requires num <= u32::MAX * w.2, w.2 > 0, r == num as int / w.2 as int;
    r as u64
}

/// The texel that texture coordinates (tu, tv) pick.
fn texel_at(texture: &TgaImage, tu: u64, tv: u64) -> (r: (u16, u16))
    requires
        texture@.wf(),
        texture@.width >= 1,
        texture@.height >= 1,
        tu <= u32::MAX,
        tv <= u32::MAX,
    ensures
        (r.0 as int, r.1 as int) == texel(texture@, tu as int, tv as int),
        r.0 < texture@.width,
        r.1 < texture@.height,
{
    let tw = texture.get_width() as u64;
    let th = texture.get_height() as u64;
    assert(tu * tw <= u32::MAX * 65535 && tv * th <= u32::MAX * 65535) by (nonlinear_arith)
        requires tu <= u32::MAX, tv <= u32::MAX, tw <= 65535, th <= 65535;
    let col = tu * tw / TEX_ONE;
    let row = tv * th / TEX_ONE;
    let x = if col < tw - 1 { col } else { tw - 1 };
    let y = th - 1 - (if row < th - 1 { row } else { th - 1 });
    (x as u16, y as u16)
}

/// A depth buffer for `image`: one entry per pixel, each `DEPTH_FAR`.
pub fn depth_buffer(image: &TgaImage) -> (r: Vec<i64>)
    requires
        image@.wf(),
    ensures
        r@.len() == image@.width * image@.height,
        forall|i: int| 0 <= i < r@.len() ==> #[trigger] r@[i] == DEPTH_FAR,
{
    let w = image.get_width();
    let h = image.get_height();
    assert(w as int * h as int <= 65535 * 65535) by (nonlinear_arith)
        requires w <= 65535, h <= 65535;
    let n = w as usize * h as usize;
    vec![DEPTH_FAR; n]
}

/// Fills a triangle: each pixel of its bounding box (edges included, clamped
/// to the image) that lies in the triangle and whose interpolated depth
/// is greater than the depth buffer's gets that depth and the texel at its
/// interpolated texture coordinates, tinted by `color`.
pub fn triangle(
    image: &mut TgaImage,
    zbuffer: &mut Vec<i64>,
    a: &Vertex,
    b: &Vertex,
    c: &Vertex,
    texture: &TgaImage,
    color: &TgaColor,
)
    requires
        old(image)@.wf(),
        old(zbuffer)@.len() == old(image)@.width * old(image)@.height,
        texture@.wf(),
        texture@.width >= 1,
        texture@.height >= 1,
    ensures
        (final(image)@, final(zbuffer)@) == filled_triangle(
            old(image)@,
            old(zbuffer)@,
            TriangleArgs { a: *a, b: *b, c: *c, tex: texture@, tint: color.bgra@ },
        ),
        final(image)@.wf(),
        final(image)@.width == old(image)@.width,
        final(image)@.height == old(image)@.height,
        final(image)@.bytespp == old(image)@.bytespp,
        final(zbuffer)@.len() == old(zbuffer)@.len(),
{
    let ghost t = TriangleArgs { a: *a, b: *b, c: *c, tex: texture@, tint: color.bgra@ };
    let ghost v = image@;
    let ghost zb = zbuffer@;
    let width = image.get_width() as u32;
    let height = image.get_height() as u32;
    let (ax, bx, cx) = (a.x as u32, b.x as u32, c.x as u32);
    let (ay, by, cy) = (a.y as u32, b.y as u32, c.y as u32);
    let xmin = if ax <= bx && ax <= cx { ax } else if bx <= cx { bx } else { cx };
    let xtop = if ax >= bx && ax >= cx { ax } else if bx >= cx { bx } else { cx };
    let ymin = if ay <= by && ay <= cy { ay } else if by <= cy { by } else { cy };
    let ytop = if ay >= by && ay >= cy { ay } else if by >= cy { by } else { cy };
    let xmax = if xtop + 1 <= width { xtop + 1 } else { width };
    let ymax = if ytop + 1 <= height { ytop + 1 } else { height };
    let ghost y1 = ymax as int;
    let mut xp = xmin;
    while xp < xmax
        invariant
            xmin <= xp,
            xp <= xmax || xp == xmin,
            xmax <= width,
            ymax <= height,
            width == v.width,
            height == v.height,
            v.wf(),
            zb.len() == v.width * v.height,
            image@.wf(),
            image@.width == v.width,
            image@.height == v.height,
            image@.bytespp == v.bytespp,
            zbuffer@.len() == zb.len(),
            texture@.wf(),
            texture@.width >= 1,
            texture@.height >= 1,
            t == (TriangleArgs { a: *a, b: *b, c: *c, tex: texture@, tint: color.bgra@ }),
            xmin == min3(a.x as int, b.x as int, c.x as int),
            ymin == min3(a.y as int, b.y as int, c.y as int),
            y1 == ymax,
            ymax == min2(max3(a.y as int, b.y as int, c.y as int) + 1, v.height as int),
            xmax == min2(max3(a.x as int, b.x as int, c.x as int) + 1, v.width as int),
            (image@, zbuffer@) == fill_box((v, zb), t, xmin as int, ymin as int, y1, (xp - xmin) as nat),
        decreases xmax - xp,
    {
        let ghost before = (image@, zbuffer@);
        let mut yp = ymin;
        while yp < ymax
            invariant
                xmin <= xp < xmax,
                ymin <= yp,
                yp <= ymax || yp == ymin,
                xmax <= width,
                ymax <= height,
                width == v.width,
                height == v.height,
                image@.wf(),
                image@.width == v.width,
                image@.height == v.height,
                image@.bytespp == v.bytespp,
                zbuffer@.len() == zb.len(),
                zb.len() == v.width * v.height,
                texture@.wf(),
                texture@.width >= 1,
                texture@.height >= 1,
                t == (TriangleArgs { a: *a, b: *b, c: *c, tex: texture@, tint: color.bgra@ }),
                (image@, zbuffer@) == fill_column(before, t, xp as int, ymin as int, (yp - ymin) as nat),
            decreases ymax - yp,
        {
            let ghost st = (image@, zbuffer@);
            let ghost k = (yp - ymin) as nat;
            assert(ymin + k == yp);
            match barycentric(a, b, c, xp as u16, yp as u16) {
                Some(w) => {
                    proof {
                        lemma_weight_bound(*a, *b, *c, xp as int, yp as int);
                        assert(xp + yp * width < width * height && width * height <= 65535 * 65535 && yp * width <= xp + yp * width) by (nonlinear_arith)
                            requires xp < width, yp < height, width <= 65535, height <= 65535;
                    }
                    let z = interpolate(a.z, b.z, c.z, w);
                    let idx: usize = xp as usize + yp as usize * width as usize;
                    if (z as i64) > zbuffer[idx] {
                        zbuffer.set(idx, z as i64);
                        let tu = interpolate(a.u, b.u, c.u, w);
                        let tv = interpolate(a.v, b.v, c.v, w);
                        let (tx, ty) = texel_at(texture, tu, tv);
                        let texcolor = texture.get(tx, ty);
                        let shaded = texcolor.mul(color);
                        assert(shaded.bgra@ =~= shade(t, (w.0 as int, w.1 as int, w.2 as int)));
                        let _ = image.set(xp as u16, yp as u16, shaded);
                    }
                },
                None => {},
            }
            yp = yp + 1;
        }
        assert(span(ymin as int, y1) == (if ymax > ymin { (yp - ymin) as nat } else { 0nat }));
        assert(fill_box((v, zb), t, xmin as int, ymin as int, y1, (xp + 1 - xmin) as nat) == fill_column(
            before, t, xp as int, ymin as int, span(ymin as int, y1)));
        xp = xp + 1;
    }
    assert(span(xmin as int, xmax as int) == (xp - xmin) as nat);
}

proof fn lemma_small_product(a: int, b: int)
    requires
        abs(a) <= 65535,
        abs(b) <= 65535,
    ensures
        abs(a * b) <= 65535 * 65535,
{
    assert(abs(a * b) <= 65535 * 65535) by (nonlinear_arith)
        requires abs(a) <= 65535, abs(b) <= 65535;
}

/// A covered pixel's weights are at most twice the area of a triangle of
/// 16-bit corners.
proof fn lemma_weight_bound(a: Vertex, b: Vertex, c: Vertex, px: int, py: int)
    requires
        inside(a, b, c, px, py),
    ensures
        weights(a, b, c, px, py).2 <= 0x4_0000_0000,
{
    let (ax, bx, cx, ay, by, cy) = (a.x as int, b.x as int, c.x as int, a.y as int, b.y as int, c.y as int);
    assert(abs((bx - ax) * (cy - ay) - (cx - ax) * (by - ay)) <= 0x4_0000_0000) by (nonlinear_arith)
        requires 0 <= ax <= 65535, 0 <= bx <= 65535, 0 <= cx <= 65535, 0 <= ay <= 65535, 0 <= by <= 65535, 0 <= cy <= 65535;
}

/// What a fill leaves at pixel (px, py): its bytes and its depth entry.
pub open spec fn pixel_state(st: (ImageView, Seq<i64>), px: int, py: int) -> (Seq<u8>, i64) {
    let o = st.0.offset(px, py);
    (st.0.data.subrange(o, o + st.0.bytespp), st.1[px + py * st.0.width])
}

/// The depth a triangle interpolates at (px, py).
pub open spec fn depth_at(t: TriangleArgs, px: int, py: int) -> int {
    interp(t.a.z as int, t.b.z as int, t.c.z as int, weights(t.a, t.b, t.c, px, py))
}

/// (px, py) is visited by the fill of `t` into an image shaped like `v`
/// and lies in the triangle.
pub open spec fn covers(t: TriangleArgs, v: ImageView, px: int, py: int) -> bool {
    let x0 = min3(t.a.x as int, t.b.x as int, t.c.x as int);
    let x1 = min2(max3(t.a.x as int, t.b.x as int, t.c.x as int) + 1, v.width as int);
    let y0 = min3(t.a.y as int, t.b.y as int, t.c.y as int);
    let y1 = min2(max3(t.a.y as int, t.b.y as int, t.c.y as int) + 1, v.height as int);
    x0 <= px < x1 && y0 <= py < y1 && inside(t.a, t.b, t.c, px, py)
}

/// The pixel after the depth test of `t` at (px, py).
pub open spec fn pixel_step(s: (Seq<u8>, i64), t: TriangleArgs, px: int, py: int, bpp: nat) -> (Seq<u8>, i64) {
    let z = depth_at(t, px, py);
    if inside(t.a, t.b, t.c, px, py) && z > s.1 {
        (shade(t, weights(t.a, t.b, t.c, px, py)).subrange(0, bpp as int), z as i64)
    } else {
        s
    }
}

/// A fill state for an image shaped like `v`.
pub open spec fn shaped(st: (ImageView, Seq<i64>), v: ImageView) -> bool {
    &&& st.0.wf()
    &&& st.0.width == v.width
    &&& st.0.height == v.height
    &&& st.0.bytespp == v.bytespp
    &&& st.1.len() == v.width * v.height
}

proof fn lemma_index_injective(qx: int, qy: int, px: int, py: int, w: int)
    requires
        0 <= qx < w,
        0 <= px < w,
        0 <= qy,
        0 <= py,
        qx + qy * w == px + py * w,
    ensures
        qx == px && qy == py,
{
    if qy < py {
        assert(qx + qy * w < px + py * w) by (nonlinear_arith)
            requires 0 <= qx < w, 0 <= px, qy < py;
    } else if qy > py {
        assert(qx + qy * w > px + py * w) by (nonlinear_arith)
            requires 0 <= px < w, 0 <= qx, qy > py;
    }
}

proof fn lemma_pixel_fits(v: ImageView, px: int, py: int)
    requires
        v.wf(),
        v.in_bounds(px, py),
    ensures
        0 <= v.offset(px, py),
        v.offset(px, py) + v.bytespp <= v.data.len(),
        0 <= px + py * v.width < v.width * v.height,
{
    let (w, h, bpp) = (v.width as int, v.height as int, v.bytespp as int);
    assert(0 <= px + py * w && px + py * w + 1 <= w * h) by (nonlinear_arith)
        requires 0 <= px < w, 0 <= py < h;
    assert(0 <= (px + py * w) * bpp && (px + py * w) * bpp + bpp <= w * h * bpp) by (nonlinear_arith)
        requires 0 <= px + py * w, px + py * w + 1 <= w * h, bpp >= 0;
}

proof fn lemma_disjoint_pixels(v: ImageView, qx: int, qy: int, px: int, py: int)
    requires
        v.wf(),
        v.in_bounds(px, py),
        v.in_bounds(qx, qy),
        qx != px || qy != py,
    ensures
        v.offset(qx, qy) + v.bytespp <= v.offset(px, py) || v.offset(px, py) + v.bytespp <= v.offset(qx, qy),
        qx + qy * v.width != px + py * v.width,
{
    let (w, bpp) = (v.width as int, v.bytespp as int);
    if qx + qy * w == px + py * w {
        lemma_index_injective(qx, qy, px, py, w);
    }
    let iq = qx + qy * w;
    let ip = px + py * w;
    assert(iq * bpp + bpp <= ip * bpp || ip * bpp + bpp <= iq * bpp) by (nonlinear_arith)
        requires iq != ip, bpp >= 0;
}

proof fn lemma_fill_pixel_shape(st: (ImageView, Seq<i64>), v: ImageView, t: TriangleArgs, qx: int, qy: int)
    requires
        shaped(st, v),
        v.in_bounds(qx, qy),
    ensures
        shaped(fill_pixel(st, t, qx, qy), v),
{
    lemma_pixel_fits(st.0, qx, qy);
}

proof fn lemma_fill_pixel_other(st: (ImageView, Seq<i64>), v: ImageView, t: TriangleArgs, qx: int, qy: int, px: int, py: int)
    requires
        shaped(st, v),
        v.in_bounds(px, py),
        v.in_bounds(qx, qy),
        qx != px || qy != py,
    ensures
        pixel_state(fill_pixel(st, t, qx, qy), px, py) == pixel_state(st, px, py),
{
    lemma_disjoint_pixels(st.0, qx, qy, px, py);
    lemma_pixel_fits(st.0, px, py);
    lemma_pixel_fits(st.0, qx, qy);
    let n = fill_pixel(st, t, qx, qy);
    let o = st.0.offset(px, py);
    assert(n.0.data.subrange(o, o + st.0.bytespp) =~= st.0.data.subrange(o, o + st.0.bytespp));
}

proof fn lemma_fill_pixel_same(st: (ImageView, Seq<i64>), v: ImageView, t: TriangleArgs, px: int, py: int)
    requires
        shaped(st, v),
        v.in_bounds(px, py),
    ensures
        pixel_state(fill_pixel(st, t, px, py), px, py) == pixel_step(pixel_state(st, px, py), t, px, py, v.bytespp),
{
    lemma_pixel_fits(st.0, px, py);
    let n = fill_pixel(st, t, px, py);
    let o = st.0.offset(px, py);
    let w = weights(t.a, t.b, t.c, px, py);
    if inside(t.a, t.b, t.c, px, py) && depth_at(t, px, py) > st.1[px + py * st.0.width] {
        assert(n.0.data.subrange(o, o + st.0.bytespp) =~= shade(t, w).subrange(0, st.0.bytespp as int));
    }
}

proof fn lemma_fill_column_pixel(st: (ImageView, Seq<i64>), v: ImageView, t: TriangleArgs, qx: int, y0: int, k: nat, px: int, py: int)
    requires
        shaped(st, v),
        v.in_bounds(px, py),
        0 <= qx < v.width,
        0 <= y0,
        k > 0 ==> y0 + k <= v.height,
    ensures
        shaped(fill_column(st, t, qx, y0, k), v),
        pixel_state(fill_column(st, t, qx, y0, k), px, py) == (if qx == px && y0 <= py < y0 + k {
            pixel_step(pixel_state(st, px, py), t, px, py, v.bytespp)
        } else {
            pixel_state(st, px, py)
        }),
    decreases k,
{
    if k > 0 {
        let k1 = (k - 1) as nat;
        lemma_fill_column_pixel(st, v, t, qx, y0, k1, px, py);
        let prev = fill_column(st, t, qx, y0, k1);
        lemma_fill_pixel_shape(prev, v, t, qx, y0 + k1);
        if qx == px && py == y0 + k1 {
            lemma_fill_pixel_same(prev, v, t, px, py);
        } else {
            lemma_fill_pixel_other(prev, v, t, qx, y0 + k1, px, py);
        }
    }
}

proof fn lemma_fill_box_pixel(st: (ImageView, Seq<i64>), v: ImageView, t: TriangleArgs, x0: int, y0: int, y1: int, k: nat, px: int, py: int)
    requires
        shaped(st, v),
        v.in_bounds(px, py),
        0 <= x0,
        k > 0 ==> x0 + k <= v.width,
        0 <= y0,
        y1 <= v.height,
    ensures
        shaped(fill_box(st, t, x0, y0, y1, k), v),
        pixel_state(fill_box(st, t, x0, y0, y1, k), px, py) == (if x0 <= px < x0 + k && y0 <= py < y1 {
            pixel_step(pixel_state(st, px, py), t, px, py, v.bytespp)
        } else {
            pixel_state(st, px, py)
        }),
    decreases k,
{
    if k > 0 {
        let k1 = (k - 1) as nat;
        lemma_fill_box_pixel(st, v, t, x0, y0, y1, k1, px, py);
        let prev = fill_box(st, t, x0, y0, y1, k1);
        lemma_fill_column_pixel(prev, v, t, x0 + k1, y0, span(y0, y1), px, py);
    }
}

/// A filled triangle changes a pixel only by that pixel's own depth test.
pub proof fn lemma_filled_pixel(v: ImageView, zb: Seq<i64>, t: TriangleArgs, px: int, py: int)
    requires
        v.wf(),
        zb.len() == v.width * v.height,
        v.in_bounds(px, py),
    ensures
        shaped(filled_triangle(v, zb, t), v),
        pixel_state(filled_triangle(v, zb, t), px, py) == (if covers(t, v, px, py) {
            pixel_step(pixel_state((v, zb), px, py), t, px, py, v.bytespp)
        } else {
            pixel_state((v, zb), px, py)
        }),
{
    let x0 = min3(t.a.x as int, t.b.x as int, t.c.x as int);
    let x1 = min2(max3(t.a.x as int, t.b.x as int, t.c.x as int) + 1, v.width as int);
    let y0 = min3(t.a.y as int, t.b.y as int, t.c.y as int);
    let y1 = min2(max3(t.a.y as int, t.b.y as int, t.c.y as int) + 1, v.height as int);
    lemma_fill_box_pixel((v, zb), v, t, x0, y0, y1, span(x0, x1), px, py);
}

proof fn lemma_depth_bounds(t: TriangleArgs, px: int, py: int)
    requires
        inside(t.a, t.b, t.c, px, py),
    ensures
        0 <= depth_at(t, px, py) <= u32::MAX,
{
    let w = weights(t.a, t.b, t.c, px, py);
    let (z0, z1, z2) = (t.a.z as int, t.b.z as int, t.c.z as int);
    let w0 = w.2 - w.0 - w.1;
    let num = z0 * w0 + z1 * w.0 + z2 * w.1;
    assert(0 <= num <= u32::MAX * w.2) by (nonlinear_arith)
        requires 0 <= z0 <= u32::MAX, 0 <= z1 <= u32::MAX, 0 <= z2 <= u32::MAX, w0 >= 0, w.0 >= 0, w.1 >= 0,
            w0 + w.0 + w.1 == w.2, num == z0 * w0 + z1 * w.0 + z2 * w.1;
    assert(0 <= num / w.2 <= u32::MAX) by (nonlinear_arith)
        requires 0 <= num <= u32::MAX * w.2, w.2 > 0;
}

/// Where two triangles both cover a pixel that nothing nearer has been drawn
/// to, the nearer one's color and depth are left there, whichever is drawn
/// first.
pub proof fn lemma_nearer_triangle_wins(v: ImageView, zb: Seq<i64>, near: TriangleArgs, far: TriangleArgs, px: int, py: int)
    requires
        v.wf(),
        zb.len() == v.width * v.height,
        v.in_bounds(px, py),
        covers(near, v, px, py),
        covers(far, v, px, py),
        depth_at(near, px, py) > depth_at(far, px, py),
        depth_at(far, px, py) > zb[px + py * v.width],
    ensures
        pixel_state(
            filled_triangle(filled_triangle(v, zb, near).0, filled_triangle(v, zb, near).1, far),
            px,
            py,
        ) == pixel_state(filled_triangle(filled_triangle(v, zb, far).0, filled_triangle(v, zb, far).1, near), px, py),
        pixel_state(
            filled_triangle(filled_triangle(v, zb, near).0, filled_triangle(v, zb, near).1, far),
            px,
            py,
        ) == (
            shade(near, weights(near.a, near.b, near.c, px, py)).subrange(0, v.bytespp as int),
            depth_at(near, px, py) as i64,
        ),
{
    lemma_depth_bounds(near, px, py);
    lemma_depth_bounds(far, px, py);
    let s1 = filled_triangle(v, zb, near);
    lemma_filled_pixel(v, zb, near, px, py);
    assert(covers(far, s1.0, px, py));
    lemma_filled_pixel(s1.0, s1.1, far, px, py);
    let s2 = filled_triangle(v, zb, far);
    lemma_filled_pixel(v, zb, far, px, py);
    assert(covers(near, s2.0, px, py));
    lemma_filled_pixel(s2.0, s2.1, near, px, py);
}

/// Pixels outside a triangle's bounding box keep their color and depth.
pub proof fn lemma_outside_box_untouched(v: ImageView, zb: Seq<i64>, t: TriangleArgs, px: int, py: int)
    requires
        v.wf(),
        zb.len() == v.width * v.height,
        v.in_bounds(px, py),
        !(min3(t.a.x as int, t.b.x as int, t.c.x as int) <= px <= max3(t.a.x as int, t.b.x as int, t.c.x as int)
            && min3(t.a.y as int, t.b.y as int, t.c.y as int) <= py <= max3(t.a.y as int, t.b.y as int, t.c.y as int)),
    ensures
        pixel_state(filled_triangle(v, zb, t), px, py) == pixel_state((v, zb), px, py),
{
    lemma_filled_pixel(v, zb, t, px, py);
}

/// Two depth tests at one pixel, at different depths, give the same result
/// in either order.
proof fn lemma_steps_commute(s: (Seq<u8>, i64), ta: TriangleArgs, tb: TriangleArgs, px: int, py: int, bpp: nat)
    requires
        inside(ta.a, ta.b, ta.c, px, py),
        inside(tb.a, tb.b, tb.c, px, py),
        depth_at(ta, px, py) != depth_at(tb, px, py),
    ensures
        pixel_step(pixel_step(s, ta, px, py, bpp), tb, px, py, bpp) == pixel_step(pixel_step(s, tb, px, py, bpp), ta, px, py, bpp),
{
    lemma_depth_bounds(ta, px, py);
    lemma_depth_bounds(tb, px, py);
}

proof fn lemma_fill_column_shape(st: (ImageView, Seq<i64>), v: ImageView, t: TriangleArgs, qx: int, y0: int, k: nat)
    requires
        shaped(st, v),
        0 <= qx < v.width,
        0 <= y0,
        k > 0 ==> y0 + k <= v.height,
    ensures
        shaped(fill_column(st, t, qx, y0, k), v),
    decreases k,
{
    if k > 0 {
        lemma_fill_column_shape(st, v, t, qx, y0, (k - 1) as nat);
        lemma_fill_pixel_shape(fill_column(st, t, qx, y0, (k - 1) as nat), v, t, qx, y0 + k - 1);
    }
}

proof fn lemma_fill_box_shape(st: (ImageView, Seq<i64>), v: ImageView, t: TriangleArgs, x0: int, y0: int, y1: int, k: nat)
    requires
        shaped(st, v),
        0 <= x0,
        k > 0 ==> x0 + k <= v.width,
        0 <= y0,
        y1 <= v.height,
    ensures
        shaped(fill_box(st, t, x0, y0, y1, k), v),
    decreases k,
{
    if k > 0 {
        lemma_fill_box_shape(st, v, t, x0, y0, y1, (k - 1) as nat);
        lemma_fill_column_shape(fill_box(st, t, x0, y0, y1, (k - 1) as nat), v, t, x0 + k - 1, y0, span(y0, y1));
    }
}

/// A fill keeps the shape of the image and the depth buffer.
proof fn lemma_filled_shape(u: ImageView, zb: Seq<i64>, t: TriangleArgs, v: ImageView)
    requires
        shaped((u, zb), v),
    ensures
        shaped(filled_triangle(u, zb, t), v),
{
    let x0 = min3(t.a.x as int, t.b.x as int, t.c.x as int);
    let x1 = min2(max3(t.a.x as int, t.b.x as int, t.c.x as int) + 1, u.width as int);
    let y0 = min3(t.a.y as int, t.b.y as int, t.c.y as int);
    let y1 = min2(max3(t.a.y as int, t.b.y as int, t.c.y as int) + 1, u.height as int);
    lemma_fill_box_shape((u, zb), v, t, x0, y0, y1, span(x0, x1));
}

/// Two fill states of one shape that agree at every pixel are equal.
proof fn lemma_states_equal(s1: (ImageView, Seq<i64>), s2: (ImageView, Seq<i64>), v: ImageView)
    requires
        shaped(s1, v),
        shaped(s2, v),
        forall|px: int, py: int| v.in_bounds(px, py) ==> #[trigger] pixel_state(s1, px, py) == pixel_state(s2, px, py),
    ensures
        s1 == s2,
{
    let w = v.width as int;
    let h = v.height as int;
    let bpp = v.bytespp as int;
    assert forall|i: int| 0 <= i < s1.1.len() implies s1.1[i] == s2.1[i] by {
        assert(i < h * w && w > 0) by (nonlinear_arith)
            requires 0 <= i < w * h, h >= 0;
        lemma_row_split(i, w, h);
        let (x, y) = (i % w, i / w);
        assert(pixel_state(s1, x, y) == pixel_state(s2, x, y));
        assert(x + y * w == i) by (nonlinear_arith)
            requires i == (i / w) * w + i % w, x == i % w, y == i / w;
    }
    assert(s1.1 =~= s2.1);
    assert forall|i: int| 0 <= i < s1.0.data.len() implies s1.0.data[i] == s2.0.data[i] by {
        assert(bpp > 0) by (nonlinear_arith)
            requires 0 <= i < w * h * bpp, w * h >= 0;
        lemma_row_split(i, bpp, w * h);
        let idx = i / bpp;
        let c = i % bpp;
        assert(idx < h * w && w > 0 && idx * bpp + bpp <= w * h * bpp) by (nonlinear_arith)
            requires 0 <= idx < w * h, h >= 0, bpp > 0;
        lemma_row_split(idx, w, h);
        let (x, y) = (idx % w, idx / w);
        assert(pixel_state(s1, x, y) == pixel_state(s2, x, y));
        assert(x + y * w == idx) by (nonlinear_arith)
            requires idx == (idx / w) * w + idx % w, x == idx % w, y == idx / w;
        assert(s1.0.offset(x, y) == idx * bpp);
        assert(s1.0.data.subrange(idx * bpp, idx * bpp + bpp)[c] == s1.0.data[i]);
        assert(s2.0.data.subrange(idx * bpp, idx * bpp + bpp)[c] == s2.0.data[i]);
    }
    assert(s1.0.data =~= s2.0.data);
}

/// Filling two triangles whose depths differ wherever both cover a pixel
/// leaves the same image and depth buffer in either order.
pub proof fn lemma_fill_order_independent(v: ImageView, zb: Seq<i64>, ta: TriangleArgs, tb: TriangleArgs)
    requires
        v.wf(),
        zb.len() == v.width * v.height,
        forall|px: int, py: int|
            v.in_bounds(px, py) && covers(ta, v, px, py) && covers(tb, v, px, py) ==> #[trigger] depth_at(ta, px, py)
                != depth_at(tb, px, py),
    ensures
        filled_triangle(filled_triangle(v, zb, ta).0, filled_triangle(v, zb, ta).1, tb) == filled_triangle(
            filled_triangle(v, zb, tb).0,
            filled_triangle(v, zb, tb).1,
            ta,
        ),
{
    let sa = filled_triangle(v, zb, ta);
    let sb = filled_triangle(v, zb, tb);
    let sab = filled_triangle(sa.0, sa.1, tb);
    let sba = filled_triangle(sb.0, sb.1, ta);
    assert forall|px: int, py: int| v.in_bounds(px, py) implies #[trigger] pixel_state(sab, px, py) == pixel_state(sba, px, py) by {
        lemma_filled_pixel(v, zb, ta, px, py);
        lemma_filled_pixel(v, zb, tb, px, py);
        lemma_filled_pixel(sa.0, sa.1, tb, px, py);
        lemma_filled_pixel(sb.0, sb.1, ta, px, py);
        assert(covers(tb, sa.0, px, py) == covers(tb, v, px, py));
        assert(covers(ta, sb.0, px, py) == covers(ta, v, px, py));
        if covers(ta, v, px, py) && covers(tb, v, px, py) {
            assert(depth_at(ta, px, py) != depth_at(tb, px, py));
            lemma_steps_commute(pixel_state((v, zb), px, py), ta, tb, px, py, v.bytespp);
        }
    }
    lemma_filled_shape(v, zb, ta, v);
    lemma_filled_shape(v, zb, tb, v);
    lemma_filled_shape(sa.0, sa.1, tb, v);
    lemma_filled_shape(sb.0, sb.1, ta, v);
    lemma_states_equal(sab, sba, v);
}

} // verus!
