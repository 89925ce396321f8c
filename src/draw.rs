//! Raster primitives on a row-major `width * height` buffer of `0x00RRGGBB`
//! pixels. Every write outside the viewport is dropped.

use vstd::prelude::*;
use vstd::arithmetic::div_mod::lemma_fundamental_div_mod_converse;

verus! {

/// The background colour.
pub const BG: u32 = 0x000000;

/// A pixel coordinate lies inside a `w * h` viewport.
pub open spec fn in_view(w: int, h: int, x: int, y: int) -> bool {
    0 <= x < w && 0 <= y < h
}

/// The coordinate that buffer slot `i` stands for.
pub open spec fn slot_point(w: int, i: int) -> (int, int) {
    (i % w, i / w)
}

/// `buf` after writing `c` at every in-view point of `pts`; every other slot
/// keeps its value.
pub open spec fn paint(buf: Seq<u32>, w: int, pts: Set<(int, int)>, c: u32) -> Seq<u32> {
    Seq::new(buf.len(), |i: int| if pts.contains(slot_point(w, i)) { c } else { buf[i] })
}

/// `buf` after a single pixel write at `(x, y)`.
pub open spec fn put_px_spec(buf: Seq<u32>, w: int, h: int, x: int, y: int, c: u32) -> Seq<u32> {
    if in_view(w, h, x, y) {
        buf.update(y * w + x, c)
    } else {
        buf
    }
}

/// Packs three 8-bit channels as `0x00RRGGBB`.
pub fn rgb(r: u8, g: u8, b: u8) -> (c: u32)
    ensures
        c as int == r as int * 65536 + g as int * 256 + b as int,
{
    let c = ((r as u32) << 16u32) | ((g as u32) << 8u32) | (b as u32);
    assert(c == (r as u32) * 65536 + (g as u32) * 256 + (b as u32)) by (bit_vector)
        requires
            r <= 255,
            g <= 255,
            b <= 255,
            c == ((r as u32) << 16u32) | ((g as u32) << 8u32) | (b as u32),
    ;
    c
}

/// An in-view point has a slot inside the buffer.
proof fn lemma_point_slot_bound(w: int, h: int, x: int, y: int)
    requires
        in_view(w, h, x, y),
    ensures
        0 <= y * w + x < w * h,
{
    assert(0 <= y * w + x < w * h) by (nonlinear_arith)
        requires
            0 <= x < w,
            0 <= y < h,
    ;
}

/// Every buffer slot stands for an in-view point.
proof fn lemma_slot_in_view(w: int, h: int, i: int)
    requires
        w >= 0,
        h >= 0,
        0 <= i < w * h,
    ensures
        in_view(w, h, slot_point(w, i).0, slot_point(w, i).1),
        i == slot_point(w, i).1 * w + slot_point(w, i).0,
{
    assert(w > 0) by (nonlinear_arith)
        requires
            0 <= i < w * h,
            w >= 0,
            h >= 0,
    ;
    vstd::arithmetic::div_mod::lemma_fundamental_div_mod(i, w);
    vstd::arithmetic::div_mod::lemma_mod_pos_bound(i, w);
    vstd::arithmetic::div_mod::lemma_div_pos_is_pos(i, w);
    let q = i / w;
    let r = i % w;
    assert(i == q * w + r) by (nonlinear_arith)
        requires
            i == w * q + r,
    ;
    assert(q < h) by (nonlinear_arith)
        requires
            i == q * w + r,
            0 <= r,
            i < w * h,
            w > 0,
    ;
}

/// Slot `y * w + x` of an in-view point stands for that point, and no other
/// slot does.
proof fn lemma_slot_of_point(w: int, h: int, x: int, y: int, i: int)
    requires
        h >= 0,
        in_view(w, h, x, y),
        0 <= i < w * h,
    ensures
        (slot_point(w, i) == (x, y)) == (i == y * w + x),
{
    lemma_point_slot_bound(w, h, x, y);
    lemma_slot_in_view(w, h, i);
    if i == y * w + x {
        lemma_fundamental_div_mod_converse(i, w, y, x);
    }
}

/// Painting one more point is a single pixel write on top.
pub(crate) proof fn lemma_paint_insert(buf: Seq<u32>, w: int, h: int, pts: Set<(int, int)>, x: int, y: int, c: u32)
    requires
        w >= 0,
        h >= 0,
        buf.len() == w * h,
    ensures
        put_px_spec(paint(buf, w, pts, c), w, h, x, y, c) == paint(buf, w, pts.insert((x, y)), c),
{
    let before = paint(buf, w, pts, c);
    let after = paint(buf, w, pts.insert((x, y)), c);
    let lhs = put_px_spec(before, w, h, x, y, c);
    assert forall|i: int| 0 <= i < buf.len() implies lhs[i] == after[i] by {
        lemma_slot_in_view(w, h, i);
        let sp = slot_point(w, i);
        if in_view(w, h, x, y) {
            lemma_slot_of_point(w, h, x, y, i);
            lemma_point_slot_bound(w, h, x, y);
            assert(lhs[i] == if i == y * w + x { c } else { before[i] });
        } else {
            assert(sp != (x, y));
            assert(lhs[i] == before[i]);
        }
    }
    if in_view(w, h, x, y) {
        lemma_point_slot_bound(w, h, x, y);
    }
    assert(lhs.len() == buf.len());
    assert(lhs =~= after);
}

/// A pushed sequence holds what it held before and the new element.
proof fn lemma_push_to_set<T>(s: Seq<T>, v: T)
    ensures
        s.push(v).to_set() == s.to_set().insert(v),
{
    assert forall|q: T| #[trigger] s.push(v).to_set().contains(q) == s.to_set().insert(v).contains(q) by {
        if q == v {
            assert(s.push(v)[s.len() as int] == v);
        }
        if s.push(v).contains(q) && q != v {
            let k = choose|k: int| 0 <= k < s.len() + 1 && s.push(v)[k] == q;
            assert(s[k] == q);
        }
        if s.contains(q) {
            let k = choose|k: int| 0 <= k < s.len() && s[k] == q;
            assert(s.push(v)[k] == q);
        }
    }
    assert(s.push(v).to_set() =~= s.to_set().insert(v));
}

/// Writes `c` at `(x, y)` when the point lies inside the `w * h` viewport.
pub(crate) fn plot(buf: &mut [u32], w: usize, h: usize, x: i64, y: i64, c: u32)
    requires
        old(buf)@.len() == w * h,
    ensures
        final(buf)@ == put_px_spec(old(buf)@, w as int, h as int, x as int, y as int, c),
{
    if x >= 0 && y >= 0 && (x as u64) < (w as u64) && (y as u64) < (h as u64) {
        let xu = x as usize;
        let yu = y as usize;
        proof {
            lemma_point_slot_bound(w as int, h as int, x as int, y as int);
        }
        let n = buf.len();
        buf[yu * w + xu] = c;
    }
}

/// Writes `c` at `(x, y)` when the point lies inside the `w * h` viewport;
/// anything else is silently dropped.
pub fn put_px(buf: &mut [u32], w: usize, h: usize, x: i32, y: i32, c: u32)
    requires
        old(buf)@.len() == w * h,
    ensures
        final(buf)@ == put_px_spec(old(buf)@, w as int, h as int, x as int, y as int, c),
{
    plot(buf, w, h, x as i64, y as i64, c);
}

/// The absolute value of `v`.
pub open spec fn abs_int(v: int) -> int {
    if v < 0 { -v } else { v }
}

/// `1` when stepping from `a` toward `b` increases the coordinate, else `-1`.
pub open spec fn step_toward(a: int, b: int) -> int {
    if a < b { 1 } else { -1 }
}

/// The points visited by the error-accumulation line walk from `(x, y)` with
/// error term `err` toward `(x1, y1)`, given the walk's constants
/// `dx = |x1 - x0|`, `dy = -|y1 - y0|` and the step signs; `fuel` bounds the
/// number of points.
pub open spec fn line_walk(
    x: int,
    y: int,
    err: int,
    x1: int,
    y1: int,
    dx: int,
    dy: int,
    sx: int,
    sy: int,
    fuel: nat,
) -> Seq<(int, int)>
    decreases fuel,
{
    if fuel == 0 {
        Seq::empty()
    } else if x == x1 && y == y1 {
        seq![(x, y)]
    } else {
        let e2 = 2 * err;
        let err_x = if e2 >= dy { err + dy } else { err };
        let nx = if e2 >= dy { x + sx } else { x };
        let err_y = if e2 <= dx { err_x + dx } else { err_x };
        let ny = if e2 <= dx { y + sy } else { y };
        seq![(x, y)] + line_walk(nx, ny, err_y, x1, y1, dx, dy, sx, sy, (fuel - 1) as nat)
    }
}

/// The pixels of the line from `(x0, y0)` to `(x1, y1)`, in drawing order.
pub open spec fn line_points(x0: int, y0: int, x1: int, y1: int) -> Seq<(int, int)> {
    let dx = abs_int(x1 - x0);
    let dy = -abs_int(y1 - y0);
    line_walk(x0, y0, dx + dy, x1, y1, dx, dy, step_toward(x0, x1), step_toward(y0, y1), (dx - dy + 1) as nat)
}

/// The error term after `a` horizontal and `b` vertical steps decides the
/// next step so that the walk never passes either end coordinate.
proof fn lemma_walk_step(dx: int, ady: int, a: int, b: int, err: int)
    requires
        0 <= a <= dx,
        0 <= b <= ady,
        err == dx * (b + 1) - ady * (a + 1),
        a < dx || b < ady,
    ensures
        a == dx ==> 2 * err < -ady,
        b == ady ==> 2 * err > dx,
        2 * err >= -ady || 2 * err <= dx,
{
    if a == dx {
        assert(2 * err < -ady) by (nonlinear_arith)
            requires
                a == dx,
                b < ady,
                0 <= b,
                err == dx * (b + 1) - ady * (a + 1),
                dx >= 0,
        ;
    }
    if b == ady {
        assert(2 * err > dx) by (nonlinear_arith)
            requires
                b == ady,
                a < dx,
                0 <= a,
                err == dx * (b + 1) - ady * (a + 1),
                ady >= 0,
        ;
    }
}

/// From any state of the walk that has taken `a` horizontal and `b`
/// vertical steps, the rest of the walk ends at `(x1, y1)`.
proof fn lemma_walk_reaches_end(
    x0: int,
    y0: int,
    x1: int,
    y1: int,
    a: int,
    b: int,
    fuel: nat,
)
    requires
        0 <= a <= abs_int(x1 - x0),
        0 <= b <= abs_int(y1 - y0),
        fuel >= 1 + (abs_int(x1 - x0) - a) + (abs_int(y1 - y0) - b),
    ensures
        ({
            let dx = abs_int(x1 - x0);
            let ady = abs_int(y1 - y0);
            let sx = step_toward(x0, x1);
            let sy = step_toward(y0, y1);
            let wk = line_walk(x0 + sx * a, y0 + sy * b, dx * (b + 1) - ady * (a + 1), x1, y1, dx, -ady, sx, sy, fuel);
            wk.len() >= 1 && wk[0] == (x0 + sx * a, y0 + sy * b) && wk.last() == (x1, y1)
        }),
    decreases fuel,
{
    let dx = abs_int(x1 - x0);
    let ady = abs_int(y1 - y0);
    let sx = step_toward(x0, x1);
    let sy = step_toward(y0, y1);
    let x = x0 + sx * a;
    let y = y0 + sy * b;
    let err = dx * (b + 1) - ady * (a + 1);
    assert(x1 == x0 + sx * dx && y1 == y0 + sy * ady);
    if x == x1 && y == y1 {
        return;
    }
    assert(a < dx || b < ady) by (nonlinear_arith)
        requires
            x == x0 + sx * a,
            y == y0 + sy * b,
            x1 == x0 + sx * dx,
            y1 == y0 + sy * ady,
            !(x == x1 && y == y1),
            a <= dx,
            b <= ady,
    ;
    lemma_walk_step(dx, ady, a, b, err);
    let e2 = 2 * err;
    let na = if e2 >= -ady { a + 1 } else { a };
    let nb = if e2 <= dx { b + 1 } else { b };
    lemma_walk_reaches_end(x0, y0, x1, y1, na, nb, (fuel - 1) as nat);
    assert(x0 + sx * na == (if e2 >= -ady { x + sx } else { x })) by (nonlinear_arith)
        requires
            x == x0 + sx * a,
            na == (if e2 >= -ady { a + 1 } else { a }),
    ;
    assert(y0 + sy * nb == (if e2 <= dx { y + sy } else { y })) by (nonlinear_arith)
        requires
            y == y0 + sy * b,
            nb == (if e2 <= dx { b + 1 } else { b }),
    ;
    assert(dx * (nb + 1) - ady * (na + 1) == err + (if e2 >= -ady { -ady } else { 0 }) + (if e2 <= dx { dx } else { 0 })) by (nonlinear_arith)
        requires
            err == dx * (b + 1) - ady * (a + 1),
            na == (if e2 >= -ady { a + 1 } else { a }),
            nb == (if e2 <= dx { b + 1 } else { b }),
    ;
}

/// A line always starts at its first endpoint and ends at its second.
pub proof fn lemma_line_endpoints(x0: int, y0: int, x1: int, y1: int)
    ensures
        line_points(x0, y0, x1, y1).len() >= 1,
        line_points(x0, y0, x1, y1)[0] == (x0, y0),
        line_points(x0, y0, x1, y1).last() == (x1, y1),
{
    let dx = abs_int(x1 - x0);
    let ady = abs_int(y1 - y0);
    lemma_walk_reaches_end(x0, y0, x1, y1, 0, 0, (dx + ady + 1) as nat);
    assert(dx * (0 + 1) - ady * (0 + 1) == dx + -ady);
}

/// The error term stays far inside the range of `i128`.
proof fn lemma_err_bound(dx: int, ady: int, a: int, b: int, err: int)
    requires
        0 <= a <= dx < 0x1_0000_0000,
        0 <= b <= ady < 0x1_0000_0000,
        err == dx * (b + 1) - ady * (a + 1),
    ensures
        -0x1_0000_0000_0000_0000_0000 < err < 0x1_0000_0000_0000_0000_0000,
{
    assert(0 <= dx * (b + 1) <= dx * (ady + 1)) by (nonlinear_arith)
        requires
            0 <= b <= ady,
            0 <= dx,
    ;
    assert(0 <= ady * (a + 1) <= ady * (dx + 1)) by (nonlinear_arith)
        requires
            0 <= a <= dx,
            0 <= ady,
    ;
    assert(dx * (ady + 1) <= 0x1_0000_0000 * 0x1_0000_0000) by (nonlinear_arith)
        requires
            0 <= dx < 0x1_0000_0000,
            0 <= ady < 0x1_0000_0000,
    ;
    assert(ady * (dx + 1) <= 0x1_0000_0000 * 0x1_0000_0000) by (nonlinear_arith)
        requires
            0 <= dx < 0x1_0000_0000,
            0 <= ady < 0x1_0000_0000,
    ;
}

/// Draws the line from `(x0, y0)` to `(x1, y1)` with integer error
/// accumulation, both ends included; pixels outside the viewport are dropped.
pub fn draw_line(buf: &mut [u32], w: usize, h: usize, x0: i32, y0: i32, x1: i32, y1: i32, color: u32)
    requires
        old(buf)@.len() == w * h,
    ensures
        final(buf)@ == paint(old(buf)@, w as int, line_points(x0 as int, y0 as int, x1 as int, y1 as int).to_set(), color),
{
    let dx: i128 = if x1 >= x0 { x1 as i128 - x0 as i128 } else { x0 as i128 - x1 as i128 };
    let ady: i128 = if y1 >= y0 { y1 as i128 - y0 as i128 } else { y0 as i128 - y1 as i128 };
    let dy: i128 = -ady;
    let sx: i32 = if x0 < x1 { 1 } else { -1 };
    let sy: i32 = if y0 < y1 { 1 } else { -1 };
    let mut err: i128 = dx + dy;
    let mut x: i32 = x0;
    let mut y: i32 = y0;
    let ghost mut a: int = 0;
    let ghost mut b: int = 0;
    let ghost mut done: Seq<(int, int)> = Seq::empty();
    let ghost full = line_points(x0 as int, y0 as int, x1 as int, y1 as int);
    let ghost fuel = (dx - dy + 1) as nat;
    let ghost start = old(buf)@;
    assert(done + full =~= full);
    assert(done.to_set() =~= Set::empty());
    assert(paint(start, w as int, Set::empty(), color) =~= start);
    assert(err == dx * (0 + 1) - ady * (0 + 1));
    loop
        invariant_except_break
            done.len() <= a + b,
            done + line_walk(x as int, y as int, err as int, x1 as int, y1 as int, dx as int, dy as int,
                sx as int, sy as int, (fuel - done.len()) as nat) == full,
        invariant
            start.len() == w * h,
            buf@ == paint(start, w as int, done.to_set(), color),
            0 <= a <= dx,
            0 <= b <= ady,
            dx == abs_int(x1 - x0),
            ady == abs_int(y1 - y0),
            dy == -ady,
            sx == step_toward(x0 as int, x1 as int),
            sy == step_toward(y0 as int, y1 as int),
            x == x0 + sx * a,
            y == y0 + sy * b,
            x1 == x0 + sx * dx,
            y1 == y0 + sy * ady,
            err == dx * (b + 1) - ady * (a + 1),
            fuel == dx + ady + 1,
        ensures
            done == full,
        decreases (dx - a) + (ady - b),
    {
        proof {
            lemma_paint_insert(start, w as int, h as int, done.to_set(), x as int, y as int, color);
            lemma_push_to_set(done, (x as int, y as int));
        }
        put_px(buf, w, h, x, y, color);
        let ghost rest = (fuel - done.len()) as nat;
        proof {
            done = done.push((x as int, y as int));
        }
        if x == x1 && y == y1 {
            proof {
                assert(line_walk(x as int, y as int, err as int, x1 as int, y1 as int, dx as int, dy as int,
                    sx as int, sy as int, rest) == seq![(x as int, y as int)]);
                assert(done =~= full);
            }
            break;
        }
        proof {
            assert(a < dx || b < ady) by (nonlinear_arith)
                requires
                    x == x0 + sx * a,
                    y == y0 + sy * b,
                    x1 == x0 + sx * dx,
                    y1 == y0 + sy * ady,
                    !(x == x1 && y == y1),
                    a <= dx,
                    b <= ady,
            ;
            lemma_walk_step(dx as int, ady as int, a, b, err as int);
            lemma_err_bound(dx as int, ady as int, a, b, err as int);
        }
        let ghost old_err = err as int;
        let ghost old_x = x as int;
        let ghost old_y = y as int;
        let e2 = 2 * err;
        if e2 >= dy {
            err = err + dy;
            x = x + sx;
            proof {
                a = a + 1;
            }
        }
        if e2 <= dx {
            err = err + dx;
            y = y + sy;
            proof {
                b = b + 1;
            }
        }
        proof {
            let tail = line_walk(x as int, y as int, err as int, x1 as int, y1 as int, dx as int, dy as int,
                sx as int, sy as int, (fuel - done.len()) as nat);
            assert(line_walk(old_x, old_y, old_err, x1 as int, y1 as int, dx as int, dy as int,
                sx as int, sy as int, rest) == seq![(old_x, old_y)] + tail);
            assert(done.drop_last() + (seq![(old_x, old_y)] + tail) == done + tail);
            assert(err == dx * (b + 1) - ady * (a + 1)) by (nonlinear_arith)
                requires
                    old_err == dx * ((if e2 <= dx { b - 1 } else { b }) + 1) - ady * ((if e2 >= dy { a - 1 } else { a }) + 1),
                    err == old_err + (if e2 >= dy { dy } else { 0 }) + (if e2 <= dx { dx } else { 0 }),
                    dy == -ady,
            ;
        }
    }
}

/// The integer points of the filled disc of radius `r` around `(cx, cy)`;
/// empty when `r <= 0`.
pub open spec fn disc_points(cx: int, cy: int, r: int) -> Set<(int, int)> {
    Set::new(|p: (int, int)| r > 0 && (p.0 - cx) * (p.0 - cx) + (p.1 - cy) * (p.1 - cy) <= r * r)
}

/// The part of the disc drawn before reaching column `col` of row `row`.
spec fn disc_prefix(cx: int, cy: int, r: int, row: int, col: int) -> Set<(int, int)> {
    Set::new(
        |p: (int, int)|
            disc_points(cx, cy, r).contains(p) && (p.1 < row || (p.1 == row && p.0 < col)),
    )
}

/// Every point of the disc lies in its bounding square.
proof fn lemma_disc_bounds(cx: int, cy: int, r: int, p: (int, int))
    requires
        disc_points(cx, cy, r).contains(p),
    ensures
        cx - r <= p.0 <= cx + r,
        cy - r <= p.1 <= cy + r,
{
    let u = p.0 - cx;
    let v = p.1 - cy;
    assert(-r <= u <= r && -r <= v <= r) by (nonlinear_arith)
        requires
            r > 0,
            u * u + v * v <= r * r,
    {
        assert(u * u >= 0 && v * v >= 0);
        if u > r || u < -r {
            assert(u * u > r * r);
        }
        if v > r || v < -r {
            assert(v * v > r * r);
        }
    }
}

/// With `s*s <= rem < (s+1)*(s+1)`, `v*v <= rem` holds exactly for `|v| <= s`.
proof fn lemma_span(s: int, rem: int, v: int)
    requires
        0 <= s,
        s * s <= rem < (s + 1) * (s + 1),
    ensures
        (v * v <= rem) == (-s <= v <= s),
{
    if -s <= v <= s {
        assert(v * v <= s * s) by (nonlinear_arith)
            requires
                -s <= v <= s,
        ;
    } else {
        assert(v * v >= (s + 1) * (s + 1)) by (nonlinear_arith)
            requires
                v < -s || v > s,
                0 <= s,
        ;
    }
}

/// Fills every pixel `(x, y)` with `(x-cx)^2 + (y-cy)^2 <= r^2`; nothing when
/// `r <= 0`; pixels outside the viewport are dropped.
pub fn draw_disc(buf: &mut [u32], w: usize, h: usize, cx: i32, cy: i32, r: i32, color: u32)
    requires
        old(buf)@.len() == w * h,
    ensures
        final(buf)@ == paint(old(buf)@, w as int, disc_points(cx as int, cy as int, r as int), color),
{
    let ghost start = old(buf)@;
    let ghost disc = disc_points(cx as int, cy as int, r as int);
    if r <= 0 {
        assert(paint(start, w as int, disc, color) =~= start);
        return;
    }
    let rr: i64 = r as i64;
    assert(rr * rr <= 0x4000_0000_0000_0000) by (nonlinear_arith)
        requires
            0 < rr <= 0x7fff_ffff,
    ;
    let r2: i64 = rr * rr;
    let mut dy: i64 = -rr;
    assert(r2 <= 0x4000_0000_0000_0000) by (nonlinear_arith)
        requires
            0 < rr <= 0x7fff_ffff,
            r2 == rr * rr,
    ;
    assert(disc_prefix(cx as int, cy as int, r as int, cy - rr, cx - rr) =~= Set::empty()) by {
        assert forall|p: (int, int)| disc.contains(p) implies p.1 >= cy - rr && p.0 >= cx - rr by {
            lemma_disc_bounds(cx as int, cy as int, r as int, p);
        }
    }
    assert(paint(start, w as int, Set::empty(), color) =~= start);
    while dy <= rr
        invariant
            start.len() == w * h,
            rr == r,
            r2 == rr * rr,
            0 < rr <= 0x7fff_ffff,
            r2 <= 0x4000_0000_0000_0000,
            disc == disc_points(cx as int, cy as int, r as int),
            -rr <= dy <= rr + 1,
            buf@ == paint(start, w as int, disc_prefix(cx as int, cy as int, r as int, cy + dy, cx - rr), color),
        decreases rr + 1 - dy,
    {
        assert(0 <= dy * dy <= r2) by (nonlinear_arith)
            requires
                -rr <= dy <= rr,
                r2 == rr * rr,
        ;
        let rem: i64 = r2 - dy * dy;
        assert(0 <= rem) by (nonlinear_arith)
            requires
                -rr <= dy <= rr,
                rem == rr * rr - dy * dy,
        ;
        let mut span: i64 = rr;
        assert((span + 1) * (span + 1) > rem) by (nonlinear_arith)
            requires
                span == rr,
                rr > 0,
                rem == rr * rr - dy * dy,
        ;
        loop
            invariant
                0 <= rem <= r2,
                r2 == rr * rr,
                rem == rr * rr - dy * dy,
                0 <= span <= rr <= 0x7fff_ffff,
                (span + 1) * (span + 1) > rem,
            ensures
                span * span <= rem,
            decreases span,
        {
            assert(span * span <= 0x4000_0000_0000_0000) by (nonlinear_arith)
                requires
                    0 <= span <= 0x7fff_ffff,
            ;
            if span * span <= rem {
                break;
            }
            assert(span > 0) by (nonlinear_arith)
                requires
                    span * span > rem,
                    rem >= 0,
                    span >= 0,
            ;
            span = span - 1;
        }
        let row: i64 = cy as i64 + dy;
        let mut dx: i64 = -span;
        assert(disc_prefix(cx as int, cy as int, r as int, row as int, cx - rr)
            =~= disc_prefix(cx as int, cy as int, r as int, row as int, cx - span)) by {
            assert forall|p: (int, int)| disc.contains(p) && p.1 == row implies p.0 >= cx - span by {
                assert(p.1 - cy == dy);
                assert((p.1 - cy) * (p.1 - cy) == dy * dy);
                assert(r * r == r2);
                assert((p.0 - cx) * (p.0 - cx) <= rem);
                lemma_span(span as int, rem as int, p.0 - cx);
            }
        }
        while dx <= span
            invariant
                start.len() == w * h,
                rr == r,
                0 < rr <= 0x7fff_ffff,
                0 <= span <= rr,
                -span <= dx <= span + 1,
                row == cy + dy,
                -rr <= dy <= rr,
                span * span <= rem < (span + 1) * (span + 1),
                rem == rr * rr - dy * dy,
                buf@ == paint(start, w as int, disc_prefix(cx as int, cy as int, r as int, row as int, cx + dx), color),
            decreases span + 1 - dx,
        {
            let ghost before = disc_prefix(cx as int, cy as int, r as int, row as int, cx + dx);
            proof {
                lemma_paint_insert(start, w as int, h as int, before, cx + dx, row as int, color);
                lemma_span(span as int, rem as int, dx as int);
                assert(before.insert((cx + dx, row as int)) =~= disc_prefix(cx as int, cy as int, r as int, row as int, cx + dx + 1));
            }
            plot(buf, w, h, cx as i64 + dx, row, color);
            dx = dx + 1;
        }
        proof {
            assert(disc_prefix(cx as int, cy as int, r as int, row as int, cx + span + 1)
                =~= disc_prefix(cx as int, cy as int, r as int, row + 1, cx - rr)) by {
                assert forall|p: (int, int)| disc.contains(p) && p.1 == row implies p.0 < cx + span + 1 by {
                    assert(p.1 - cy == dy);
                    assert((p.1 - cy) * (p.1 - cy) == dy * dy);
                    assert(r * r == r2);
                    assert((p.0 - cx) * (p.0 - cx) <= rem);
                    lemma_span(span as int, rem as int, p.0 - cx);
                }
                assert forall|p: (int, int)| disc.contains(p) implies p.0 >= cx - rr by {
                    lemma_disc_bounds(cx as int, cy as int, r as int, p);
                }
            }
        }
        dy = dy + 1;
    }
    assert(disc_prefix(cx as int, cy as int, r as int, cy + rr + 1, cx - rr) =~= disc) by {
        assert forall|p: (int, int)| disc.contains(p) implies p.1 < cy + rr + 1 by {
            lemma_disc_bounds(cx as int, cy as int, r as int, p);
        }
    }
}

/// Painting two point sets one after the other in the same colour paints
/// their union.
pub(crate) proof fn lemma_paint_union(buf: Seq<u32>, w: int, a: Set<(int, int)>, b: Set<(int, int)>, c: u32)
    ensures
        paint(paint(buf, w, a, c), w, b, c) == paint(buf, w, a.union(b), c),
{
    assert(paint(paint(buf, w, a, c), w, b, c) =~= paint(buf, w, a.union(b), c));
}

/// Painting nothing leaves the buffer as it was.
pub(crate) proof fn lemma_paint_empty(buf: Seq<u32>, w: int, c: u32)
    ensures
        paint(buf, w, Set::empty(), c) == buf,
{
    assert(paint(buf, w, Set::empty(), c) =~= buf);
}

} // verus!
