//! The star field's random stream: a 32-bit xorshift generator and the
//! pairs of draws from which the viewer maps each star onto the unit sphere.

use vstd::prelude::*;
use crate::draw::{lemma_paint_empty, lemma_paint_insert, paint, plot};

verus! {

/// One step of the 13/17/5 xorshift generator on 32-bit state.
pub open spec fn xorshift(x: u32) -> u32 {
    let a = x ^ (x << 13u32);
    let b = a ^ (a >> 17u32);
    b ^ (b << 5u32)
}

/// Advances `seed` by one xorshift step and returns the new state.
pub fn rng(seed: &mut u32) -> (r: u32)
    ensures
        r == xorshift(*old(seed)),
        *final(seed) == r,
{
    let mut x = *seed;
    x ^= x << 13u32;
    x ^= x >> 17u32;
    x ^= x << 5u32;
    *seed = x;
    x
}

/// The state a star field starts from: the seed, with zero (a fixed point
/// of xorshift) replaced by one.
pub open spec fn start_state(seed: u32) -> u32 {
    if seed == 0 { 1 } else { seed }
}

/// `n` pairs of consecutive draws from the generator started at `state`.
pub open spec fn draw_pairs(state: u32, n: nat) -> Seq<(u32, u32)>
    decreases n,
{
    if n == 0 {
        Seq::empty()
    } else {
        let u = xorshift(state);
        let v = xorshift(u);
        seq![(u, v)] + draw_pairs(v, (n - 1) as nat)
    }
}

/// The raw draws behind a star field of `count` stars: one pair per star,
/// a function of `count` and `seed` alone.
pub fn star_samples(count: usize, seed: u32) -> (r: Vec<(u32, u32)>)
    ensures
        r@ == draw_pairs(start_state(seed), count as nat),
{
    let mut s: u32 = if seed < 1 { 1 } else { seed };
    let mut out: Vec<(u32, u32)> = Vec::with_capacity(count);
    let mut i: usize = 0;
    assert(out@ + draw_pairs(s, count as nat) =~= draw_pairs(start_state(seed), count as nat));
    while i < count
        invariant
            i <= count,
            out@ + draw_pairs(s, (count - i) as nat) == draw_pairs(start_state(seed), count as nat),
        decreases count - i,
    {
        let ghost before = out@;
        let ghost s0 = s;
        let u = rng(&mut s);
        let v = rng(&mut s);
        out.push((u, v));
        i = i + 1;
        proof {
            assert(draw_pairs(s0, (count - i + 1) as nat) == seq![(u, v)] + draw_pairs(s, (count - i) as nat));
            assert(out@ + draw_pairs(s, (count - i) as nat) =~= before + (seq![(u, v)] + draw_pairs(
                s,
                (count - i) as nat,
            )));
        }
    }
    assert(out@ =~= out@ + draw_pairs(s, 0));
    out
}

proof fn lemma_draw_pairs_len(state: u32, n: nat)
    ensures
        draw_pairs(state, n).len() == n,
    decreases n,
{
    if n > 0 {
        lemma_draw_pairs_len(xorshift(xorshift(state)), (n - 1) as nat);
    }
}

/// Star fields drawn from the same seed agree: the draws for `n` stars are
/// the first `n` of the draws for any `m >= n` stars, so the same seed and
/// count always give the identical sequence.
pub proof fn lemma_star_draws_deterministic(state: u32, n: nat, m: nat)
    requires
        n <= m,
    ensures
        draw_pairs(state, m).take(n as int) == draw_pairs(state, n),
    decreases n,
{
    if n == 0 {
        assert(draw_pairs(state, m).take(0) =~= Seq::<(u32, u32)>::empty());
    } else {
        let u = xorshift(state);
        let v = xorshift(u);
        lemma_star_draws_deterministic(v, (n - 1) as nat, (m - 1) as nat);
        lemma_draw_pairs_len(v, (m - 1) as nat);
        assert(draw_pairs(state, m) == seq![(u, v)] + draw_pairs(v, (m - 1) as nat));
        assert(draw_pairs(state, n) == seq![(u, v)] + draw_pairs(v, (n - 1) as nat));
        assert(draw_pairs(state, m).take(n as int) =~= seq![(u, v)] + draw_pairs(v, (m - 1) as nat).take(
            n - 1,
        ));
    }
}

/// The five pixels of a star: its centre and the four next to it.
pub open spec fn star_marker_points(x: int, y: int) -> Set<(int, int)> {
    set![(x, y), (x + 1, y), (x - 1, y), (x, y + 1), (x, y - 1)]
}

/// Draws a star as a small plus sign centred on `(x, y)`.
pub fn draw_star_marker(buf: &mut [u32], w: usize, h: usize, x: i32, y: i32, c: u32)
    requires
        old(buf)@.len() == w * h,
    ensures
        final(buf)@ == paint(old(buf)@, w as int, star_marker_points(x as int, y as int), c),
{
    let ghost start = old(buf)@;
    let ghost (xi, yi) = (x as int, y as int);
    let xs = x as i64;
    let ys = y as i64;
    proof {
        lemma_paint_empty(start, w as int, c);
        lemma_paint_insert(start, w as int, h as int, Set::empty(), xi, yi, c);
    }
    plot(buf, w, h, xs, ys, c);
    proof {
        lemma_paint_insert(start, w as int, h as int, set![(xi, yi)], xi + 1, yi, c);
    }
    plot(buf, w, h, xs + 1, ys, c);
    proof {
        lemma_paint_insert(start, w as int, h as int, set![(xi, yi), (xi + 1, yi)], xi - 1, yi, c);
    }
    plot(buf, w, h, xs - 1, ys, c);
    proof {
        lemma_paint_insert(start, w as int, h as int, set![(xi, yi), (xi + 1, yi), (xi - 1, yi)], xi, yi + 1, c);
    }
    plot(buf, w, h, xs, ys + 1, c);
    proof {
        lemma_paint_insert(
            start,
            w as int,
            h as int,
            set![(xi, yi), (xi + 1, yi), (xi - 1, yi), (xi, yi + 1)],
            xi,
            yi - 1,
            c,
        );
    }
    plot(buf, w, h, xs, ys - 1, c);
}

} // verus!
