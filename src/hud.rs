//! The aiming reticle drawn over the centre of the view.

use vstd::prelude::*;
use crate::draw::{lemma_paint_empty, lemma_paint_insert, paint, put_px, rgb};

verus! {

/// The reticle's colour, `rgb(0x88, 0x99, 0xAA)`.
pub open spec fn reticle_color() -> u32 {
    0x8899AA
}

/// Half the length of each reticle arm, in pixels.
pub const ARM: i32 = 6;

/// The reticle around `(cx, cy)`: a horizontal and a vertical arm of
/// `2 * ARM + 1` pixels crossing at the centre.
pub open spec fn reticle_points(cx: int, cy: int) -> Set<(int, int)> {
    Set::new(
        |p: (int, int)|
            (p.1 == cy && cx - ARM <= p.0 <= cx + ARM) || (p.0 == cx && cy - ARM <= p.1 <= cy + ARM),
    )
}

/// Draws the reticle centred on `(w / 2, h / 2)`.
pub fn reticle(buf: &mut [u32], w: usize, h: usize)
    requires
        old(buf)@.len() == w * h,
        w <= i32::MAX,
        h <= i32::MAX,
    ensures
        final(buf)@ == paint(old(buf)@, w as int, reticle_points(w as int / 2, h as int / 2), reticle_color()),
{
    let cx = (w as i32) / 2;
    let cy = (h as i32) / 2;
    let c = rgb(0x88, 0x99, 0xAA);
    let ghost start = old(buf)@;
    proof {
        lemma_paint_empty(start, w as int, c);
    }
    let mut dx: i32 = -ARM;
    while dx <= ARM
        invariant
            start.len() == w * h,
            cx == w as int / 2,
            cy == h as int / 2,
            0 <= cx,
            0 <= cy,
            cx <= i32::MAX / 2,
            cy <= i32::MAX / 2,
            c == reticle_color(),
            -ARM <= dx <= ARM + 1,
            buf@ == paint(start, w as int, Set::new(|p: (int, int)| p.1 == cy && cx - ARM <= p.0 < cx + dx), c),
        decreases ARM + 1 - dx,
    {
        proof {
            let done = Set::new(|p: (int, int)| p.1 == cy && cx - ARM <= p.0 < cx + dx);
            lemma_paint_insert(start, w as int, h as int, done, cx + dx, cy as int, c);
            assert(done.insert((cx + dx, cy as int)) =~= Set::new(
                |p: (int, int)| p.1 == cy && cx - ARM <= p.0 < cx + dx + 1,
            ));
        }
        put_px(buf, w, h, cx + dx, cy, c);
        dx = dx + 1;
    }
    let mut dy: i32 = -ARM;
    while dy <= ARM
        invariant
            start.len() == w * h,
            cx == w as int / 2,
            cy == h as int / 2,
            0 <= cx,
            0 <= cy,
            cx <= i32::MAX / 2,
            cy <= i32::MAX / 2,
            c == reticle_color(),
            -ARM <= dy <= ARM + 1,
            buf@ == paint(
                start,
                w as int,
                Set::new(
                    |p: (int, int)|
                        (p.1 == cy && cx - ARM <= p.0 <= cx + ARM) || (p.0 == cx && cy - ARM <= p.1 < cy + dy),
                ),
                c,
            ),
        decreases ARM + 1 - dy,
    {
        proof {
            let done = Set::new(
                |p: (int, int)|
                    (p.1 == cy && cx - ARM <= p.0 <= cx + ARM) || (p.0 == cx && cy - ARM <= p.1 < cy + dy),
            );
            lemma_paint_insert(start, w as int, h as int, done, cx as int, cy + dy, c);
            assert(done.insert((cx as int, cy + dy)) =~= Set::new(
                |p: (int, int)|
                    (p.1 == cy && cx - ARM <= p.0 <= cx + ARM) || (p.0 == cx && cy - ARM <= p.1 < cy + dy + 1),
            ));
        }
        put_px(buf, w, h, cx, cy + dy, c);
        dy = dy + 1;
    }
    proof {
        assert(Set::new(
            |p: (int, int)|
                (p.1 == cy && cx - ARM <= p.0 <= cx + ARM) || (p.0 == cx && cy - ARM <= p.1 < cy + ARM + 1),
        ) =~= reticle_points(w as int / 2, h as int / 2));
    }
}

} // verus!
