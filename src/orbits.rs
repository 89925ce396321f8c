//! Orbit paths: a polyline through projected samples that breaks wherever a
//! sample could not be projected.

use vstd::prelude::*;
use crate::draw::{draw_line, lemma_paint_empty, lemma_paint_union, line_points, paint};

verus! {

/// The pixels joining two consecutive samples: the line between them when
/// both were projected, nothing otherwise.
pub open spec fn segment_points(a: Option<(i32, i32)>, b: Option<(i32, i32)>) -> Set<(int, int)> {
    match (a, b) {
        (Some(p), Some(q)) => line_points(p.0 as int, p.1 as int, q.0 as int, q.1 as int).to_set(),
        _ => Set::empty(),
    }
}

/// The pixels of the polyline through `samples`: the union of the segments
/// between each pair of neighbouring samples.
pub open spec fn path_points(samples: Seq<Option<(i32, i32)>>) -> Set<(int, int)>
    decreases samples.len(),
{
    if samples.len() < 2 {
        Set::empty()
    } else {
        path_points(samples.drop_last()).union(
            segment_points(samples[samples.len() - 2], samples[samples.len() - 1]),
        )
    }
}

/// Draws the polyline through `samples` in order; a `None` sample (one
/// outside the clip range) ends the current run, so no line crosses it.
pub fn draw_path(buf: &mut [u32], w: usize, h: usize, samples: &[Option<(i32, i32)>], color: u32)
    requires
        old(buf)@.len() == w * h,
    ensures
        final(buf)@ == paint(old(buf)@, w as int, path_points(samples@), color),
{
    let ghost start = old(buf)@;
    let mut prev: Option<(i32, i32)> = None;
    let mut i: usize = 0;
    proof {
        lemma_paint_empty(start, w as int, color);
        assert(path_points(samples@.take(0)) == Set::<(int, int)>::empty());
    }
    while i < samples.len()
        invariant
            start.len() == w * h,
            i <= samples@.len(),
            prev == (if i == 0 { None } else { samples@[i - 1] }),
            buf@ == paint(start, w as int, path_points(samples@.take(i as int)), color),
        decreases samples@.len() - i,
    {
        let cur = samples[i];
        let ghost done = path_points(samples@.take(i as int));
        proof {
            if i == 0 {
                assert(path_points(samples@.take(1)) == Set::<(int, int)>::empty());
                assert(segment_points(prev, cur) == Set::<(int, int)>::empty());
            } else {
                assert(samples@.take(i + 1).drop_last() =~= samples@.take(i as int));
            }
            assert(path_points(samples@.take(i + 1)) == done.union(segment_points(prev, cur)));
        }
        match cur {
            None => {
                proof {
                    assert(done.union(Set::empty()) =~= done);
                }
                prev = None;
            },
            Some(p) => {
                match prev {
                    Some(q) => {
                        proof {
                            lemma_paint_union(start, w as int, done, segment_points(prev, cur), color);
                        }
                        draw_line(buf, w, h, q.0, q.1, p.0, p.1, color);
                    },
                    None => {
                        proof {
                            assert(done.union(Set::empty()) =~= done);
                        }
                    },
                }
                prev = Some(p);
            },
        }
        i = i + 1;
    }
    proof {
        assert(samples@.take(samples@.len() as int) =~= samples@);
    }
}

} // verus!
