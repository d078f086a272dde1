//! The desired set: every chunk within a Chebyshev radius of the viewpoint.

use vstd::prelude::*;
use crate::coords::{ChunkCoord, chunk_of, world_to_chunk};

verus! {

/// The chunks that should be materialised this tick, computed afresh from
/// the viewpoint every tick and never edited in place.
pub struct DesiredChunks {
    pub chunks: Vec<ChunkCoord>,
}

/// `c` lies in the square of chunks at Chebyshev distance at most `r` from
/// `center`.
pub open spec fn in_square(c: ChunkCoord, center: ChunkCoord, r: int) -> bool {
    &&& center.x - r <= c.x <= center.x + r
    &&& center.y - r <= c.y <= center.y + r
}

/// The square of radius `r` around `center` fits in the `i32` range.
pub open spec fn square_fits(center: ChunkCoord, r: int) -> bool {
    &&& i32::MIN <= center.x - r
    &&& center.x + r <= i32::MAX
    &&& i32::MIN <= center.y - r
    &&& center.y + r <= i32::MAX
}

/// Number of chunks in a square of radius `r`.
pub open spec fn square_len(r: int) -> int {
    (2 * r + 1) * (2 * r + 1)
}

/// The desired set as a sequence: exactly the chunks of the square, each once.
pub open spec fn is_square_listing(s: Seq<ChunkCoord>, center: ChunkCoord, r: int) -> bool {
    &&& s.no_duplicates()
    &&& s.len() == square_len(r)
    &&& forall|c: ChunkCoord| s.contains(c) <==> in_square(c, center, r)
}

/// A square listing, taken as a set, holds exactly `(2r + 1)^2` chunks: the
/// square centred on `center`, which it contains.
pub proof fn lemma_square_listing_set(s: Seq<ChunkCoord>, center: ChunkCoord, r: int)
    requires
        r >= 0,
        is_square_listing(s, center, r),
    ensures
        s.to_set().len() == square_len(r),
        s.to_set() == Set::new(|c: ChunkCoord| in_square(c, center, r)),
        s.contains(center),
{
    s.unique_seq_to_set();
    assert(s.to_set() =~= Set::new(|c: ChunkCoord| in_square(c, center, r)));
    assert(in_square(center, center, r));
}

/// Every chunk within Chebyshev distance `render_distance` of the chunk that
/// holds the viewpoint cell `(wx, wy)`, listed once each, row by row.
pub fn desired_chunks(wx: i32, wy: i32, chunk_size: i32, render_distance: i32) -> (d:
    DesiredChunks)
    requires
        chunk_size > 0,
        render_distance >= 0,
        square_fits(chunk_of(wx as int, wy as int, chunk_size as int), render_distance as int),
    ensures
        is_square_listing(
            d.chunks@,
            chunk_of(wx as int, wy as int, chunk_size as int),
            render_distance as int,
        ),
{
    let center = world_to_chunk(wx, wy, chunk_size);
    let r = render_distance as i64;
    let side: i64 = 2 * r + 1;
    let x0: i64 = center.x as i64 - r;
    let y0: i64 = center.y as i64 - r;
    let mut v: Vec<ChunkCoord> = Vec::new();
    let mut i: i64 = 0;
    while i < side
        invariant
            side == 2 * r + 1,
            r == render_distance,
            x0 == center.x - r,
            y0 == center.y - r,
            square_fits(center, r as int),
            0 <= i <= side,
            v.len() == i * side,
            v@.no_duplicates(),
            forall|k: int| 0 <= k < v.len() ==> #[trigger] in_square(v@[k], center, r as int),
            forall|k: int| 0 <= k < v.len() ==> (#[trigger] v@[k]).x < x0 + i,
            forall|c: ChunkCoord|
                in_square(c, center, r as int) && c.x < x0 + i ==> #[trigger] v@.contains(c),
        decreases side - i,
    {
        let x: i32 = (x0 + i) as i32;
        let mut j: i64 = 0;
        while j < side
            invariant
                side == 2 * r + 1,
                r == render_distance,
                x0 == center.x - r,
                y0 == center.y - r,
                square_fits(center, r as int),
                0 <= i < side,
                x == x0 + i,
                0 <= j <= side,
                v.len() == i * side + j,
                v@.no_duplicates(),
                forall|k: int| 0 <= k < v.len() ==> #[trigger] in_square(v@[k], center, r as int),
                forall|k: int|
                    0 <= k < v.len() ==> (#[trigger] v@[k]).x < x || (v@[k].x == x && v@[k].y < y0
                        + j),
                forall|c: ChunkCoord|
                    in_square(c, center, r as int) && (c.x < x || (c.x == x && c.y < y0 + j))
                        ==> #[trigger] v@.contains(c),
            decreases side - j,
        {
            let c = ChunkCoord { x, y: (y0 + j) as i32 };
            proof {
                assert(!v@.contains(c)) by {
                    if v@.contains(c) {
                        let k = choose|k: int| 0 <= k < v.len() && v@[k] == c;
                        assert(v@[k].x < x || (v@[k].x == x && v@[k].y < y0 + j));
                    }
                }
            }
            let ghost old_v = v@;
            v.push(c);
            proof {
                assert forall|a: int, b: int|
                    0 <= a < v.len() && 0 <= b < v.len() && a != b implies v@[a] != v@[b] by {
                    if a < old_v.len() && b < old_v.len() {
                        assert(old_v[a] != old_v[b]);
                    }
                }
                assert forall|d: ChunkCoord|
                    in_square(d, center, r as int) && (d.x < x || (d.x == x && d.y < y0 + j + 1))
                        implies #[trigger] v@.contains(d) by {
                    if d == c {
                        assert(v@[v.len() - 1] == c);
                    } else {
                        assert(old_v.contains(d));
                        let k = choose|k: int| 0 <= k < old_v.len() && old_v[k] == d;
                        assert(v@[k] == d);
                    }
                }
            }
            j = j + 1;
        }
        proof {
            assert(i * side + side == (i + 1) * side) by (nonlinear_arith);
        }
        i = i + 1;
    }
    proof {
        assert(side * side == square_len(r as int)) by (nonlinear_arith)
            requires
                side == 2 * r + 1,
        ;
    }
    DesiredChunks { chunks: v }
}

} // verus!
