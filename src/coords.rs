//! Conversions between world cells, chunk coordinates and chunk-local cells.

use vstd::prelude::*;

verus! {

/// Identifies one chunk of the world: chunk `(x, y)` covers the cells
/// `x * n .. x * n + n` by `y * n .. y * n + n` for chunk size `n`.
#[derive(Clone, Copy, Debug, PartialEq, Eq, Structural, Hash)]
pub struct ChunkCoord {
    pub x: i32,
    pub y: i32,
}

/// `a` divided by a positive `b`, rounded towards negative infinity.
pub open spec fn floor_div(a: int, b: int) -> int
    recommends
        b > 0,
{
    a / b
}

/// The chunk that holds the world cell `(wx, wy)`.
pub open spec fn chunk_of(wx: int, wy: int, chunk_size: int) -> ChunkCoord
    recommends
        chunk_size > 0,
{
    ChunkCoord { x: floor_div(wx, chunk_size) as i32, y: floor_div(wy, chunk_size) as i32 }
}

/// Floor division of `a` by a positive `b`, on machine integers.
pub fn div_floor(a: i32, b: i32) -> (q: i32)
    requires
        b > 0,
    ensures
        q as int == floor_div(a as int, b as int),
{
    assert(i32::MIN <= a as int / b as int <= i32::MAX) by (nonlinear_arith)
        requires
            b > 0,
            i32::MIN <= a <= i32::MAX,
    ;
    match a.checked_div_euclid(b) {
        Some(q) => q,
        None => 0,
    }
}

/// The chunk holding the world cell `(wx, wy)`, for chunks of `chunk_size`
/// cells a side. Negative cells round towards negative infinity, so cell
/// `-1` lies in chunk `-1`, not `0`.
pub fn world_to_chunk(wx: i32, wy: i32, chunk_size: i32) -> (c: ChunkCoord)
    requires
        chunk_size > 0,
    ensures
        c == chunk_of(wx as int, wy as int, chunk_size as int),
        c.x as int == floor_div(wx as int, chunk_size as int),
        c.y as int == floor_div(wy as int, chunk_size as int),
{
    ChunkCoord { x: div_floor(wx, chunk_size), y: div_floor(wy, chunk_size) }
}

/// Every cell of chunk `c` lies in the `i32` range, for chunks of `n` cells a side.
pub open spec fn chunk_fits(c: ChunkCoord, n: int) -> bool {
    &&& i32::MIN <= c.x * n
    &&& c.x * n + n - 1 <= i32::MAX
    &&& i32::MIN <= c.y * n
    &&& c.y * n + n - 1 <= i32::MAX
}

/// World x of the `k`-th cell of chunk `c`; cells are listed column by
/// column, so local cell `(lx, ly)` is number `lx * n + ly`.
pub open spec fn cell_x(c: ChunkCoord, n: int, k: int) -> int {
    c.x * n + k / n
}

/// World y of the `k`-th cell of chunk `c`.
pub open spec fn cell_y(c: ChunkCoord, n: int, k: int) -> int {
    c.y * n + k % n
}

/// The world cell at which chunk `c` starts, its lowest x and y.
pub fn chunk_origin(c: ChunkCoord, chunk_size: i32) -> (o: (i32, i32))
    requires
        chunk_size > 0,
        chunk_fits(c, chunk_size as int),
    ensures
        o.0 == c.x * chunk_size,
        o.1 == c.y * chunk_size,
{
    (c.x * chunk_size, c.y * chunk_size)
}

/// The `n * n` world cells of chunk `c`, in the order given by
/// [`cell_x`] and [`cell_y`].
pub fn chunk_cells(c: ChunkCoord, chunk_size: i32) -> (v: Vec<(i32, i32)>)
    requires
        chunk_size > 0,
        chunk_fits(c, chunk_size as int),
        chunk_size * chunk_size <= usize::MAX,
    ensures
        v@.len() == chunk_size * chunk_size,
        forall|k: int|
            0 <= k < v@.len() ==> (#[trigger] v@[k]).0 == cell_x(c, chunk_size as int, k)
                && v@[k].1 == cell_y(c, chunk_size as int, k),
{
    let n = chunk_size as i64;
    proof {
        assert(0 < n * n <= i64::MAX) by (nonlinear_arith)
            requires
                0 < n <= i32::MAX,
        ;
    }
    let total: i64 = n * n;
    let mut v: Vec<(i32, i32)> = Vec::new();
    let mut k: i64 = 0;
    while k < total
        invariant
            n == chunk_size,
            n > 0,
            total == n * n,
            total <= usize::MAX,
            chunk_fits(c, n as int),
            0 <= k <= total,
            v@.len() == k,
            forall|j: int|
                0 <= j < k ==> (#[trigger] v@[j]).0 == cell_x(c, n as int, j) && v@[j].1
                    == cell_y(c, n as int, j),
        decreases total - k,
    {
        proof {
            assert(0 <= k / n < n && 0 <= k % n < n) by (nonlinear_arith)
                requires
                    0 <= k < n * n,
                    n > 0,
            ;
        }
        let x = (c.x as i64 * n + k / n) as i32;
        let y = (c.y as i64 * n + k % n) as i32;
        v.push((x, y));
        k = k + 1;
    }
    v
}

} // verus!
