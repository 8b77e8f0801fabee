use vstd::prelude::*;

verus! {

/// Number of voxels along each horizontal edge of a chunk. With the unit
/// voxel pitch this is also the chunk's edge length in world units.
pub const CHUNK_SIZE: i32 = 32;

/// Identifies one square tile of the world on the regular planar grid.
/// Equality and hashing are structural.
#[derive(Clone, Copy, Debug, PartialEq, Eq, Hash, Structural)]
pub struct Chunk {
    pub x: i32,
    pub y: i32,
}

impl Chunk {
    /// The tile at grid coordinates `(x, y)`.
    pub fn new(x: i32, y: i32) -> (c: Chunk)
        ensures
            c == (Chunk { x, y }),
    {
        Chunk { x, y }
    }

    /// Squared Euclidean distance between two tiles, in chunk-grid units.
    pub open spec fn spec_distance_squared(self, other: Chunk) -> int {
        (self.x - other.x) * (self.x - other.x) + (self.y - other.y) * (self.y - other.y)
    }

    /// Squared Euclidean distance between two tiles, in chunk-grid units.
    /// Computed in 128 bits so that any pair of tiles is admissible.
    pub fn distance_squared(&self, other: &Chunk) -> (d: i128)
        ensures
            d == self.spec_distance_squared(*other),
    {
        let dx: i128 = self.x as i128 - other.x as i128;
        let dy: i128 = self.y as i128 - other.y as i128;
        assert(dx * dx + dy * dy <= 0x2_0000_0000_0000_0000) by (nonlinear_arith)
            requires
                -0x1_0000_0000 <= dx <= 0x1_0000_0000,
                -0x1_0000_0000 <= dy <= 0x1_0000_0000,
        ;
        assert(0 <= dx * dx && 0 <= dy * dy) by (nonlinear_arith);
        dx * dx + dy * dy
    }
}

/// World-space translation of a chunk entity, in world units, for the unit
/// voxel pitch: the tile starts at `coordinate * CHUNK_SIZE`, is pulled back
/// by half a chunk on each horizontal axis so its voxels straddle the grid
/// line, and the terrain sits five units below the origin.
pub fn chunk_to_world(chunk: &Chunk) -> (t: (i64, i64, i64))
    ensures
        t.0 == chunk.x * CHUNK_SIZE - CHUNK_SIZE / 2,
        t.1 == -5,
        t.2 == chunk.y * CHUNK_SIZE - CHUNK_SIZE / 2,
{
    let tx: i64 = chunk.x as i64 * CHUNK_SIZE as i64 - (CHUNK_SIZE / 2) as i64;
    let tz: i64 = chunk.y as i64 * CHUNK_SIZE as i64 - (CHUNK_SIZE / 2) as i64;
    (tx, -5, tz)
}

/// The tile under a world-space position: each coordinate divided by the
/// chunk edge length and floored, so that positions a little below zero
/// fall in the tile at negative coordinates rather than in tile zero.
pub fn world_to_tile(wx: i64, wz: i64) -> (t: Chunk)
    requires
        i32::MIN * (CHUNK_SIZE as int) <= wx < (i32::MAX + 1) * (CHUNK_SIZE as int),
        i32::MIN * (CHUNK_SIZE as int) <= wz < (i32::MAX + 1) * (CHUNK_SIZE as int),
    ensures
        t.x == wx as int / CHUNK_SIZE as int,
        t.y == wz as int / CHUNK_SIZE as int,
{
    let x = floor_div_chunk(wx);
    let z = floor_div_chunk(wz);
    Chunk { x, y: z }
}

/// Flooring division of a world coordinate by the chunk edge length.
fn floor_div_chunk(w: i64) -> (q: i32)
    requires
        i32::MIN * (CHUNK_SIZE as int) <= w < (i32::MAX + 1) * (CHUNK_SIZE as int),
    ensures
        q == w as int / CHUNK_SIZE as int,
{
    let c: i128 = CHUNK_SIZE as i128;
    let w128: i128 = w as i128;
    let q: i128 = if w128 >= 0 {
        w128 / c
    } else {
        -((-w128 + (c - 1)) / c)
    };
    proof {
        lemma_floor_div(w as int, CHUNK_SIZE as int);
    }
    q as i32
}

/// For a positive divisor `c`, the flooring quotient of a negative `w` is
/// the negated ceiling quotient of `-w`.
proof fn lemma_floor_div(w: int, c: int)
    requires
        0 < c,
    ensures
        w < 0 ==> w / c == -((-w + (c - 1)) / c),
        w >= 0 ==> w / c >= 0,
{
    if w < 0 {
        let q = w / c;
        let r = w % c;
        vstd::arithmetic::div_mod::lemma_fundamental_div_mod(w, c);
        vstd::arithmetic::div_mod::lemma_mod_bound(w, c);
        assert(w == q * c + r) by (nonlinear_arith)
            requires
                w == c * q + r,
        ;
        // -w + c - 1 == (-q) * c + (c - 1 - r), with 0 <= c - 1 - r < c
        assert(-w + (c - 1) == (-q) * c + (c - 1 - r)) by (nonlinear_arith)
            requires
                w == q * c + r,
        ;
        vstd::arithmetic::div_mod::lemma_fundamental_div_mod_converse(
            -w + (c - 1),
            c,
            -q,
            c - 1 - r,
        );
    } else {
        vstd::arithmetic::div_mod::lemma_div_is_ordered(0, w, c);
    }
}

} // verus!
