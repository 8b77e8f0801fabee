use vstd::prelude::*;

use crate::chunk::Chunk;
use crate::manager::ChunkManager;

verus! {

/// The entity whose position drives which chunks are desired. Its tile
/// coordinate is its world position divided per axis by the chunk edge
/// length and floored (see `crate::chunk::world_to_tile`).
#[derive(Clone, Copy, Debug, PartialEq, Eq, Structural)]
pub struct Observer {
    pub tile: Chunk,
}

/// In what shape and distance the terrain should be loaded around an
/// observer, in chunk-grid units.
#[derive(Clone, Copy, Debug, PartialEq, Eq, Structural)]
pub enum AreaManaged {
    /// A circular catchment of the given radius.
    Circle(i32),
    /// A rectangular catchment of the given width and height. Declared as
    /// an extension point; the policy for it is not yet defined, and
    /// `add_desired_chunks` does not accept it.
    Rectangle(i32, i32),
}

/// Level of detail for a tile, by its distance from the area's centre.
#[derive(Clone, Copy, Debug, PartialEq, Eq, Structural)]
pub enum LodLevel {
    Low,
    Medium,
    High,
}

/// The level `lod_level` grades a tile at: full detail well inside the
/// render distance, medium detail across the bulk of it, low detail
/// outside. The middle band is graded before the inner one, so a tile
/// inside both bounds is medium.
pub open spec fn spec_lod_level(distance: int, render_distance: int) -> LodLevel {
    let d = vstd::math::abs(distance);
    if d < render_distance - render_distance / 5 {
        LodLevel::Medium
    } else if d < render_distance / 3 {
        LodLevel::High
    } else {
        LodLevel::Low
    }
}

/// Grades a tile `distance_from_center` steps from the area's centre
/// against the render distance.
pub fn lod_level(distance_from_center: i32, render_distance: i32) -> (lod: LodLevel)
    requires
        distance_from_center != i32::MIN,
        0 <= render_distance,
    ensures
        lod == spec_lod_level(distance_from_center as int, render_distance as int),
{
    let distance: i32 = if distance_from_center < 0 {
        -distance_from_center
    } else {
        distance_from_center
    };
    let high_upper_bound = render_distance / 3;
    let medium_upper_bound = render_distance - render_distance / 5;
    let mut lod = LodLevel::Low;
    if distance < high_upper_bound {
        lod = LodLevel::High;
    }
    if distance < medium_upper_bound {
        lod = LodLevel::Medium;
    }
    lod
}

/// The tile `c` lies within `radius` of `center`: the squared Euclidean
/// distance between the two, in chunk-grid units, is at most the squared
/// radius.
pub open spec fn in_circle(center: Chunk, radius: int, c: Chunk) -> bool {
    (c.x - center.x) * (c.x - center.x) + (c.y - center.y) * (c.y - center.y) <= radius * radius
}

/// A tile within the circle lies within its bounding box.
pub proof fn lemma_circle_bounds(center: Chunk, radius: int, c: Chunk)
    requires
        0 <= radius,
        in_circle(center, radius, c),
    ensures
        center.x - radius <= c.x <= center.x + radius,
        center.y - radius <= c.y <= center.y + radius,
{
    let dx = c.x - center.x;
    let dy = c.y - center.y;
    assert(-radius <= dx <= radius && -radius <= dy <= radius) by (nonlinear_arith)
        requires
            dx * dx + dy * dy <= radius * radius,
            0 <= radius,
    ;
}

/// The tiles requested so far, walking the bounding box column by column:
/// every circle tile in a column left of the current one, and in the
/// current column every circle tile below the current row.
spec fn covered(center: Chunk, radius: int, c: Chunk, i: int, j: int) -> bool {
    in_circle(center, radius, c) && (c.x - center.x < i - radius || (c.x - center.x == i - radius
        && c.y - center.y < j - radius))
}

/// The area policy: requests every tile of the observer's catchment, so
/// that the desired set grows to include it; nothing is ever removed. Runs
/// when the observer's transform has changed. Only the circular policy is
/// defined.
pub fn add_desired_chunks(manager: &mut ChunkManager, observer: &Observer, area: &AreaManaged)
    requires
        old(manager).inv(),
        *area is Circle,
        *area matches AreaManaged::Circle(radius) ==> 0 <= radius && i32::MIN + radius
            <= observer.tile.x <= i32::MAX - radius && i32::MIN + radius <= observer.tile.y
            <= i32::MAX - radius,
    ensures
        final(manager).inv(),
        final(manager).placed() == old(manager).placed(),
        *area matches AreaManaged::Circle(radius) ==> forall|c: Chunk|
            final(manager).desired().contains(c) <==> old(manager).desired().contains(c)
                || in_circle(observer.tile, radius as int, c),
{
    let radius: i32 = match area {
        AreaManaged::Circle(r) => *r,
        AreaManaged::Rectangle(_, _) => { return ; },
    };
    let r: i64 = radius as i64;
    let tile = observer.tile;
    proof {
        assert forall|c: Chunk| #![trigger covered(tile, r as int, c, 0, 0)]
            !covered(tile, r as int, c, 0, 0) by {
            if in_circle(tile, r as int, c) {
                lemma_circle_bounds(tile, r as int, c);
            }
        }
    }
    let mut i: i64 = 0;
    while i < 2 * r + 1
        invariant
            0 <= i <= 2 * r + 1,
            0 <= r <= i32::MAX,
            i32::MIN + r <= tile.x as int <= i32::MAX - r,
            i32::MIN + r <= tile.y as int <= i32::MAX - r,
            manager.inv(),
            manager.placed() == old(manager).placed(),
            forall|c: Chunk| #[trigger]
                manager.desired().contains(c) <==> old(manager).desired().contains(c) || covered(
                    tile,
                    r as int,
                    c,
                    i as int,
                    0,
                ),
        decreases 2 * r + 1 - i,
    {
        let mut j: i64 = 0;
        while j < 2 * r + 1
            invariant
                0 <= i < 2 * r + 1,
                0 <= j <= 2 * r + 1,
                0 <= r <= i32::MAX,
                i32::MIN + r <= tile.x as int <= i32::MAX - r,
                i32::MIN + r <= tile.y as int <= i32::MAX - r,
                manager.inv(),
                manager.placed() == old(manager).placed(),
                forall|c: Chunk| #[trigger]
                    manager.desired().contains(c) <==> old(manager).desired().contains(c)
                        || covered(tile, r as int, c, i as int, j as int),
            decreases 2 * r + 1 - j,
        {
            let x: i64 = i - r;
            let y: i64 = j - r;
            proof {
                assert(0 <= (x as int) * (x as int) <= 0x4000_0000_0000_0000 && 0 <= (y as int) * (
                y as int) <= 0x4000_0000_0000_0000 && 0 <= (r as int) * (r as int)
                    <= 0x4000_0000_0000_0000) by (nonlinear_arith)
                    requires
                        -0x8000_0000 <= x as int <= 0x8000_0000,
                        -0x8000_0000 <= y as int <= 0x8000_0000,
                        0 <= r as int <= 0x8000_0000,
                ;
            }
            if (x as i128) * (x as i128) + (y as i128) * (y as i128) <= (r as i128) * (r as i128) {
                let cx: i32 = (tile.x as i64 + x) as i32;
                let cy: i32 = (tile.y as i64 + y) as i32;
                let chunk = Chunk::new(cx, cy);
                manager.request_chunk(chunk);
                proof {
                    assert(chunk.x - tile.x == i - r && chunk.y - tile.y == j - r);
                    assert(in_circle(tile, r as int, chunk));
                    assert forall|c: Chunk| #![trigger covered(tile, r as int, c, i as int, j + 1)]
                        covered(tile, r as int, c, i as int, j + 1) <==> covered(
                            tile,
                            r as int,
                            c,
                            i as int,
                            j as int,
                        ) || c == chunk by {}
                }
            } else {
                proof {
                    assert forall|c: Chunk| #![trigger covered(tile, r as int, c, i as int, j + 1)]
                        covered(tile, r as int, c, i as int, j + 1) <==> covered(
                            tile,
                            r as int,
                            c,
                            i as int,
                            j as int,
                        ) by {
                        if c.x - tile.x == i - r && c.y - tile.y == j - r {
                            assert(!in_circle(tile, r as int, c));
                        }
                    }
                }
            }
            j = j + 1;
        }
        proof {
            assert forall|c: Chunk| #![trigger covered(tile, r as int, c, i + 1, 0)]
                covered(tile, r as int, c, i + 1, 0) <==> covered(
                    tile,
                    r as int,
                    c,
                    i as int,
                    2 * r + 1,
                ) by {
                if in_circle(tile, r as int, c) {
                    lemma_circle_bounds(tile, r as int, c);
                }
            }
        }
        i = i + 1;
    }
    proof {
        assert forall|c: Chunk| #![trigger in_circle(tile, r as int, c)]
            covered(tile, r as int, c, 2 * r + 1, 0) <==> in_circle(tile, r as int, c) by {
            if in_circle(tile, r as int, c) {
                lemma_circle_bounds(tile, r as int, c);
            }
        }
    }
}

} // verus!
