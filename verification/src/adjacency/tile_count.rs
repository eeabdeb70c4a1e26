use vstd::prelude::*;

verus! {

/// The radius of the Earth in metres.
pub const EARTH_RADIUS: u64 = 6_371_000;

/// Tile counts are multiples of this step.
pub const TILE_STEP: u64 = 12;

/// The number of steps that a sphere of the Earth's radius gets: 96 tiles.
pub const EARTH_STEPS: u64 = 8;

/// No sphere gets more tiles than this, the largest multiple of the step below 1024.
pub const TILES_MAX: u64 = 1020;

/// The tile count for a sphere of the given radius in metres: as many steps of
/// tiles as the radius is of the Earth's, eight to one, rounded to the nearest
/// whole step (a half rounds up), and no more than `TILES_MAX`.
pub open spec fn tile_count(radius: nat) -> nat {
    let steps = (16 * radius + 6_371_000) / 12_742_000;
    if steps * 12 >= 1020 {
        1020
    } else {
        (steps * 12) as nat
    }
}

/// The recommended tile count for a sphere of the given radius in metres.
pub fn get_tile_count(radius: u64) -> (tiles: usize)
    ensures
        tiles == tile_count(radius as nat),
        tiles % 12 == 0,
        tiles <= TILES_MAX,
{
    if radius >= 100 * EARTH_RADIUS {
        TILES_MAX as usize
    } else {
        let scaled: u64 = 2 * EARTH_STEPS * radius + EARTH_RADIUS;
        assert(scaled == 16 * radius + 6_371_000);
        let steps: u64 = scaled / (2 * EARTH_RADIUS);
        let tiles: u64 = steps * TILE_STEP;
        if tiles >= TILES_MAX {
            TILES_MAX as usize
        } else {
            tiles as usize
        }
    }
}

} // verus!
