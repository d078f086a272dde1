//! The bucketing rule: one ordered table of half-open noise ranges, each
//! mapped to a terrain kind, with a fallback for values outside the table.
//!
//! Noise values are given in thousandths (`-1000` stands for `-1.0`).

use vstd::prelude::*;

verus! {

/// The terrain kind that a cell is drawn as.
#[derive(Clone, Copy, Debug, PartialEq, Eq, Structural, Hash)]
pub enum Terrain {
    DeepWater,
    Water,
    Shallows,
    Sand,
    Grass,
    Forest,
    Mountain,
    /// Noise outside every range of the table.
    Unclassified,
}

/// Lower end of the table, inclusive.
pub const DEEP_WATER_FROM: i32 = -1200;

pub const WATER_FROM: i32 = -800;

pub const SHALLOWS_FROM: i32 = -500;

pub const SAND_FROM: i32 = -100;

pub const GRASS_FROM: i32 = 0;

pub const FOREST_FROM: i32 = 400;

pub const MOUNTAIN_FROM: i32 = 800;

/// Upper end of the table, exclusive.
pub const TABLE_END: i32 = 1200;

/// The terrain that a noise value of `v` thousandths falls into.
pub open spec fn terrain_of(v: int) -> Terrain {
    if v < DEEP_WATER_FROM || v >= TABLE_END {
        Terrain::Unclassified
    } else if v < WATER_FROM {
        Terrain::DeepWater
    } else if v < SHALLOWS_FROM {
        Terrain::Water
    } else if v < SAND_FROM {
        Terrain::Shallows
    } else if v < GRASS_FROM {
        Terrain::Sand
    } else if v < FOREST_FROM {
        Terrain::Grass
    } else if v < MOUNTAIN_FROM {
        Terrain::Forest
    } else {
        Terrain::Mountain
    }
}

/// Terrain that agents cannot walk through.
pub open spec fn blocks_movement(t: Terrain) -> bool {
    t == Terrain::Water || t == Terrain::Shallows
}

/// Classifies a noise value given in thousandths.
pub fn classify(v: i32) -> (t: Terrain)
    ensures
        t == terrain_of(v as int),
{
    if v < DEEP_WATER_FROM || v >= TABLE_END {
        Terrain::Unclassified
    } else if v < WATER_FROM {
        Terrain::DeepWater
    } else if v < SHALLOWS_FROM {
        Terrain::Water
    } else if v < SAND_FROM {
        Terrain::Shallows
    } else if v < GRASS_FROM {
        Terrain::Sand
    } else if v < FOREST_FROM {
        Terrain::Grass
    } else if v < MOUNTAIN_FROM {
        Terrain::Forest
    } else {
        Terrain::Mountain
    }
}

/// Whether a noise value of `v` thousandths marks an obstacle cell.
pub fn is_obstacle(v: i32) -> (b: bool)
    ensures
        b == blocks_movement(terrain_of(v as int)),
{
    let t = classify(v);
    t == Terrain::Water || t == Terrain::Shallows
}

} // verus!
