use crate::game::CellVisibility;
use vstd::prelude::*;

verus! {

/// The 24-bit pixel value `0x00RRGGBB`.
pub open spec fn rgb_value(r: u8, g: u8, b: u8) -> int {
    r as int * 65536 + g as int * 256 + b as int
}

/// Packs three color channels into one pixel.
pub fn rgb_to_u32(r: u8, g: u8, b: u8) -> (c: u32)
    ensures
        c == rgb_value(r, g, b),
{
    let r32 = r as u32;
    let g32 = g as u32;
    let b32 = b as u32;
    assert((r32 << 16u32) | (g32 << 8u32) | b32 == r32 * 65536 + g32 * 256 + b32) by (bit_vector)
        requires
            r32 < 256,
            g32 < 256,
            b32 < 256,
    ;
    (r32 << 16u32) | (g32 << 8u32) | b32
}

/// The pixel shown for a cell: grey while unknown, red when flagged, and for a revealed
/// cell a shade that grows with its clue.
pub open spec fn shade(v: CellVisibility) -> int {
    match v {
        CellVisibility::Unknown => rgb_value(128, 128, 128),
        CellVisibility::Flagged => rgb_value(255, 0, 0),
        CellVisibility::Empty(n) => if n == 0 {
            rgb_value(0, 0, 0)
        } else if n == 1 {
            rgb_value(0, 64, 64)
        } else if n == 2 {
            rgb_value(0, 64, 127)
        } else if n == 3 {
            rgb_value(80, 127, 255)
        } else if n == 4 {
            rgb_value(80, 127, 0)
        } else if n == 5 {
            rgb_value(80, 180, 127)
        } else if n == 6 {
            rgb_value(160, 180, 180)
        } else if n == 7 {
            rgb_value(160, 255, 255)
        } else {
            rgb_value(255, 255, 255)
        },
    }
}

pub fn cell_color(v: CellVisibility) -> (c: u32)
    ensures
        c == shade(v),
{
    match v {
        CellVisibility::Unknown => rgb_to_u32(128, 128, 128),
        CellVisibility::Flagged => rgb_to_u32(255, 0, 0),
        CellVisibility::Empty(n) => if n == 0 {
            rgb_to_u32(0, 0, 0)
        } else if n == 1 {
            rgb_to_u32(0, 64, 64)
        } else if n == 2 {
            rgb_to_u32(0, 64, 127)
        } else if n == 3 {
            rgb_to_u32(80, 127, 255)
        } else if n == 4 {
            rgb_to_u32(80, 127, 0)
        } else if n == 5 {
            rgb_to_u32(80, 180, 127)
        } else if n == 6 {
            rgb_to_u32(160, 180, 180)
        } else if n == 7 {
            rgb_to_u32(160, 255, 255)
        } else {
            rgb_to_u32(255, 255, 255)
        },
    }
}

} // verus!
