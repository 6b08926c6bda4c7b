//! Decisions of the map spawner: which rings of cells to create or drop
//! when a character moves, and which mesh a tile gets from the heights of
//! its neighbours.

use crate::hex_vector::{cube_distance, HexVector};
use crate::lexigraphical_cycle::LexigraphicalCycle;
use crate::rotation::{least_rotation, rotation};
use vstd::prelude::*;

verus! {

/// A move matters to the map only when a player-controlled character with
/// sight made it.
pub fn is_moved_event_irrelevant(is_player_controllable: bool, sight: Option<u16>) -> (irrelevant:
    bool)
    ensures
        irrelevant == (!is_player_controllable || sight is None),
{
    !is_player_controllable || sight.is_none()
}

pub open spec fn saturating_sub(a: int, b: int) -> int {
    if a > b {
        a - b
    } else {
        0
    }
}

/// After a character moved from `origin` to `new_origin`, the rings
/// `(from, to)` of cells to walk: from the edge of its sight inwards by as
/// many rings as it moved. `None` when the move does not concern the map
/// or did not leave the starting cell.
pub fn moved_sight_range(
    origin: &HexVector,
    new_origin: &HexVector,
    is_player_controllable: bool,
    sight: Option<u16>,
) -> (range: Option<(u16, u16)>)
    ensures
        range is None <==> (!is_player_controllable || sight is None || cube_distance(
            origin.cube(),
            new_origin.cube(),
        ) < 1),
        range matches Some((from, to)) ==> {
            &&& from == sight.unwrap()
            &&& to == saturating_sub(
                sight.unwrap() as int,
                cube_distance(origin.cube(), new_origin.cube()),
            )
        },
{
    let distance = origin.distance_to(new_origin);
    if is_moved_event_irrelevant(is_player_controllable, sight) || distance < 1 {
        return None;
    }
    let sight_range = sight.unwrap();
    let from: u16 = sight_range;
    let to: u16 = sight_range.saturating_sub(distance);
    Some((from, to))
}

/// A cell is dropped after a move when it lies beyond the sight around the
/// new position.
pub fn is_out_of_sight(hex: &HexVector, new_origin: &HexVector, sight: u16) -> (out: bool)
    ensures
        out == (cube_distance(hex.cube(), new_origin.cube()) > sight),
{
    hex.distance_to(new_origin) > sight
}

/// The height difference from a tile to a neighbour, wrapped into an `i8`.
pub open spec fn height_difference(height: u8, sibling: u8) -> i8 {
    (sibling as int - height as int) as i8
}

/// The height differences from a tile to its six neighbours.
pub fn tile_height_differences(height: u8, sibling_heights: &[u8; 6]) -> (diffs: [i8; 6])
    ensures
        forall|m: int| 0 <= m < 6 ==> diffs@[m] == height_difference(height, sibling_heights@[m]),
{
    let mut diffs: [i8; 6] = [0; 6];
    let mut m: usize = 0;
    while m < 6
        invariant
            0 <= m <= 6,
            diffs@.len() == 6,
            forall|q: int| 0 <= q < m ==> diffs@[q] == height_difference(height, sibling_heights@[q]),
        decreases 6 - m,
    {
        diffs[m] = (sibling_heights[m] as i16 - height as i16) as i8;
        m = m + 1;
    }
    diffs
}

pub open spec fn difference_pattern(height: u8, siblings: Seq<Option<u8>>) -> Seq<i8> {
    Seq::new(6, |m: int| height_difference(height, siblings[m].unwrap()))
}

/// The tile mesh pattern of a tile of height `height` whose neighbours
/// (in direction order) have the given heights: the canonical rotation of
/// its height differences. `None` while a neighbour's height is unknown.
pub fn hex_tile_pattern(height: u8, siblings: &[Option<u8>; 6]) -> (tile: Option<
    LexigraphicalCycle<6>,
>)
    ensures
        tile is Some <==> forall|m: int| 0 <= m < 6 ==> siblings@[m] is Some,
        tile matches Some(c) ==> {
            &&& c.spec_rotation() == least_rotation(difference_pattern(height, siblings@))
            &&& c.spec_cycle() == rotation(
                difference_pattern(height, siblings@),
                c.spec_rotation(),
            )
        },
{
    let mut sibling_heights: [u8; 6] = [0; 6];
    let mut m: usize = 0;
    while m < 6
        invariant
            0 <= m <= 6,
            sibling_heights@.len() == 6,
            forall|q: int| 0 <= q < m ==> siblings@[q] == Some(sibling_heights@[q]),
        decreases 6 - m,
    {
        match siblings[m] {
            Some(h) => {
                sibling_heights[m] = h;
            },
            None => {
                return None;
            },
        }
        m = m + 1;
    }
    let height_diffs = tile_height_differences(height, &sibling_heights);
    proof {
        assert(height_diffs@ =~= difference_pattern(height, siblings@));
    }
    Some(LexigraphicalCycle::shiloah_minimal_rotation(&height_diffs))
}

/// The heights of the two neighbours that meet at corner `index` of a tile:
/// the neighbour in direction `index` and the one before it, the latter
/// counted from `index` taken as an `i16`.
pub fn get_corner_heights(height_differences: &[i8; 6], index: usize) -> (heights: [i8; 2])
    requires
        index as i16 > i16::MIN,
    ensures
        heights@[0] == height_differences@[(index % 6) as int],
        heights@[1] == height_differences@[((index as i16) - 1) % 6],
{
    let previous: i16 = index as i16 - 1;
    let previous_index: usize = (((previous % 6) + 6) % 6) as usize;
    [height_differences[index % 6], height_differences[previous_index]]
}

/// The height level of a tile from its midpoint and its offset already
/// scaled to whole steps (twice the offset, truncated): a quarter of the
/// midpoint plus ten per step, wrapped into a `u8`.
pub fn tile_height_level(midpoint: u8, offset_steps: i16) -> (level: u8)
    requires
        i16::MIN <= offset_steps * 10,
        offset_steps * 10 + midpoint / 4 <= i16::MAX,
    ensures
        level == (midpoint / 4 + offset_steps * 10) as u8,
{
    (midpoint as i16 / 4 + offset_steps * 10) as u8
}


/// Subtracting without going below zero: the result is never negative,
/// never short of `a - b`, and is exactly `a - b` when `a` exceeds `b`,
/// zero otherwise.
pub proof fn lemma_saturating_sub(a: int, b: int)
    ensures
        saturating_sub(a, b) >= 0,
        saturating_sub(a, b) + b >= a,
        a > b ==> saturating_sub(a, b) == a - b,
        a <= b ==> saturating_sub(a, b) == 0,
{
}

/// The rings to walk after a move reach from the edge of sight inwards by
/// exactly as many rings as the character moved cells (down to ring 0).
pub proof fn lemma_moved_sight_rings(sight: u16, origin: HexVector, new_origin: HexVector)
    ensures
        saturating_sub(sight as int, cube_distance(origin.cube(), new_origin.cube())) + (
        if cube_distance(origin.cube(), new_origin.cube()) <= sight {
            cube_distance(origin.cube(), new_origin.cube())
        } else {
            sight as int
        }) == sight,
{
}

/// The difference to a neighbour is the neighbour's height minus the tile's,
/// kept whole whenever it fits in an `i8` and wrapped otherwise.
pub proof fn lemma_height_difference(height: u8, sibling: u8)
    ensures
        height_difference(height, sibling) == (sibling as int - height as int) as i8,
        -128 <= sibling as int - height as int <= 127 ==> height_difference(height, sibling)
            == sibling as int - height as int,
{
}

/// The pattern a tile's mesh is chosen from holds, for each neighbour in
/// direction order, that neighbour's height minus the tile's height (wrapped
/// into an `i8`), with nothing cut or clamped.
pub proof fn lemma_difference_pattern(height: u8, siblings: Seq<Option<u8>>)
    requires
        siblings.len() == 6,
        forall|m: int| 0 <= m < 6 ==> siblings[m] is Some,
    ensures
        difference_pattern(height, siblings).len() == 6,
        forall|m: int|
            0 <= m < 6 ==> #[trigger] difference_pattern(height, siblings)[m] == (
            siblings[m].unwrap() as int - height as int) as i8,
        forall|m: int|
            0 <= m < 6 && -128 <= siblings[m].unwrap() as int - height as int <= 127
                ==> #[trigger] difference_pattern(height, siblings)[m] == siblings[m].unwrap() as int
                - height as int,
{
}

} // verus!
