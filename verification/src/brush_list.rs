//! The brush library: per-brush-id color classifiers used when painting
//! already-existing voxels inside a region.

use vstd::prelude::*;

verus! {

/// The paint classifier: brush 0 recolors plainly, brush 1 (the fire
/// brush) recolors with alpha reduced to one half; an unknown brush id
/// paints nothing.
pub open spec fn spec_parse_draw(color: [i32; 4], id: int) -> Option<[i32; 4]> {
    if id == 0 {
        Some(color)
    } else if id == 1 {
        Some([color[0], color[1], color[2], 500i32])
    } else {
        None
    }
}

/// The paint classifier on machine integers; a pure function of the
/// request color and brush id (the coordinate and region play no part
/// in either known brush).
pub fn parse_draw(
    x: i32,
    y: i32,
    z: i32,
    first: [i32; 3],
    last: [i32; 3],
    color: [i32; 4],
    id: i32,
) -> (r: Option<[i32; 4]>)
    ensures
        r == spec_parse_draw(color, id as int),
{
    if id == 0 {
        Some(color)
    } else if id == 1 {
        let c: [i32; 4] = [color[0], color[1], color[2], 500];
        proof {
            assert(c =~= spec_parse_draw(color, id as int).unwrap());
        }
        Some(c)
    } else {
        None
    }
}

} // verus!
