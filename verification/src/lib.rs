//! Core of an interactive voxel-editing sandbox: sparse chunked voxel
//! storage, region edits driven by a shape library, cursor-ray targeting,
//! and a text command protocol.
//!
//! All world coordinates are integers; fractional quantities (colors,
//! normals, blend strengths, the cursor ray) are carried in fixed-point
//! milli-units, one thousand to the unit.

use vstd::prelude::*;

pub mod brush_list;
pub mod camera;
pub mod chunk;
pub mod command;
pub mod geom;
pub mod manager;
pub mod model_list;
pub mod numtext;
pub mod shell;
pub mod voxel;

verus! {

/// Edge length of a cubic chunk, in voxel units.
pub const RADIUS_VOXEL: i32 = 256;

/// Largest chunk-grid coordinate; the chunk it names still lies inside
/// the world coordinate range.
pub const GRID_BOUND: i32 = 1023;

/// One unit in fixed-point milli representation.
pub const MILLI: i32 = 1000;

} // verus!
