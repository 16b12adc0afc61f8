//! The atomic editable unit of the world: a voxel instance with its
//! position, color, surface normal and render-blend attributes, plus the
//! flat per-instance record handed to the renderer and the point-light
//! record claimed by fire-material voxels.
//!
//! Colors, normals and blend strengths are fixed-point milli-units.

use vstd::prelude::*;

verus! {

use crate::MILLI;
use crate::geom::{in_world, pos_of};

/// Material tag of a voxel; a fire voxel additionally claims a point
/// light when painted.
#[derive(Clone, Copy, PartialEq, Eq, Structural, Debug)]
pub enum VoxelType {
    Object,
    Fire,
}

/// One voxel: integer world position, milli-unit color, normal and
/// render-blend strengths, and a material tag.
#[derive(Clone, Copy, Debug, PartialEq, Eq)]
pub struct Instance {
    pub position: [i32; 3],
    pub color: [i32; 4],
    pub normal: [i32; 3],
    pub depth_strength: i32,
    pub normal_strength: i32,
    pub light_strength: i32,
    pub current_type: VoxelType,
}

/// The flat per-instance record consumed by the renderer: a column-major
/// 4x4 translation matrix in milli-units, then color and blend strengths.
#[derive(Clone, Copy, Debug, PartialEq, Eq)]
pub struct InstanceRaw {
    pub model: [i32; 16],
    pub color: [i32; 4],
    pub depth_strength: i32,
    pub normal_strength: i32,
}

/// What `to_raw` produces: the translation matrix carrying the voxel's
/// position, and the voxel's color and strengths copied through.
pub open spec fn spec_to_raw(v: Instance) -> InstanceRaw {
    InstanceRaw {
        model: [
            MILLI,
            0,
            0,
            0,
            0,
            MILLI,
            0,
            0,
            0,
            0,
            MILLI,
            0,
            (v.position[0] * MILLI) as i32,
            (v.position[1] * MILLI) as i32,
            (v.position[2] * MILLI) as i32,
            MILLI,
        ],
        color: v.color,
        depth_strength: v.depth_strength,
        normal_strength: v.normal_strength,
    }
}

impl Instance {
    /// Derive the render record for this voxel.
    pub fn to_raw(&self) -> (r: InstanceRaw)
        requires
            in_world(pos_of(self.position)),
        ensures
            r == spec_to_raw(*self),
    {
        let r = InstanceRaw {
            model: [
                MILLI,
                0,
                0,
                0,
                0,
                MILLI,
                0,
                0,
                0,
                0,
                MILLI,
                0,
                self.position[0] * MILLI,
                self.position[1] * MILLI,
                self.position[2] * MILLI,
                MILLI,
            ],
            color: self.color,
            depth_strength: self.depth_strength,
            normal_strength: self.normal_strength,
        };
        proof {
            assert(r.model =~= spec_to_raw(*self).model);
        }
        r
    }
}

/// One record of the fixed-capacity point-light pool. A light is free
/// while its color alpha is zero; painting a fire voxel claims the first
/// free record.
#[derive(Clone, Copy, Debug)]
pub struct Light {
    pub position: [i32; 3],
    pub color: [i32; 4],
}

impl Light {
    /// An unclaimed light record.
    pub fn off() -> (r: Light)
        ensures
            r.color == [0i32, 0i32, 0i32, 0i32],
            r.position == [0i32, 0i32, 0i32],
    {
        Light { position: [0, 0, 0], color: [0, 0, 0, 0] }
    }
}

} // verus!
