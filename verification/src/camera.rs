//! The camera pose as the voxel core consumes it: eye and target points
//! and the forward/left basis vectors of the view plane, all in
//! fixed-point milli-units. How the pose is produced from input devices
//! is outside the core; the targeting ray march relies only on the
//! bounds below.

use vstd::prelude::*;

verus! {

/// Bound on the camera's eye and target coordinates, in milli-units.
pub const CAM_POS_BOUND: i64 = 67000000;

/// Bound on the components of the basis vectors, in milli-units; a
/// normalized vector stays within one unit of length per axis.
pub const CAM_DIR_BOUND: i64 = 2000;

/// The camera pose.
pub struct Camera {
    pub eye: [i64; 3],
    pub target: [i64; 3],
    pub forward: [i64; 3],
    pub left: [i64; 3],
}

impl Camera {
    /// The pose the targeting ray march accepts: bounded coordinates,
    /// and an eye that is never level with its target, so the ray
    /// always crosses each horizontal plane exactly once.
    pub open spec fn wf(self) -> bool {
        &&& forall|i: int|
            0 <= i < 3 ==> -CAM_POS_BOUND <= #[trigger] self.eye[i] <= CAM_POS_BOUND
        &&& forall|i: int|
            0 <= i < 3 ==> -CAM_POS_BOUND <= #[trigger] self.target[i] <= CAM_POS_BOUND
        &&& forall|i: int|
            0 <= i < 3 ==> -CAM_DIR_BOUND <= #[trigger] self.forward[i] <= CAM_DIR_BOUND
        &&& forall|i: int|
            0 <= i < 3 ==> -CAM_DIR_BOUND <= #[trigger] self.left[i] <= CAM_DIR_BOUND
        &&& self.eye[1] != self.target[1]
    }
}

} // verus!
