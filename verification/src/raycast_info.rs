//! Recursion-depth protocol for secondary rays.
//!
//! Every successful hit increments the counter once, before the material is
//! asked to shade; materials consult the updated depth to decide whether they
//! may spawn another ray. Two classes of secondary rays have separate limits:
//! glossy/mirror reflection and diffuse indirect sampling.

use vstd::prelude::*;

verus! {

/// Maximum depth at which a glossy or mirror material may still recurse.
pub const REFLECTION_DEPTH_LIMIT: usize = 3;

/// Maximum depth at which a diffuse material may still sample indirect rays.
pub const INDIRECT_DEPTH_LIMIT: usize = 2;

/// Counter carrying the current recursion depth of a ray-cast chain.
/// Copied into each call frame; the raycast layer increments it at the single
/// site where a hit is committed.
#[derive(Clone, Copy, Debug)]
pub struct RayCastInfo {
    ray_depth: usize,
}

impl RayCastInfo {
    /// Depth recorded in the counter, as seen by contracts.
    pub closed spec fn depth(self) -> int {
        self.ray_depth as int
    }

    /// Whether a reflective material may recurse at this depth.
    pub open spec fn spec_may_recurse_reflection(self) -> bool {
        self.depth() <= REFLECTION_DEPTH_LIMIT
    }

    /// Whether a diffuse material may sample indirect rays at this depth.
    pub open spec fn spec_may_recurse_indirect(self) -> bool {
        self.depth() <= INDIRECT_DEPTH_LIMIT
    }

    /// Fresh counter for a primary ray.
    pub fn new() -> (info: RayCastInfo)
        ensures
            info.depth() == 0,
    {
        RayCastInfo { ray_depth: 0 }
    }

    /// Records one more committed hit on the chain.
    pub fn increment_ray_number(&mut self)
        requires
            old(self).depth() < usize::MAX,
        ensures
            final(self).depth() == old(self).depth() + 1,
    {
        self.ray_depth = self.ray_depth + 1;
    }

    /// Current recursion depth.
    pub fn ray_depth(&self) -> (d: usize)
        ensures
            d == self.depth(),
    {
        self.ray_depth
    }

    /// Decision a glossy or mirror material makes before spawning a
    /// reflection ray.
    pub fn may_recurse_reflection(&self) -> (r: bool)
        ensures
            r == self.spec_may_recurse_reflection(),
    {
        self.ray_depth <= REFLECTION_DEPTH_LIMIT
    }

    /// Decision a diffuse material makes before sampling indirect rays.
    pub fn may_recurse_indirect(&self) -> (r: bool)
        ensures
            r == self.spec_may_recurse_indirect(),
    {
        self.ray_depth <= INDIRECT_DEPTH_LIMIT
    }
}

/// Depth bound: past the larger of the two limits, neither class of material
/// is allowed to spawn a secondary ray, so the recursion budget is finite.
pub proof fn lemma_recursion_depth_bound(info: RayCastInfo)
    ensures
        info.depth() > REFLECTION_DEPTH_LIMIT && info.depth() > INDIRECT_DEPTH_LIMIT
            ==> !info.spec_may_recurse_reflection() && !info.spec_may_recurse_indirect(),
        INDIRECT_DEPTH_LIMIT <= REFLECTION_DEPTH_LIMIT
            ==> (info.depth() > REFLECTION_DEPTH_LIMIT
                ==> !info.spec_may_recurse_reflection() && !info.spec_may_recurse_indirect()),
{
}

} // verus!
