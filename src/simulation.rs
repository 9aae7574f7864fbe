//! One frame of the simulation: diffusion, then advection.
use vstd::prelude::*;

use crate::advection::advected;
use crate::diffusion::diffused;
use crate::grid::Grid;

verus! {

/// Diffusion rate of a frame (15.0).
pub const DIFFUSION_RATE: u32 = 983040;

impl Grid {
    /// Advances the grid by one frame of length `dt`: a diffusion step at
    /// `DIFFUSION_RATE`, then an advection step.
    pub fn step(&mut self, dt: u32)
        requires
            old(self).wf(),
        ensures
            final(self).wf(),
            final(self).width == old(self).width,
            final(self).height == old(self).height,
            final(self).mode == old(self).mode,
            final(self).cells@ == advected(
                diffused(
                    old(self).cells@,
                    old(self).width as int,
                    old(self).height as int,
                    dt as int,
                    DIFFUSION_RATE as int,
                ),
                old(self).width as int,
                old(self).height as int,
                dt as int,
            ),
    {
        self.diffuse(dt, DIFFUSION_RATE);
        self.advect(dt);
    }
}

} // verus!
