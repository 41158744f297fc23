use vstd::prelude::*;

use crate::resolution::Resolution;

verus! {

/// A renderer that draws into a bitmap `scale` times smaller and adds the upscaled result to
/// the target.
pub struct Downscaled<R> {
    pub inner: R,
    pub scale: u32,
}

impl<R> Downscaled<R> {
    /// The resolution of the smaller bitmap drawn for a target of resolution `target`:
    /// each side divided by `scale`, rounded down.
    pub fn small_resolution(&self, target: &Resolution) -> (small: Resolution)
        requires
            self.scale > 0,
        ensures
            small.width == target.width / self.scale,
            small.height == target.height / self.scale,
    {
        Resolution::new(target.width / self.scale, target.height / self.scale)
    }
}

} // verus!
