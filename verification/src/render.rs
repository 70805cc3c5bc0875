use vstd::prelude::*;

verus! {

/// The next image of a render surface could not be acquired.
#[derive(Debug, Clone, Copy)]
pub struct AcquireError;

/// A finished image could not be presented.
#[derive(Debug, Clone, Copy)]
pub struct PresentError;

/// Where a rendered image is saved, and its size in pixels.
#[derive(Debug, Clone)]
pub struct ImageDescriptor {
    /// The path of the file that receives the image.
    pub path: String,
    pub width: u32,
    pub height: u32,
}

/// The parameters of the ray-tracing kernel as a scene is set up with.
#[derive(Debug, Clone, Copy)]
pub struct ShaderDescriptor {
    /// The largest number of bounces of a ray.
    pub max_bounces: u8,
    /// The number of samples per pixel.
    pub samples: u16,
}

/// The parameters of the ray-tracing kernel in the width the kernel reads.
#[derive(Debug, Clone, Copy, PartialEq, Eq, Structural)]
pub struct ShaderConstants {
    pub max_bounce_count: u32,
    pub nb_samples: u32,
}

impl ShaderDescriptor {
    /// The kernel constants for this descriptor: the same two numbers,
    /// widened.
    pub fn constants(&self) -> (r: ShaderConstants)
        ensures
            r.max_bounce_count == self.max_bounces,
            r.nb_samples == self.samples,
    {
        ShaderConstants { max_bounce_count: self.max_bounces as u32, nb_samples: self.samples as u32 }
    }
}

} // verus!
