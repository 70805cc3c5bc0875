use vstd::prelude::*;

verus! {

/// How a window occupies the screen.
#[derive(Debug, Clone, Copy, PartialEq, Eq, Structural)]
pub enum Mode {
    Windowed,
    BorderlessFullscreen,
    Fullscreen,
}

/// How a window occupies the screen, with a fullscreen variant that keeps
/// the requested size.
#[derive(Debug, Clone, Copy, PartialEq, Eq, Structural)]
pub enum WindowMode {
    Windowed,
    BorderlessFullscreen,
    SizedFullscreen,
    Fullscreen,
}

/// How finished images are handed to the display.
#[derive(Debug, Clone, Copy, PartialEq, Eq, Structural)]
pub enum PresentMode {
    /// The image is presented immediately.
    Immediate,
    /// Images are queued and the newest one is presented.
    Mailbox,
    /// Images are queued and presented in order; always supported.
    Fifo,
}

/// The smallest and largest size a window may be resized to.
#[derive(Debug, Clone, Copy)]
pub struct ResizeConstraints {
    pub min_width: u32,
    pub min_height: u32,
    pub max_width: u32,
    pub max_height: u32,
}

/// The larger of two sizes.
pub open spec fn spec_max(a: u32, b: u32) -> u32 {
    if a >= b { a } else { b }
}

impl ResizeConstraints {
    /// Constraints that any window size can satisfy: every minimum is at
    /// least one pixel and no maximum lies below its minimum.
    pub open spec fn is_consistent(&self) -> bool {
        &&& 1 <= self.min_width <= self.max_width
        &&& 1 <= self.min_height <= self.max_height
    }

    /// The consistent constraints nearest to `self`: minimums raised to one
    /// pixel, maximums raised to their minimum.
    pub open spec fn checked(&self) -> ResizeConstraints {
        ResizeConstraints {
            min_width: spec_max(self.min_width, 1),
            min_height: spec_max(self.min_height, 1),
            max_width: spec_max(self.max_width, spec_max(self.min_width, 1)),
            max_height: spec_max(self.max_height, spec_max(self.min_height, 1)),
        }
    }

    /// Returns constraints with valid values: a minimum below one pixel
    /// becomes one, a maximum below its minimum becomes that minimum.
    #[must_use]
    pub fn check_constraints(&self) -> (r: Self)
        ensures
            r == self.checked(),
            r.is_consistent(),
            self.is_consistent() ==> r == *self,
    {
        let min_width: u32 = if self.min_width < 1 { 1 } else { self.min_width };
        let min_height: u32 = if self.min_height < 1 { 1 } else { self.min_height };
        let max_width: u32 = if self.max_width < min_width { min_width } else { self.max_width };
        let max_height: u32 = if self.max_height < min_height { min_height } else { self.max_height };
        Self { min_width, min_height, max_width, max_height }
    }
}

impl Default for ResizeConstraints {
    fn default() -> (r: Self)
        ensures
            r.min_width == 180,
            r.min_height == 120,
            r.max_width == u32::MAX,
            r.max_height == u32::MAX,
    {
        Self { min_width: 180, min_height: 120, max_width: u32::MAX, max_height: u32::MAX }
    }
}

/// The smallest and largest size a window may be resized to.
#[derive(Debug, Clone, Copy)]
pub struct WindowResizeConstraints {
    pub min_width: u32,
    pub min_height: u32,
    pub max_width: u32,
    pub max_height: u32,
}

impl WindowResizeConstraints {
    /// Constraints that any window size can satisfy: every minimum is at
    /// least one pixel and no maximum lies below its minimum.
    pub open spec fn is_consistent(&self) -> bool {
        &&& 1 <= self.min_width <= self.max_width
        &&& 1 <= self.min_height <= self.max_height
    }

    /// The consistent constraints nearest to `self`: minimums raised to one
    /// pixel, maximums raised to their minimum.
    pub open spec fn checked(&self) -> WindowResizeConstraints {
        WindowResizeConstraints {
            min_width: spec_max(self.min_width, 1),
            min_height: spec_max(self.min_height, 1),
            max_width: spec_max(self.max_width, spec_max(self.min_width, 1)),
            max_height: spec_max(self.max_height, spec_max(self.min_height, 1)),
        }
    }

    /// Returns constraints with valid values: a minimum below one pixel
    /// becomes one, a maximum below its minimum becomes that minimum.
    #[must_use]
    pub fn check_constraints(&self) -> (r: Self)
        ensures
            r == self.checked(),
            r.is_consistent(),
            self.is_consistent() ==> r == *self,
    {
        let min_width: u32 = if self.min_width < 1 { 1 } else { self.min_width };
        let min_height: u32 = if self.min_height < 1 { 1 } else { self.min_height };
        let max_width: u32 = if self.max_width < min_width { min_width } else { self.max_width };
        let max_height: u32 = if self.max_height < min_height { min_height } else { self.max_height };
        Self { min_width, min_height, max_width, max_height }
    }
}

impl Default for WindowResizeConstraints {
    fn default() -> (r: Self)
        ensures
            r.min_width == 180,
            r.min_height == 120,
            r.max_width == u32::MAX,
            r.max_height == u32::MAX,
    {
        Self { min_width: 180, min_height: 120, max_width: u32::MAX, max_height: u32::MAX }
    }
}

/// Checking constraints a second time changes nothing.
pub proof fn lemma_check_is_idempotent(c: ResizeConstraints, w: WindowResizeConstraints)
    ensures
        c.checked().checked() == c.checked(),
        c.checked().is_consistent(),
        w.checked().checked() == w.checked(),
        w.checked().is_consistent(),
{
}

} // verus!
