//! The decoded animation frame as the rendering engine sees it: an RGBA
//! pixel buffer together with its placement on the canvas and its declared
//! display delay.

use vstd::prelude::*;

verus! {

/// One decoded frame. `buffer` holds four bytes (red, green, blue, alpha)
/// per pixel, row by row. `left` and `top` place the frame's sub-canvas on
/// the full image; `delay` is the declared display duration in hundredths
/// of a second.
pub struct Frame {
    pub buffer: Vec<u8>,
    pub width: u16,
    pub height: u16,
    pub left: u16,
    pub top: u16,
    pub delay: u16,
}

impl Frame {
    /// Well-formedness: the buffer holds exactly four bytes per pixel, and
    /// the frame lies within a canvas addressable by 16-bit coordinates.
    pub open spec fn wf(&self) -> bool {
        &&& self.buffer@.len() == 4 * (self.width as int) * (self.height as int)
        &&& self.left + self.width <= u16::MAX
        &&& self.top + self.height <= u16::MAX
    }
}

} // verus!
