//! Renders an animated raster image as a stream of terminal frames: bright
//! regions of each frame are covered by vocabulary tokens whose printed
//! length matches the width of the bright region.

use vstd::prelude::*;

pub mod catalog;
pub mod scanner;
pub mod frame;
pub mod render;
pub mod sampler;
pub mod scheduler;

verus! {

/// A fatal configuration failure: playback cannot start.
#[derive(Clone, Copy, Debug, PartialEq, Eq, Structural)]
pub enum ConfigError {
    /// The vocabulary source contained no usable (non-empty) token.
    EmptyVocabulary,
    /// The first frame is narrower or shorter than the terminal.
    ImageTooSmall,
}

} // verus!
