//! The playback scheduler's decisions: deriving the fixed cell-block size
//! from the first frame and the terminal geometry (with the fatal
//! too-small check), holding it for the rest of the session, and computing
//! how long to wait after each rendered frame to honor its declared delay.

use vstd::prelude::*;
use crate::ConfigError;

verus! {

/// Derives the cell-block size from the first frame's pixel dimensions and
/// the terminal's column and row count: one cell is `width / columns` by
/// `height / rows` pixels. Fails exactly when the frame is narrower or
/// shorter than the terminal.
pub fn derive_block_size(frame_width: u16, frame_height: u16, columns: u16, rows: u16) -> (r:
    Result<(u16, u16), ConfigError>)
    requires
        1 <= columns,
        1 <= rows,
    ensures
        r == (if frame_width >= columns && frame_height >= rows {
            Result::<(u16, u16), ConfigError>::Ok(
                ((frame_width / columns) as u16, (frame_height / rows) as u16),
            )
        } else {
            Result::<(u16, u16), ConfigError>::Err(ConfigError::ImageTooSmall)
        }),
        r is Ok ==> r->Ok_0.0 >= 1 && r->Ok_0.1 >= 1,
{
    if frame_width >= columns && frame_height >= rows {
        proof {
            assert(frame_width as int / columns as int >= 1) by (nonlinear_arith)
                requires
                    (frame_width as int >= columns as int),
                    (columns as int >= 1);
            assert(frame_height as int / rows as int >= 1) by (nonlinear_arith)
                requires
                    (frame_height as int >= rows as int),
                    (rows as int >= 1);
        }
        Ok((frame_width / columns, frame_height / rows))
    } else {
        Err(ConfigError::ImageTooSmall)
    }
}

/// The per-session playback state: the cell-block size is unknown until
/// the first frame arrives, and set exactly once.
pub struct Scheduler {
    block: Option<(u16, u16)>,
}

impl Scheduler {
    /// The block size chosen so far, if any.
    pub closed spec fn spec_block(&self) -> Option<(u16, u16)> {
        self.block
    }

    /// A scheduler that has seen no frame yet.
    pub fn new() -> (r: Scheduler)
        ensures
            r.spec_block() is None,
    {
        Scheduler { block: None }
    }

    /// Whether the block size has been fixed already.
    pub fn is_running(&self) -> (r: bool)
        ensures
            r == self.spec_block() is Some,
    {
        self.block.is_some()
    }

    /// The fixed block size.
    pub fn block_size(&self) -> (r: (u16, u16))
        requires
            self.spec_block() is Some,
        ensures
            r == self.spec_block()->0,
    {
        match self.block {
            Some(b) => b,
            None => (1, 1),  // unreachable under the precondition
        }
    }

    /// The transition out of the uninitialized state: fixes the block size
    /// from the first frame and the terminal geometry, or fails with the
    /// fatal too-small error and stays uninitialized.
    pub fn start(&mut self, frame_width: u16, frame_height: u16, columns: u16, rows: u16) -> (r:
        Result<(u16, u16), ConfigError>)
        requires
            old(self).spec_block() is None,
            1 <= columns,
            1 <= rows,
        ensures
            frame_width >= columns && frame_height >= rows ==> {
                &&& r == Result::<(u16, u16), ConfigError>::Ok(
                    ((frame_width / columns) as u16, (frame_height / rows) as u16),
                )
                &&& final(self).spec_block() == Some(
                    ((frame_width / columns) as u16, (frame_height / rows) as u16),
                )
            },
            !(frame_width >= columns && frame_height >= rows) ==> {
                &&& r == Result::<(u16, u16), ConfigError>::Err(ConfigError::ImageTooSmall)
                &&& final(self).spec_block() is None
            },
    {
        match derive_block_size(frame_width, frame_height, columns, rows) {
            Ok(b) => {
                self.block = Some(b);
                Ok(b)
            },
            Err(e) => Err(e),
        }
    }
}

/// How many milliseconds remain of a frame's declared delay after its
/// render took `elapsed_ms`: the delay is `delay` hundredths of a second,
/// and a render that overran it leaves nothing to wait for.
pub fn remaining_delay_ms(delay: u16, elapsed_ms: u64) -> (r: u64)
    ensures
        r == (if 10 * delay > elapsed_ms {
            10 * delay - elapsed_ms
        } else {
            0
        }),
{
    let total: u64 = delay as u64 * 10;
    if total > elapsed_ms {
        total - elapsed_ms
    } else {
        0
    }
}

} // verus!
