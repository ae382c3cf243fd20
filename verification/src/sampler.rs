//! Brightness sampling: classifies one cell-sized block of a frame as
//! bright or dark by averaging a cheap per-pixel luminance proxy (the
//! maximum of the red, green and blue channels) over the block and
//! comparing the average against a fixed threshold.

use vstd::prelude::*;
use vstd::math::max3;
use vstd::math::min;
use crate::frame::Frame;

verus! {

/// Luminance proxy of the pixel at column `lx`, row `ly` of a buffer that
/// is `width` pixels wide: the largest of its red, green and blue bytes.
pub open spec fn pixel_lum(buf: Seq<u8>, width: int, lx: int, ly: int) -> int {
    let i = 4 * (ly * width + lx);
    max3(buf[i] as int, buf[i + 1] as int, buf[i + 2] as int)
}

/// Sum of the luminance proxy over one pixel column `lx`, rows `y0..y1`.
pub open spec fn col_sum(buf: Seq<u8>, width: int, lx: int, y0: int, y1: int) -> int
    decreases y1 - y0,
{
    if y0 >= y1 {
        0
    } else {
        pixel_lum(buf, width, lx, y0) + col_sum(buf, width, lx, y0 + 1, y1)
    }
}

/// Sum of the luminance proxy over the pixel rectangle with columns
/// `x0..x1` and rows `y0..y1`.
pub open spec fn block_sum(buf: Seq<u8>, width: int, x0: int, x1: int, y0: int, y1: int) -> int
    decreases x1 - x0,
{
    if x0 >= x1 {
        0
    } else {
        col_sum(buf, width, x0, y0, y1) + block_sum(buf, width, x0 + 1, x1, y0, y1)
    }
}

/// The block of a frame `width` by `height` pixels large anchored at
/// `(bx, by)` relative to the frame's own origin, `sx` by `sy` pixels in
/// extent but clamped to the frame bounds, classifies as bright when its
/// luminance sum divided by the nominal block area `sx * sy` exceeds 50.
pub open spec fn is_bright_spec(
    buf: Seq<u8>,
    width: int,
    height: int,
    left: int,
    top: int,
    x: int,
    y: int,
    sx: int,
    sy: int,
) -> bool {
    let bx = x - left;
    let by = y - top;
    block_sum(buf, width, bx, min(bx + sx, width), by, min(by + sy, height)) / (sx * sy) > 50
}

proof fn lemma_col_sum_extend(buf: Seq<u8>, width: int, lx: int, y0: int, y1: int)
    requires
        y0 <= y1,
    ensures
        col_sum(buf, width, lx, y0, y1 + 1) == col_sum(buf, width, lx, y0, y1) + pixel_lum(
            buf,
            width,
            lx,
            y1,
        ),
    decreases y1 - y0,
{
    if y0 < y1 {
        lemma_col_sum_extend(buf, width, lx, y0 + 1, y1);
    } else {
        assert(col_sum(buf, width, lx, y0 + 1, y1 + 1) == 0);
        assert(col_sum(buf, width, lx, y0, y1) == 0);
    }
}

proof fn lemma_block_sum_extend(buf: Seq<u8>, width: int, x0: int, x1: int, y0: int, y1: int)
    requires
        x0 <= x1,
    ensures
        block_sum(buf, width, x0, x1 + 1, y0, y1) == block_sum(buf, width, x0, x1, y0, y1)
            + col_sum(buf, width, x1, y0, y1),
    decreases x1 - x0,
{
    if x0 < x1 {
        lemma_block_sum_extend(buf, width, x0 + 1, x1, y0, y1);
    } else {
        assert(block_sum(buf, width, x0 + 1, x1 + 1, y0, y1) == 0);
        assert(block_sum(buf, width, x0, x1, y0, y1) == 0);
    }
}

proof fn lemma_col_sum_bounds(buf: Seq<u8>, width: int, lx: int, y0: int, y1: int)
    requires
        y0 <= y1,
    ensures
        0 <= col_sum(buf, width, lx, y0, y1) <= 255 * (y1 - y0),
    decreases y1 - y0,
{
    if y0 < y1 {
        lemma_col_sum_bounds(buf, width, lx, y0 + 1, y1);
    }
}

proof fn lemma_block_sum_bounds(buf: Seq<u8>, width: int, x0: int, x1: int, y0: int, y1: int)
    requires
        x0 <= x1,
        y0 <= y1,
    ensures
        0 <= block_sum(buf, width, x0, x1, y0, y1) <= 255 * (x1 - x0) * (y1 - y0),
    decreases x1 - x0,
{
    if x0 < x1 {
        lemma_col_sum_bounds(buf, width, x0, y0, y1);
        lemma_block_sum_bounds(buf, width, x0 + 1, x1, y0, y1);
        assert(255 * (x1 - x0) * (y1 - y0) == 255 * (y1 - y0) + 255 * (x1 - (x0 + 1)) * (y1 - y0))
            by (nonlinear_arith);
    }
}

/// Brightness of a block depends on the pixel data and the block geometry
/// alone: identical buffers and coordinates always classify identically.
pub proof fn lemma_is_bright_deterministic(
    buf1: Seq<u8>,
    buf2: Seq<u8>,
    width: int,
    height: int,
    left: int,
    top: int,
    x: int,
    y: int,
    sx: int,
    sy: int,
)
    requires
        buf1 == buf2,
    ensures
        is_bright_spec(buf1, width, height, left, top, x, y, sx, sy) == is_bright_spec(
            buf2,
            width,
            height,
            left,
            top,
            x,
            y,
            sx,
            sy,
        ),
{
}

/// Classifies the cell block anchored at absolute pixel coordinates
/// `(x, y)` of `frame` as bright or dark, averaging the per-pixel maximum
/// of the red, green and blue channels over the `sx` by `sy` block (clamped
/// to the frame bounds) and comparing against the fixed threshold of 50.
pub fn is_bright(frame: &Frame, x: u16, y: u16, sx: u16, sy: u16) -> (r: bool)
    requires
        frame.wf(),
        1 <= sx,
        1 <= sy,
        sx * sy <= u16::MAX,
        frame.left <= x,
        frame.top <= y,
    ensures
        r == is_bright_spec(
            frame.buffer@,
            frame.width as int,
            frame.height as int,
            frame.left as int,
            frame.top as int,
            x as int,
            y as int,
            sx as int,
            sy as int,
        ),
{
    let base_x: u32 = (x - frame.left) as u32;
    let base_y: u32 = (y - frame.top) as u32;
    let w: u32 = frame.width as u32;
    let h: u32 = frame.height as u32;
    let xmax: u32 = if base_x + (sx as u32) < w {
        base_x + sx as u32
    } else {
        w
    };
    let ymax: u32 = if base_y + (sy as u32) < h {
        base_y + sy as u32
    } else {
        h
    };

    let ghost buf = frame.buffer@;
    let ghost wi = frame.width as int;
    let ghost y_hi = min(base_y as int + sy as int, h as int);
    let blen: usize = frame.buffer.len();

    let mut sum: u32 = 0;
    let mut lx: u32 = base_x;
    while lx < xmax
        invariant
            frame.wf(),
            buf == frame.buffer@,
            wi == frame.width as int,
            w == frame.width as u32,
            h == frame.height as u32,
            blen == frame.buffer@.len(),
            1 <= sx && 1 <= sy,
            sx * sy <= u16::MAX,
            base_x <= 0xFFFF && base_y <= 0xFFFF,
            xmax as int == min(base_x as int + sx as int, wi),
            ymax as int == y_hi,
            y_hi == min(base_y as int + sy as int, h as int),
            base_x <= lx <= vstd::math::max(base_x as int, xmax as int),
            sum == block_sum(buf, wi, base_x as int, lx as int, base_y as int, y_hi),
        decreases xmax as int - lx as int,
    {
        // one pixel column of the block
        let mut ly: u32 = base_y;
        while ly < ymax
            invariant
                frame.wf(),
                buf == frame.buffer@,
                wi == frame.width as int,
                w == frame.width as u32,
                h == frame.height as u32,
                blen == frame.buffer@.len(),
                1 <= sx && 1 <= sy,
                sx * sy <= u16::MAX,
                base_x <= lx && lx < xmax,
                lx < w,
                base_y <= ly <= vstd::math::max(base_y as int, ymax as int),
                ymax <= h,
                xmax as int == min(base_x as int + sx as int, wi),
                ymax as int == y_hi,
                y_hi == min(base_y as int + sy as int, h as int),
                sum == block_sum(buf, wi, base_x as int, lx as int, base_y as int, y_hi) + col_sum(
                    buf,
                    wi,
                    lx as int,
                    base_y as int,
                    ly as int,
                ),
            decreases ymax as int - ly as int,
        {
            proof {
                assert(4 * (ly as int * wi + lx as int) + 3 < 4 * wi * (h as int))
                    by (nonlinear_arith)
                    requires
                        ((lx as int) < wi),
                        ((ly as int) < (h as int));
            }
            let idx: usize = (ly as usize * w as usize + lx as usize) * 4;
            let cr = frame.buffer[idx];
            let cg = frame.buffer[idx + 1];
            let cb = frame.buffer[idx + 2];
            let mut m: u8 = cr;
            if cg > m {
                m = cg;
            }
            if cb > m {
                m = cb;
            }
            proof {
                lemma_block_sum_bounds(buf, wi, base_x as int, lx as int, base_y as int, y_hi);
                lemma_col_sum_bounds(buf, wi, lx as int, base_y as int, ly as int);
                assert(255 * (lx as int - base_x) * (y_hi - base_y) + 255 * (ly as int - base_y)
                    + 255 <= 255 * (sx as int * sy as int)) by (nonlinear_arith)
                    requires
                        base_x <= lx as int,
                        lx as int - base_x < sx as int,
                        base_y <= ly as int,
                        base_y as int <= y_hi,
                        y_hi - base_y <= sy as int,
                        ly as int - base_y < y_hi - base_y,
                        1 <= sx as int,
                        1 <= sy as int;
                lemma_col_sum_extend(buf, wi, lx as int, base_y as int, ly as int);
            }
            sum = sum + m as u32;
            ly = ly + 1;
        }
        proof {
            if y_hi <= base_y as int {
                assert(col_sum(buf, wi, lx as int, base_y as int, y_hi) == 0);
                assert(col_sum(buf, wi, lx as int, base_y as int, ly as int) == 0);
            }
            assert(col_sum(buf, wi, lx as int, base_y as int, ly as int) == col_sum(
                buf,
                wi,
                lx as int,
                base_y as int,
                y_hi,
            ));
            lemma_block_sum_extend(buf, wi, base_x as int, lx as int, base_y as int, y_hi);
        }
        lx = lx + 1;
    }
    proof {
        if xmax < base_x {
            assert(block_sum(buf, wi, base_x as int, min(base_x as int + sx as int, wi), base_y as int,
                y_hi) == 0);
        }
        assert(sum == block_sum(
            buf,
            wi,
            base_x as int,
            min(base_x as int + sx as int, wi),
            base_y as int,
            min(base_y as int + sy as int, frame.height as int),
        ));
    }
    proof {
        assert((sx as int) * (sy as int) >= 1) by (nonlinear_arith)
            requires
                sx as int >= 1,
                sy as int >= 1;
    }
    let area: u32 = sx as u32 * sy as u32;
    sum / area > 50
}

} // verus!
