//! The row scanner: walks one pixel row of a frame in cell-sized steps,
//! skips dark blocks, and greedily extends each run of bright blocks into a
//! segment, capped at the catalog's longest token length. Scanning resumes
//! at the end of each segment, so segments never overlap.

use vstd::prelude::*;
use vstd::math::clip;
use crate::frame::Frame;
use crate::sampler::is_bright;
use crate::sampler::is_bright_spec;

verus! {

/// Everything one row scan depends on: the frame's pixel data and
/// geometry, the row `y`, the cell-block size and the segment cap.
pub ghost struct RowEnv {
    pub buf: Seq<u8>,
    pub width: int,
    pub height: int,
    pub left: int,
    pub top: int,
    pub y: int,
    pub sx: int,
    pub sy: int,
    pub max_len: int,
}

/// One past the rightmost pixel column of the row.
pub open spec fn row_right(env: RowEnv) -> int {
    env.left + env.width
}

/// Whether the cell block anchored at pixel column `x` of the row is
/// bright.
pub open spec fn bright_at(env: RowEnv, x: int) -> bool {
    is_bright_spec(
        env.buf,
        env.width,
        env.height,
        env.left,
        env.top,
        x,
        env.y,
        env.sx,
        env.sy,
    )
}

/// The cursor position of the first bright block at or after `x`, stepping
/// by `sx`; past the row's right edge if the rest of the row is dark.
pub open spec fn find_bright(env: RowEnv, x: int) -> int
    decreases clip(row_right(env) - x),
        when env.sx >= 1
{
    if x >= row_right(env) {
        x
    } else if bright_at(env, x) {
        x
    } else {
        find_bright(env, x + env.sx)
    }
}

/// How many consecutive bright blocks start at `x`, counting at most `cap`.
pub open spec fn run_len(env: RowEnv, x: int, cap: int) -> int
    decreases clip(cap),
{
    if cap <= 0 || x >= row_right(env) || !bright_at(env, x) {
        0
    } else {
        1 + run_len(env, x + env.sx, cap - 1)
    }
}

proof fn lemma_find_bright(env: RowEnv, x: int)
    requires
        env.sx >= 1,
    ensures
        find_bright(env, x) >= x,
        find_bright(env, x) < row_right(env) ==> bright_at(env, find_bright(env, x)),
    decreases clip(row_right(env) - x),
{
    if x >= row_right(env) {
    } else if bright_at(env, x) {
    } else {
        lemma_find_bright(env, x + env.sx);
    }
}

proof fn lemma_run_len_bounds(env: RowEnv, x: int, cap: int)
    requires
        env.sx >= 1,
    ensures
        0 <= run_len(env, x, cap),
        run_len(env, x, cap) <= clip(cap),
    decreases clip(cap),
{
    if !(cap <= 0 || x >= row_right(env) || !bright_at(env, x)) {
        lemma_run_len_bounds(env, x + env.sx, cap - 1);
    }
}

/// The segments of the row from cursor `x` on: each is a pair of its
/// starting pixel column and its length in blocks.
pub open spec fn scan_from(env: RowEnv, x: int) -> Seq<(int, int)>
    decreases clip(row_right(env) - x),
        when env.sx >= 1 && env.max_len >= 1
        via scan_from_decreases
{
    let b = find_bright(env, x);
    if b >= row_right(env) {
        Seq::empty()
    } else {
        let l = run_len(env, b, env.max_len);
        seq![(b, l)] + scan_from(env, b + l * env.sx)
    }
}

#[via_fn]
proof fn scan_from_decreases(env: RowEnv, x: int) {
    lemma_find_bright(env, x);
    let b = find_bright(env, x);
    if b < row_right(env) {
        let l = run_len(env, b, env.max_len);
        lemma_run_len_bounds(env, b + env.sx, env.max_len - 1);
        assert(l >= 1);
        assert(l * env.sx >= env.sx) by (nonlinear_arith)
            requires
                l >= 1,
                env.sx >= 1;
    }
}

/// The full scan of one row, starting at its left edge.
pub open spec fn spec_scan_row(env: RowEnv) -> Seq<(int, int)> {
    scan_from(env, env.left)
}

/// The row environment a frame and scan parameters give rise to.
pub open spec fn frame_row_env(f: &Frame, y: int, sx: int, sy: int, max_len: int) -> RowEnv {
    RowEnv {
        buf: f.buffer@,
        width: f.width as int,
        height: f.height as int,
        left: f.left as int,
        top: f.top as int,
        y,
        sx,
        sy,
        max_len,
    }
}

/// One scanned segment: a run of bright blocks starting at pixel column
/// `x`, `len` blocks (hence `len * sx` pixels) long.
#[derive(Clone, Copy, Debug, PartialEq, Eq, Structural)]
pub struct Segment {
    pub x: u16,
    pub len: u16,
}

/// The (position, length) pairs of a list of segments.
pub open spec fn seg_views(s: Seq<Segment>) -> Seq<(int, int)> {
    s.map_values(|g: Segment| (g.x as int, g.len as int))
}

proof fn lemma_scan_skip_dark(env: RowEnv, x: int)
    requires
        env.sx >= 1,
        env.max_len >= 1,
        x < row_right(env),
        !bright_at(env, x),
    ensures
        scan_from(env, x) == scan_from(env, x + env.sx),
{
    assert(find_bright(env, x) == find_bright(env, x + env.sx));
}

/// Scanning is free of hidden state: the same pixel data, geometry, row
/// and cap always yield the identical sequence of (position, length)
/// pairs, however often the row is scanned.
pub proof fn lemma_scan_row_deterministic(env1: RowEnv, env2: RowEnv)
    requires
        env1 == env2,
    ensures
        spec_scan_row(env1) == spec_scan_row(env2),
{
}

/// Every segment a scan emits covers at least one block and never more
/// than `max_len` blocks: bright runs longer than the cap are truncated at
/// the cap, never emitted whole.
pub proof fn lemma_segment_cap(env: RowEnv, x: int)
    requires
        env.sx >= 1,
        env.max_len >= 1,
    ensures
        forall|i: int|
            0 <= i < scan_from(env, x).len() ==> 1 <= (#[trigger] scan_from(env, x)[i]).1
                <= env.max_len,
    decreases clip(row_right(env) - x),
{
    lemma_find_bright(env, x);
    let b = find_bright(env, x);
    if b < row_right(env) {
        let l = run_len(env, b, env.max_len);
        lemma_run_len_bounds(env, b, env.max_len);
        lemma_run_len_bounds(env, b + env.sx, env.max_len - 1);
        assert(l >= 1);
        assert(l * env.sx >= env.sx) by (nonlinear_arith)
            requires
                l >= 1,
                env.sx >= 1;
        lemma_segment_cap(env, b + l * env.sx);
        let rest = scan_from(env, b + l * env.sx);
        assert(scan_from(env, x) == seq![(b, l)] + rest);
        assert forall|i: int| 0 <= i < scan_from(env, x).len() implies 1 <= (
        #[trigger] scan_from(env, x)[i]).1 <= env.max_len by {
            if i >= 1 {
                assert(scan_from(env, x)[i] == rest[i - 1]);
            }
        }
    }
}

/// A stretch of row whose blocks are all dark yields no segment at all.
/// The blocks are the cursor positions `x + k * sx` within the row.
pub proof fn lemma_dark_row_empty(env: RowEnv, x: int)
    requires
        env.sx >= 1,
        env.max_len >= 1,
        forall|k: int|
            0 <= k && x + k * env.sx < row_right(env) ==> !bright_at(env, #[trigger] (x + k
                * env.sx)),
    ensures
        scan_from(env, x).len() == 0,
    decreases clip(row_right(env) - x),
{
    if x < row_right(env) {
        assert(x + 0 * env.sx == x);
        assert(!bright_at(env, x));
        assert forall|k: int|
            0 <= k && (x + env.sx) + k * env.sx < row_right(env) implies !bright_at(
            env,
            #[trigger] ((x + env.sx) + k * env.sx),
        ) by {
            assert(x + (k + 1) * env.sx == (x + env.sx) + k * env.sx) by (nonlinear_arith);
            assert(!bright_at(env, x + (k + 1) * env.sx));
        }
        lemma_dark_row_empty(env, x + env.sx);
        lemma_scan_skip_dark(env, x);
    }
}

/// A stretch of row whose blocks are all bright is tiled with capped
/// segments: the count times the widest possible segment, `max_len * sx`
/// pixels, covers the stretch. In particular a fully bright row yields at
/// least the ceiling of `width / (max_len * sx)` segments.
pub proof fn lemma_bright_row_coverage(env: RowEnv, x: int)
    requires
        env.sx >= 1,
        env.max_len >= 1,
        forall|k: int|
            0 <= k && x + k * env.sx < row_right(env) ==> bright_at(env, #[trigger] (x + k
                * env.sx)),
    ensures
        scan_from(env, x).len() * (env.max_len * env.sx) >= row_right(env) - x,
    decreases clip(row_right(env) - x),
{
    let right = row_right(env);
    if x >= right {
        assert(scan_from(env, x).len() * (env.max_len * env.sx) >= 0) by (nonlinear_arith)
            requires
                scan_from(env, x).len() >= 0,
                env.max_len >= 1,
                env.sx >= 1;
    } else {
        assert(x + 0 * env.sx == x);
        assert(bright_at(env, x));
        assert(find_bright(env, x) == x);
        let l = run_len(env, x, env.max_len);
        lemma_run_len_bounds(env, x, env.max_len);
        lemma_run_len_bounds(env, x + env.sx, env.max_len - 1);
        assert(l >= 1);
        let d = l * env.sx;
        assert(env.sx <= d && d <= env.max_len * env.sx) by (nonlinear_arith)
            requires
                d == l * env.sx,
                1 <= l,
                l <= env.max_len,
                env.sx >= 1;
        assert forall|k: int|
            0 <= k && (x + d) + k * env.sx < right implies bright_at(
            env,
            #[trigger] ((x + d) + k * env.sx),
        ) by {
            assert(x + (k + l) * env.sx == (x + d) + k * env.sx) by (nonlinear_arith)
                requires
                    d == l * env.sx;
            assert(x + (k + l) * env.sx < right);
            assert(bright_at(env, x + (k + l) * env.sx));
        }
        lemma_bright_row_coverage(env, x + d);
        let n = scan_from(env, x + d).len() as int;
        assert(scan_from(env, x) == seq![(x, l)] + scan_from(env, x + d));
        assert(scan_from(env, x).len() == n + 1);
        assert((n + 1) * (env.max_len * env.sx) >= right - x) by (nonlinear_arith)
            requires
                n * (env.max_len * env.sx) >= right - (x + d),
                d <= env.max_len * env.sx;
    }
}

/// Scans one pixel row of the frame: skips dark blocks, extends each
/// bright run into a segment of at most `max_len` blocks, and resumes past
/// the segment's end. Returns exactly the segments `spec_scan_row` lists.
pub fn scan_row(frame: &Frame, y: u16, sx: u16, sy: u16, max_len: usize) -> (r: Vec<Segment>)
    requires
        frame.wf(),
        1 <= sx,
        1 <= sy,
        sx * sy <= u16::MAX,
        1 <= max_len,
        frame.top <= y,
    ensures
        seg_views(r@) == spec_scan_row(
            frame_row_env(frame, y as int, sx as int, sy as int, max_len as int),
        ),
{
    let ghost env = frame_row_env(frame, y as int, sx as int, sy as int, max_len as int);
    let right: u32 = frame.left as u32 + frame.width as u32;
    let mut segs: Vec<Segment> = Vec::new();
    let mut x: u32 = frame.left as u32;
    proof {
        assert(seg_views(segs@) + scan_from(env, x as int) =~= scan_from(env, env.left));
    }
    while x < right
        invariant
            frame.wf(),
            1 <= sx && 1 <= sy && 1 <= max_len,
            sx * sy <= u16::MAX,
            frame.top <= y,
            env == frame_row_env(frame, y as int, sx as int, sy as int, max_len as int),
            right as int == row_right(env),
            right <= 0xFFFF,
            frame.left as u32 <= x,
            x <= 0x2_0000,
            seg_views(segs@) + scan_from(env, x as int) == spec_scan_row(env),
        decreases clip(right as int - x as int),
    {
        if !is_bright(frame, x as u16, y, sx, sy) {
            proof {
                lemma_scan_skip_dark(env, x as int);
            }
            x = x + sx as u32;
        } else {
            // a bright run starts here; extend it up to the cap
            let start: u32 = x;
            let ghost b = x as int;
            let mut cnt: u32 = 0;
            let mut x_end: u32 = x;
            proof {
                assert(find_bright(env, b) == b);
            }
            loop
                invariant_except_break
                    frame.wf(),
                    1 <= sx && 1 <= sy && 1 <= max_len,
                    sx * sy <= u16::MAX,
                    frame.top <= y,
                    env == frame_row_env(frame, y as int, sx as int, sy as int, max_len as int),
                    right as int == row_right(env),
                    right <= 0xFFFF,
                    frame.left as int <= b,
                    b < right as int,
                    bright_at(env, b),
                    cnt as int <= max_len as int,
                    x_end as int == b + (cnt as int) * (sx as int),
                    x_end as int <= row_right(env) - 1 + env.sx,
                    x_end <= 0x2_0000,
                    run_len(env, b, env.max_len) == cnt as int + run_len(
                        env,
                        x_end as int,
                        env.max_len - cnt as int,
                    ),
                ensures
                    frame.wf(),
                    env == frame_row_env(frame, y as int, sx as int, sy as int, max_len as int),
                    1 <= cnt,
                    cnt as int <= max_len as int,
                    x_end as int == b + (cnt as int) * (sx as int),
                    x_end as int <= row_right(env) - 1 + env.sx,
                    x_end <= 0x2_0000,
                    run_len(env, b, env.max_len) == cnt as int,
                decreases env.max_len - cnt as int,
            {
                if !(x_end < right) {
                    proof {
                        assert(run_len(env, x_end as int, env.max_len - cnt as int) == 0);
                        assert((cnt as int) * (sx as int) >= 1) by (nonlinear_arith)
                            requires
                                (cnt as int) * (sx as int) >= right as int - b,
                                right as int - b >= 1;
                    }
                    break ;
                }
                let more = (cnt as usize) < max_len;
                if !more {
                    proof {
                        assert(run_len(env, x_end as int, env.max_len - cnt as int) == 0);
                    }
                    break ;
                }
                if !is_bright(frame, x_end as u16, y, sx, sy) {
                    proof {
                        assert(run_len(env, x_end as int, env.max_len - cnt as int) == 0);
                        if cnt == 0 {
                            assert((cnt as int) * (sx as int) == 0);
                            assert(x_end as int == b);
                            assert(false);
                        }
                    }
                    break ;
                }
                proof {
                    assert(run_len(env, x_end as int, env.max_len - cnt as int) == 1 + run_len(
                        env,
                        x_end as int + env.sx,
                        env.max_len - cnt as int - 1,
                    ));
                    assert((cnt as int + 1) * (sx as int) == (cnt as int) * (sx as int) + (
                    sx as int)) by (nonlinear_arith);
                }
                proof {
                    assert((cnt as int) <= (cnt as int) * (sx as int)) by (nonlinear_arith)
                        requires
                            cnt as int >= 0,
                            sx as int >= 1;
                }
                x_end = x_end + sx as u32;
                cnt = cnt + 1;
            }
            proof {
                // the count fits a cell coordinate
                assert((cnt as int) * (sx as int) <= env.width - 1 + env.sx);
                assert((cnt as int - 1) * (sx as int) <= env.width - 1) by (nonlinear_arith)
                    requires
                        ((cnt as int) * (sx as int) <= env.width - 1 + env.sx),
                        (env.sx == sx as int);
                assert(cnt as int - 1 <= (cnt as int - 1) * (sx as int)) by (nonlinear_arith)
                    requires
                        (cnt as int >= 1),
                        (sx as int >= 1);
                assert(cnt as int <= env.width);
                assert(env.width <= 0xFFFF);
                assert(scan_from(env, b) == seq![(b, cnt as int)] + scan_from(
                    env,
                    b + (cnt as int) * env.sx,
                ));
            }
            let seg = Segment { x: start as u16, len: cnt as u16 };
            segs.push(seg);
            proof {
                assert(seg_views(segs@) =~= seg_views(segs@.drop_last()).push(
                    (seg.x as int, seg.len as int),
                ));
                assert(seg_views(segs@) + scan_from(env, x_end as int) =~= spec_scan_row(env));
            }
            x = x_end;
        }
    }
    proof {
        assert(scan_from(env, x as int) =~= Seq::<(int, int)>::empty());
        assert(seg_views(segs@) =~= spec_scan_row(env));
    }
    segs
}

} // verus!
