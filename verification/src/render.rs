//! The frame renderer: runs the row scanner over every cell row of a
//! frame and turns each segment into a placement — a cell coordinate plus
//! a token of the segment's exact length picked from the catalog. The
//! caller writes the placements out; the renderer itself touches no
//! output device.

use vstd::prelude::*;
use vstd::math::clip;
use crate::catalog::Catalog;
use crate::frame::Frame;
use crate::scanner::RowEnv;
use crate::scanner::frame_row_env;
use crate::scanner::lemma_segment_cap;
use crate::scanner::scan_row;
use crate::scanner::seg_views;
use crate::scanner::spec_scan_row;

verus! {

/// The same scan environment, aimed at another row.
pub open spec fn set_y(env: RowEnv, y: int) -> RowEnv {
    RowEnv { y, ..env }
}

/// One past the bottom pixel row of the frame.
pub open spec fn row_bottom(env: RowEnv) -> int {
    env.top + env.height
}

/// All segments of the frame from pixel row `y` down, in row-major order:
/// triples of starting pixel column, pixel row, and length in blocks.
pub open spec fn scan_rows(env: RowEnv, y: int) -> Seq<(int, int, int)>
    decreases clip(row_bottom(env) - y),
        when env.sy >= 1
{
    if y >= row_bottom(env) {
        Seq::empty()
    } else {
        spec_scan_row(set_y(env, y)).map_values(|s: (int, int)| (s.0, y, s.1)) + scan_rows(
            env,
            y + env.sy,
        )
    }
}

/// All segments of the frame, from its top row down.
pub open spec fn spec_scan_frame(env: RowEnv) -> Seq<(int, int, int)> {
    scan_rows(env, env.top)
}

/// A frame scan is free of hidden state: the same pixel data, geometry,
/// block size and cap always lead to the identical row-major sequence of
/// (column, row, length) triples, token choice aside.
pub proof fn lemma_scan_frame_deterministic(env1: RowEnv, env2: RowEnv)
    requires
        env1 == env2,
    ensures
        spec_scan_frame(env1) == spec_scan_frame(env2),
{
}

/// One placement: print `token` at cell column `col`, cell row `row`.
pub struct Placement {
    pub col: u16,
    pub row: u16,
    pub token: Vec<u8>,
}

/// An owned copy of a byte vector.
fn copy_bytes(src: &Vec<u8>) -> (r: Vec<u8>)
    ensures
        r@ == src@,
{
    let mut r: Vec<u8> = Vec::new();
    let mut i: usize = 0;
    while i < src.len()
        invariant
            i <= src@.len(),
            r@ == src@.subrange(0, i as int),
        decreases src@.len() - i,
    {
        r.push(src[i]);
        proof {
            assert(r@ =~= src@.subrange(0, i as int + 1));
        }
        i = i + 1;
    }
    proof {
        assert(src@.subrange(0, src@.len() as int) =~= src@);
    }
    r
}

/// Renders one frame into placements: every row from the frame's top edge
/// down, in steps of `sy`, is scanned, and each segment becomes a token of
/// the segment's exact length at the segment's cell coordinates. Returns
/// `None` exactly when some scanned segment's bucket holds no token.
pub fn render(frame: &Frame, catalog: &Catalog, sx: u16, sy: u16) -> (r: Option<Vec<Placement>>)
    requires
        frame.wf(),
        catalog.wf(),
        1 <= sx,
        1 <= sy,
        sx * sy <= u16::MAX,
    ensures
        ({
            let env = frame_row_env(
                frame,
                frame.top as int,
                sx as int,
                sy as int,
                catalog@.len() as int,
            );
            let segs = spec_scan_frame(env);
            match r {
                Some(ps) => {
                    &&& forall|i: int|
                        0 <= i < segs.len() ==> catalog@[(#[trigger] segs[i]).2 - 1].len() >= 1
                    &&& ps@.len() == segs.len()
                    &&& forall|i: int|
                        0 <= i < segs.len() ==> {
                            let p = #[trigger] ps@[i];
                            &&& p.col == segs[i].0 / (sx as int)
                            &&& p.row == segs[i].1 / (sy as int)
                            &&& p.token@.len() == segs[i].2
                            &&& catalog@[segs[i].2 - 1].contains(p.token@)
                        }
                },
                None => exists|i: int|
                    0 <= i < segs.len() && catalog@[(#[trigger] segs[i]).2 - 1].len() == 0,
            }
        }),
{
    let max_len = catalog.max_len();
    let ghost env = frame_row_env(frame, frame.top as int, sx as int, sy as int, max_len as int);
    let ghost full = spec_scan_frame(env);
    let bot: u32 = frame.top as u32 + frame.height as u32;
    let mut out: Vec<Placement> = Vec::new();
    let ghost mut done: int = 0;
    let mut y: u32 = frame.top as u32;
    proof {
        assert(full.skip(0) =~= full);
    }
    while y < bot
        invariant
            frame.wf(),
            catalog.wf(),
            1 <= sx && 1 <= sy,
            sx * sy <= u16::MAX,
            max_len as int == catalog@.len(),
            env == frame_row_env(frame, frame.top as int, sx as int, sy as int, max_len as int),
            full == spec_scan_frame(env),
            bot as int == row_bottom(env),
            bot <= 0xFFFF,
            frame.top as u32 <= y,
            y <= 0x2_0000,
            0 <= done && done <= full.len(),
            out@.len() == done,
            full.skip(done) == scan_rows(env, y as int),
            forall|i: int| 0 <= i < done ==> catalog@[(#[trigger] full[i]).2 - 1].len() >= 1,
            forall|i: int|
                0 <= i < done ==> {
                    let p = #[trigger] out@[i];
                    &&& p.col == full[i].0 / (sx as int)
                    &&& p.row == full[i].1 / (sy as int)
                    &&& p.token@.len() == full[i].2
                    &&& catalog@[full[i].2 - 1].contains(p.token@)
                },
        decreases clip(bot as int - y as int),
    {
        let segs = scan_row(frame, y as u16, sx, sy, max_len);
        let ghost row_env = set_y(env, y as int);
        let ghost row_triples = spec_scan_row(row_env).map_values(
            |s: (int, int)| (s.0, y as int, s.1),
        );
        let ghost tail = scan_rows(env, y as int + sy as int);
        proof {
            assert(row_env == frame_row_env(frame, y as int, sx as int, sy as int, max_len as int));
            assert(scan_rows(env, y as int) == row_triples + tail);
            lemma_segment_cap(row_env, row_env.left);
            assert(row_triples.len() == segs@.len());
            assert forall|k: int| 0 <= k < segs@.len() implies (#[trigger] row_triples[k]) == (
                segs@[k].x as int,
                y as int,
                segs@[k].len as int,
            ) && 1 <= segs@[k].len as int <= max_len as int by {
                assert(seg_views(segs@)[k] == (segs@[k].x as int, segs@[k].len as int));
                assert(1 <= spec_scan_row(row_env)[k].1 <= row_env.max_len);
            }
        }
        let ghost done0 = done;
        let mut j: usize = 0;
        while j < segs.len()
            invariant
                frame.wf(),
                catalog.wf(),
                1 <= sx && 1 <= sy,
                sx * sy <= u16::MAX,
                max_len as int == catalog@.len(),
                env == frame_row_env(
                    frame,
                    frame.top as int,
                    sx as int,
                    sy as int,
                    max_len as int,
                ),
                full == spec_scan_frame(env),
                frame.top as u32 <= y,
                y < bot,
                bot as int == row_bottom(env),
                bot <= 0xFFFF,
                j <= segs@.len(),
                done == done0 + j as int,
                0 <= done0,
                done <= full.len(),
                full.skip(done0) == row_triples + tail,
                row_triples.len() == segs@.len(),
                forall|k: int|
                    0 <= k < segs@.len() ==> (#[trigger] row_triples[k]) == (
                        segs@[k].x as int,
                        y as int,
                        segs@[k].len as int,
                    ) && 1 <= segs@[k].len as int <= max_len as int,
                out@.len() == done,
                forall|i: int| 0 <= i < done ==> catalog@[(#[trigger] full[i]).2 - 1].len() >= 1,
                forall|i: int|
                    0 <= i < done ==> {
                        let p = #[trigger] out@[i];
                        &&& p.col == full[i].0 / (sx as int)
                        &&& p.row == full[i].1 / (sy as int)
                        &&& p.token@.len() == full[i].2
                        &&& catalog@[full[i].2 - 1].contains(p.token@)
                    },
            decreases segs@.len() - j,
        {
            let seg = segs[j];
            proof {
                assert(full.skip(done0).len() == full.len() - done0);
                assert(full.len() - done0 == row_triples.len() + tail.len());
                assert(done < full.len());
                assert(full.skip(done0)[j as int] == row_triples[j as int]);
                assert(full[done0 + j as int] == (seg.x as int, y as int, seg.len as int));
            }
            let count = catalog.bucket_count(seg.len);
            if count == 0 {
                proof {
                    assert(0 <= done < full.len());
                    assert(catalog@[(#[trigger] full[done as int]).2 - 1].len() == 0);
                }
                return None;
            }
            let token = catalog.pick(seg.len);
            let p = Placement { col: seg.x / sx, row: (y as u16) / sy, token: copy_bytes(token) };
            out.push(p);
            proof {
                done = done + 1;
            }
            j = j + 1;
        }
        proof {
            let rt = row_triples.len() as int;
            assert(full.skip(done) =~= full.skip(done0).skip(rt));
            assert((row_triples + tail).skip(rt) =~= tail);
            assert(full.skip(done) =~= tail);
        }
        y = y + sy as u32;
    }
    proof {
        assert(scan_rows(env, y as int) =~= Seq::<(int, int, int)>::empty());
        assert(full.skip(done).len() == 0);
        assert(done == full.len());
    }
    Some(out)
}

/// The byte sequence that clears the terminal: erase the display, then
/// move the cursor home. The renderer's caller writes it before each
/// frame's placements.
pub fn term_clear() -> (r: Vec<u8>)
    ensures
        r@ == seq![27u8, 91u8, 50u8, 74u8, 27u8, 91u8, 49u8, 59u8, 49u8, 72u8],
{
    let mut v: Vec<u8> = Vec::new();
    v.push(27);
    v.push(91);
    v.push(50);
    v.push(74);
    v.push(27);
    v.push(91);
    v.push(49);
    v.push(59);
    v.push(49);
    v.push(72);
    proof {
        assert(v@ =~= seq![27u8, 91u8, 50u8, 74u8, 27u8, 91u8, 49u8, 59u8, 49u8, 72u8]);
    }
    v
}

} // verus!
