use ascii_render::frame::Frame;
use ascii_render::scanner::{Segment, scan_row};

/// A frame one pixel row high: 255 for a bright pixel, 0 for a dark one.
fn row_frame(bits: &[bool], left: u16, top: u16) -> Frame {
    let mut buffer = Vec::new();
    for &b in bits {
        let v = if b { 255 } else { 0 };
        buffer.push(v);
        buffer.push(v);
        buffer.push(v);
        buffer.push(255);
    }
    Frame { buffer, width: bits.len() as u16, height: 1, left, top, delay: 0 }
}

#[test]
fn dark_row_yields_no_segments() {
    let frame = row_frame(&[false; 6], 0, 0);
    let segs = scan_row(&frame, 0, 1, 1, 3);
    assert!(segs.is_empty());
}

#[test]
fn single_bright_run_becomes_one_segment() {
    let frame = row_frame(&[false, true, true, false, false], 0, 0);
    let segs = scan_row(&frame, 0, 1, 1, 3);
    assert_eq!(segs, vec![Segment { x: 1, len: 2 }]);
}

#[test]
fn fully_bright_row_is_tiled_with_capped_segments() {
    let frame = row_frame(&[true; 7], 0, 0);
    let segs = scan_row(&frame, 0, 1, 1, 3);
    assert_eq!(
        segs,
        vec![
            Segment { x: 0, len: 3 },
            Segment { x: 3, len: 3 },
            Segment { x: 6, len: 1 },
        ]
    );
}

#[test]
fn long_run_is_capped_and_rescanned_at_the_boundary() {
    // a bright run of 5 with cap 3: one full segment, then the remainder
    let frame = row_frame(&[true, true, true, true, true, false], 0, 0);
    let segs = scan_row(&frame, 0, 1, 1, 3);
    assert_eq!(segs, vec![Segment { x: 0, len: 3 }, Segment { x: 3, len: 2 }]);
    for s in &segs {
        assert!(s.len >= 1 && s.len <= 3);
    }
}

#[test]
fn separate_runs_become_separate_segments() {
    let frame = row_frame(&[true, false, true, true, false, true], 0, 0);
    let segs = scan_row(&frame, 0, 1, 1, 4);
    assert_eq!(
        segs,
        vec![
            Segment { x: 0, len: 1 },
            Segment { x: 2, len: 2 },
            Segment { x: 5, len: 1 },
        ]
    );
}

#[test]
fn segments_carry_absolute_pixel_positions() {
    let frame = row_frame(&[false, true, true], 4, 0);
    let segs = scan_row(&frame, 0, 1, 1, 3);
    assert_eq!(segs, vec![Segment { x: 5, len: 2 }]);
}

#[test]
fn block_sized_steps_group_pixels() {
    // blocks of two pixels: averages 127, 127, 0 -> two bright blocks
    let frame = row_frame(&[true, false, false, true, false, false], 0, 0);
    let segs = scan_row(&frame, 0, 2, 1, 3);
    assert_eq!(segs, vec![Segment { x: 0, len: 2 }]);
}

#[test]
fn scanning_twice_yields_identical_segments() {
    let frame = row_frame(&[true, true, false, true, false, true, true, true], 0, 0);
    let first = scan_row(&frame, 0, 1, 1, 2);
    for _ in 0..4 {
        assert_eq!(scan_row(&frame, 0, 1, 1, 2), first);
    }
}
