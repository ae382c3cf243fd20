use ascii_render::frame::Frame;
use ascii_render::sampler::is_bright;

/// A frame one pixel row high whose pixels are gray levels `vals`.
fn row_frame(vals: &[u8], left: u16, top: u16) -> Frame {
    let mut buffer = Vec::new();
    for &v in vals {
        buffer.push(v);
        buffer.push(v);
        buffer.push(v);
        buffer.push(255);
    }
    Frame { buffer, width: vals.len() as u16, height: 1, left, top, delay: 0 }
}

#[test]
fn bright_iff_average_exceeds_threshold() {
    let just_over = row_frame(&[51], 0, 0);
    assert!(is_bright(&just_over, 0, 0, 1, 1));
    let at_threshold = row_frame(&[50], 0, 0);
    assert!(!is_bright(&at_threshold, 0, 0, 1, 1));
}

#[test]
fn brightness_uses_the_max_channel() {
    // only the green channel is lit
    let frame = Frame {
        buffer: vec![0, 200, 0, 255],
        width: 1,
        height: 1,
        left: 0,
        top: 0,
        delay: 0,
    };
    assert!(is_bright(&frame, 0, 0, 1, 1));
}

#[test]
fn brightness_averages_over_the_block() {
    // (100 + 0) / 2 = 50: not bright; (102 + 0) / 2 = 51: bright
    let dim = row_frame(&[100, 0], 0, 0);
    assert!(!is_bright(&dim, 0, 0, 2, 1));
    let lit = row_frame(&[102, 0], 0, 0);
    assert!(is_bright(&lit, 0, 0, 2, 1));
}

#[test]
fn clamped_edge_block_still_divides_by_the_nominal_area() {
    // one 255 pixel in a block nominally 2 wide: 255 / 2 = 127 > 50
    let lit = row_frame(&[255], 0, 0);
    assert!(is_bright(&lit, 0, 0, 2, 1));
    // 90 / 2 = 45: the clamped block darkens below the threshold
    let dim = row_frame(&[90], 0, 0);
    assert!(!is_bright(&dim, 0, 0, 2, 1));
}

#[test]
fn brightness_respects_the_frame_offset() {
    let frame = row_frame(&[255, 0], 3, 2);
    assert!(is_bright(&frame, 3, 2, 1, 1));
    assert!(!is_bright(&frame, 4, 2, 1, 1));
}

#[test]
fn brightness_is_deterministic() {
    let frame = row_frame(&[80, 20, 60], 0, 0);
    for x in 0..3u16 {
        let first = is_bright(&frame, x, 0, 1, 1);
        for _ in 0..4 {
            assert_eq!(is_bright(&frame, x, 0, 1, 1), first);
        }
    }
}
