use ascii_render::catalog::Catalog;
use ascii_render::frame::Frame;
use ascii_render::render::{render, term_clear};

/// A frame one pixel row high: 255 for a bright pixel, 0 for a dark one.
fn row_frame(bits: &[bool], left: u16, top: u16) -> Frame {
    let mut buffer = Vec::new();
    for &b in bits {
        let v = if b { 255 } else { 0 };
        buffer.push(v);
        buffer.push(v);
        buffer.push(v);
        buffer.push(255);
    }
    Frame { buffer, width: bits.len() as u16, height: 1, left, top, delay: 0 }
}

#[test]
fn one_bright_run_yields_one_placement_of_matching_length() {
    let catalog = Catalog::build(b"a\nbb\nccc").unwrap();
    let frame = row_frame(&[false, true, true, false, false], 0, 0);
    let placements = render(&frame, &catalog, 1, 1).unwrap();
    assert_eq!(placements.len(), 1);
    assert_eq!(placements[0].col, 1);
    assert_eq!(placements[0].row, 0);
    assert_eq!(placements[0].token.len(), 2);
    assert_eq!(placements[0].token.as_slice(), b"bb");
}

#[test]
fn dark_frame_yields_no_placements() {
    let catalog = Catalog::build(b"a\nbb\nccc").unwrap();
    let frame = row_frame(&[false; 5], 0, 0);
    let placements = render(&frame, &catalog, 1, 1).unwrap();
    assert!(placements.is_empty());
}

#[test]
fn render_fails_when_a_needed_bucket_is_empty() {
    // no token of length 2 exists for the bright run of two blocks
    let catalog = Catalog::build(b"a\nccc").unwrap();
    let frame = row_frame(&[false, true, true, false], 0, 0);
    assert!(render(&frame, &catalog, 1, 1).is_none());
}

#[test]
fn placements_use_cell_coordinates() {
    let catalog = Catalog::build(b"a\nbb").unwrap();
    // two-pixel cells: the bright run covers cells 1 and 2
    let frame = row_frame(&[false, false, true, true, true, true], 0, 0);
    let placements = render(&frame, &catalog, 2, 1).unwrap();
    assert_eq!(placements.len(), 1);
    assert_eq!(placements[0].col, 1);
    assert_eq!(placements[0].token.as_slice(), b"bb");
}

#[test]
fn placements_respect_the_frame_offset() {
    let catalog = Catalog::build(b"a").unwrap();
    let frame = row_frame(&[true], 7, 3);
    let placements = render(&frame, &catalog, 1, 1).unwrap();
    assert_eq!(placements.len(), 1);
    assert_eq!(placements[0].col, 7);
    assert_eq!(placements[0].row, 3);
}

#[test]
fn every_cell_row_of_the_frame_is_scanned() {
    let catalog = Catalog::build(b"a\nbb").unwrap();
    // two rows: a run of two on the first, a run of one on the second
    let mut buffer = Vec::new();
    for v in [255u8, 255, 0, 0, 0, 255] {
        buffer.push(v);
        buffer.push(v);
        buffer.push(v);
        buffer.push(255);
    }
    let frame = Frame { buffer, width: 3, height: 2, left: 0, top: 0, delay: 0 };
    let placements = render(&frame, &catalog, 1, 1).unwrap();
    assert_eq!(placements.len(), 2);
    assert_eq!((placements[0].col, placements[0].row), (0, 0));
    assert_eq!(placements[0].token.as_slice(), b"bb");
    assert_eq!((placements[1].col, placements[1].row), (2, 1));
    assert_eq!(placements[1].token.as_slice(), b"a");
}

#[test]
fn term_clear_is_erase_display_then_home() {
    assert_eq!(term_clear().as_slice(), b"\x1b[2J\x1b[1;1H");
}
