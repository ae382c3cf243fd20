use ascii_render::ConfigError;
use ascii_render::scheduler::{Scheduler, derive_block_size, remaining_delay_ms};

#[test]
fn block_size_is_pixels_per_cell() {
    assert_eq!(derive_block_size(100, 80, 10, 8), Ok((10, 10)));
    assert_eq!(derive_block_size(105, 83, 10, 8), Ok((10, 10)));
    assert_eq!(derive_block_size(10, 8, 10, 8), Ok((1, 1)));
}

#[test]
fn frame_narrower_than_the_terminal_is_fatal() {
    // 100 columns against a first frame of width 50
    assert_eq!(derive_block_size(50, 200, 100, 20), Err(ConfigError::ImageTooSmall));
    let mut scheduler = Scheduler::new();
    assert_eq!(scheduler.start(50, 200, 100, 20), Err(ConfigError::ImageTooSmall));
    assert!(!scheduler.is_running());
}

#[test]
fn frame_shorter_than_the_terminal_is_fatal() {
    assert_eq!(derive_block_size(200, 10, 100, 20), Err(ConfigError::ImageTooSmall));
}

#[test]
fn scheduler_fixes_the_block_size_once() {
    let mut scheduler = Scheduler::new();
    assert!(!scheduler.is_running());
    assert_eq!(scheduler.start(100, 80, 10, 8), Ok((10, 10)));
    assert!(scheduler.is_running());
    assert_eq!(scheduler.block_size(), (10, 10));
}

#[test]
fn fast_render_waits_out_the_declared_delay() {
    // delay 10 (100 ms), render done in 10 ms: wait about 90 ms more
    assert_eq!(remaining_delay_ms(10, 10), 90);
}

#[test]
fn slow_render_does_not_wait() {
    assert_eq!(remaining_delay_ms(10, 100), 0);
    assert_eq!(remaining_delay_ms(10, 250), 0);
    assert_eq!(remaining_delay_ms(0, 0), 0);
}
