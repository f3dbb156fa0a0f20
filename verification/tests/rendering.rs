//! The diagnostic sink: pixel rendering against the built-in font.

use font8x8::UnicodeFonts;
use ion_loader::logger::{self, FrameBufferInfo, Logger, PixelFormat};

fn test_info() -> FrameBufferInfo {
    FrameBufferInfo {
        horizontal_resolution: 64,
        vertical_resolution: 48,
        pixel_format: PixelFormat::RGB,
        bits_per_pixel: 4,
        stride: 80,
    }
}

fn fresh_logger() -> Logger {
    let info = test_info();
    let buf = vec![0u8; info.stride * info.vertical_resolution * info.bits_per_pixel];
    logger::init(buf, info)
}

#[test]
fn glyph_pixels_match_the_font() {
    let mut lg = fresh_logger();
    lg.write_char('A');
    assert_eq!(lg.cursor_x(), 8);
    assert_eq!(lg.cursor_y(), 0);

    let info = test_info();
    let glyph = font8x8::BASIC_FONTS.get('A').unwrap();
    let buf = lg.buffer_bytes();
    for dy in 0..8usize {
        for dx in 0..8usize {
            let lit = (glyph[dy] >> dx) & 1 == 1;
            let expected: [u8; 4] = if lit { [255, 255, 127, 0] } else { [0, 0, 0, 0] };
            let idx = (dy * info.stride + dx) * info.bits_per_pixel;
            assert_eq!(&buf[idx..idx + 4], &expected, "pixel ({dx},{dy})");
        }
    }
}

#[test]
fn bgr_ordering_swaps_the_channels() {
    let info = FrameBufferInfo { pixel_format: PixelFormat::BGR, ..test_info() };
    let buf = vec![0u8; info.stride * info.vertical_resolution * info.bits_per_pixel];
    let mut lg = logger::init(buf, info);
    // the exclamation glyph has lit pixels in its first rows
    lg.write_char('!');
    let glyph = font8x8::BASIC_FONTS.get('!').unwrap();
    let (mut dx, mut dy) = (0, 0);
    'outer: for y in 0..8usize {
        for x in 0..8usize {
            if (glyph[y] >> x) & 1 == 1 {
                dx = x;
                dy = y;
                break 'outer;
            }
        }
    }
    let idx = (dy * info.stride + dx) * info.bits_per_pixel;
    assert_eq!(&lg.buffer_bytes()[idx..idx + 4], &[127, 255, 255, 0]);
}

#[test]
fn newline_and_carriage_return_move_the_cursor() {
    let mut lg = fresh_logger();
    lg.write_char('A');
    lg.write_char('B');
    assert_eq!(lg.cursor_x(), 16);
    lg.write_char('\r');
    assert_eq!(lg.cursor_x(), 0);
    assert_eq!(lg.cursor_y(), 0);
    lg.write_char('\n');
    assert_eq!(lg.cursor_x(), 0);
    assert_eq!(lg.cursor_y(), 16);
}

#[test]
fn scroll_lock_holds_the_line() {
    let mut lg = fresh_logger();
    logger::set_scroll_lock(&mut lg, true);
    lg.write_char('\n');
    assert_eq!(lg.cursor_y(), 0);
    logger::set_scroll_lock(&mut lg, false);
    lg.write_char('\n');
    assert_eq!(lg.cursor_y(), 16);
}

#[test]
fn line_wraps_at_the_right_edge() {
    let mut lg = fresh_logger();
    for _ in 0..8 {
        lg.write_char('X');
    }
    // width 64 holds exactly eight glyph cells
    assert_eq!(lg.cursor_x(), 64);
    assert_eq!(lg.cursor_y(), 0);
    // the ninth one starts the next line
    lg.write_char('X');
    assert_eq!(lg.cursor_x(), 8);
    assert_eq!(lg.cursor_y(), 16);
}

#[test]
fn clear_blanks_everything() {
    let mut lg = fresh_logger();
    lg.write_char('W');
    logger::clear(&mut lg);
    assert_eq!(lg.cursor_x(), 0);
    assert_eq!(lg.cursor_y(), 0);
    assert!(lg.buffer_bytes().iter().all(|b| *b == 0));
}

#[test]
fn untouched_pixels_stay_untouched() {
    let mut lg = fresh_logger();
    lg.write_char('M');
    let info = test_info();
    let buf = lg.buffer_bytes();
    // a pixel well outside the 8x8 block is still blank
    let idx = (20 * info.stride + 20) * info.bits_per_pixel;
    assert_eq!(&buf[idx..idx + 4], &[0, 0, 0, 0]);
}
