use spektra::canvas::{draw_color_bar, draw_rect_outline, gray, hline, vline, Canvas};
use spektra::export::{
    blank_export, blit_spectrogram, room_above, room_around, ExportError, BAR_WIDTH, BAR_X,
    EXPORT_HEIGHT, EXPORT_WIDTH, SPEC_H, SPEC_W, SPEC_X, SPEC_Y,
};
use spektra::pipeline::BANDS;

fn px(c: &Canvas, x: u32, y: u32) -> [u8; 4] {
    c.image.get_pixel(x, y).0
}

#[test]
fn filled_canvas() {
    let c = Canvas::filled(3, 2, [1, 2, 3, 4]);
    assert_eq!(c.width(), 3);
    assert_eq!(c.height(), 2);
    assert_eq!(px(&c, 2, 1), [1, 2, 3, 4]);
    assert_eq!(c.image.as_raw().len(), 24);
}

#[test]
fn gray_is_opaque() {
    assert_eq!(gray(80), [80, 80, 80, 255]);
}

#[test]
fn hline_paints_and_clips() {
    let mut c = Canvas::filled(5, 3, [0, 0, 0, 255]);
    hline(&mut c, 1, 9, 2, [9, 9, 9, 255]);
    assert_eq!(px(&c, 0, 2), [0, 0, 0, 255]);
    for x in 1..5 {
        assert_eq!(px(&c, x, 2), [9, 9, 9, 255]);
    }
    assert_eq!(px(&c, 1, 1), [0, 0, 0, 255]);
    let before = c.image.clone();
    hline(&mut c, 0, 5, 3, [1, 1, 1, 1]);
    assert_eq!(c.image, before);
}

#[test]
fn vline_paints_and_clips() {
    let mut c = Canvas::filled(3, 4, [0, 0, 0, 255]);
    vline(&mut c, 1, 10, 2, [7, 7, 7, 255]);
    assert_eq!(px(&c, 2, 0), [0, 0, 0, 255]);
    for y in 1..4 {
        assert_eq!(px(&c, 2, y), [7, 7, 7, 255]);
    }
    let before = c.image.clone();
    vline(&mut c, 0, 4, 3, [1, 1, 1, 1]);
    assert_eq!(c.image, before);
}

#[test]
fn rect_outline() {
    let mut c = Canvas::filled(6, 6, [0, 0, 0, 255]);
    draw_rect_outline(&mut c, 1, 1, 3, 3, [5, 5, 5, 255]);
    let on = [5, 5, 5, 255];
    let off = [0, 0, 0, 255];
    for i in 1..4 {
        assert_eq!(px(&c, i, 1), on);
        assert_eq!(px(&c, i, 4), on);
        assert_eq!(px(&c, 1, i), on);
        assert_eq!(px(&c, 4, i), on);
    }
    // the edges run up to but not including the far corner
    assert_eq!(px(&c, 4, 4), off);
    assert_eq!(px(&c, 2, 2), off);
    assert_eq!(px(&c, 0, 0), off);
    assert_eq!(px(&c, 5, 5), off);
}

#[test]
fn color_bar_bottom_up_and_opaque() {
    let mut c = Canvas::filled(4, 5, [0, 0, 0, 255]);
    let colors = [[10, 0, 0, 0], [20, 0, 0, 7], [30, 0, 0, 255]];
    draw_color_bar(&mut c, 1, 2, 1, &colors);
    assert_eq!(px(&c, 1, 3), [10, 0, 0, 255]);
    assert_eq!(px(&c, 2, 2), [20, 0, 0, 255]);
    assert_eq!(px(&c, 1, 1), [30, 0, 0, 255]);
    assert_eq!(px(&c, 0, 1), [0, 0, 0, 255]);
    assert_eq!(px(&c, 3, 2), [0, 0, 0, 255]);
    assert_eq!(px(&c, 1, 4), [0, 0, 0, 255]);
    assert_eq!(px(&c, 1, 0), [0, 0, 0, 255]);
}

#[test]
fn export_layout() {
    let c = blank_export();
    assert_eq!((c.width(), c.height()), (1400, 800));
    assert_eq!((EXPORT_WIDTH, EXPORT_HEIGHT), (1400, 800));
    assert_eq!((SPEC_X, SPEC_Y, SPEC_W, SPEC_H), (72, 62, 1218, 694));
    assert_eq!(BAR_X, 1300);
    assert_eq!(BAR_WIDTH, 14);
    assert_eq!(px(&c, 700, 400), [0, 0, 0, 255]);
}

#[test]
fn blit_rejects_short_buffer() {
    let mut c = blank_export();
    let r = blit_spectrogram(&mut c, &[0u8; 16], 2);
    assert_eq!(r, Err(ExportError::BadPixelBuffer));
    assert_eq!(ExportError::BadPixelBuffer.message(), "bad pixel buffer");
    assert_eq!(px(&c, SPEC_X, SPEC_Y), [0, 0, 0, 255]);
}

#[test]
fn blit_without_spectrogram_draws_nothing() {
    let mut c = blank_export();
    let before = c.image.clone();
    assert_eq!(blit_spectrogram(&mut c, &[], 3), Ok(()));
    assert_eq!(blit_spectrogram(&mut c, &[1, 2, 3], 0), Ok(()));
    assert_eq!(c.image, before);
}

#[test]
fn blit_scales_into_the_spectrogram_area() {
    let mut c = blank_export();
    let cols = 3;
    let mut pixels = Vec::new();
    for _ in 0..cols * BANDS {
        pixels.extend_from_slice(&[200, 10, 20, 255]);
    }
    assert_eq!(blit_spectrogram(&mut c, &pixels, cols), Ok(()));
    assert_eq!(px(&c, SPEC_X, SPEC_Y), [200, 10, 20, 255]);
    assert_eq!(px(&c, SPEC_X + SPEC_W - 1, SPEC_Y + SPEC_H - 1), [200, 10, 20, 255]);
    assert_eq!(px(&c, SPEC_X + SPEC_W, SPEC_Y), [0, 0, 0, 255]);
    assert_eq!(px(&c, SPEC_X - 1, SPEC_Y), [0, 0, 0, 255]);
    assert_eq!(px(&c, SPEC_X, SPEC_Y + SPEC_H), [0, 0, 0, 255]);
}

#[test]
fn from_raw_needs_enough_bytes() {
    assert!(Canvas::from_raw(2, 2, &[0u8; 15]).is_none());
    let c = Canvas::from_raw(2, 2, &[3u8; 16]).unwrap();
    assert_eq!((c.width(), c.height()), (2, 2));
}

#[test]
fn resized_and_overlay() {
    let src = Canvas::filled(2, 2, [50, 60, 70, 255]);
    let big = src.resized(8, 4);
    assert_eq!((big.width(), big.height()), (8, 4));
    let mut c = Canvas::filled(10, 10, [0, 0, 0, 255]);
    c.overlay(&big, 1, 2);
    assert_eq!(px(&c, 1, 2), [50, 60, 70, 255]);
    assert_eq!(px(&c, 8, 5), [50, 60, 70, 255]);
    assert_eq!(px(&c, 9, 5), [0, 0, 0, 255]);
    assert_eq!(px(&c, 0, 2), [0, 0, 0, 255]);
}

#[test]
fn label_spacing() {
    assert!(room_above(None, 100));
    assert!(room_above(Some(114), 100));
    assert!(!room_above(Some(113), 100));
    assert!(!room_above(Some(50), 100));
    assert!(room_around(None, 0));
    assert!(room_around(Some(114), 100));
    assert!(room_around(Some(86), 100));
    assert!(!room_around(Some(87), 100));
    assert!(!room_around(Some(113), 100));
}
