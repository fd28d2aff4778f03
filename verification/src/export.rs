//! Layout of the exported picture, and the parts of its drawing that are
//! pixel arithmetic: the scaled spectrogram, the colour bar and the
//! spacing of axis labels.

use vstd::prelude::*;
use crate::canvas::{
    canvas_data, canvas_size, height_of, in_rect, overlay_result, triangle_resize, width_of, Canvas,
};
use crate::pipeline::BANDS;

verus! {

/// Width of the exported picture.
pub const EXPORT_WIDTH: u32 = 1400;

/// Height of the exported picture.
pub const EXPORT_HEIGHT: u32 = 800;

/// Margins around the spectrogram area.
pub const LEFT_PAD: u32 = 72;

pub const RIGHT_PAD: u32 = 110;

pub const TOP_PAD: u32 = 62;

pub const BOTTOM_PAD: u32 = 44;

/// Space between the spectrogram and the colour bar.
pub const BAR_GAP: u32 = 10;

/// Width of the colour bar.
pub const BAR_WIDTH: u32 = 14;

/// The spectrogram area.
pub const SPEC_X: u32 = LEFT_PAD;

pub const SPEC_Y: u32 = TOP_PAD;

pub const SPEC_W: u32 = EXPORT_WIDTH - LEFT_PAD - RIGHT_PAD;

pub const SPEC_H: u32 = EXPORT_HEIGHT - TOP_PAD - BOTTOM_PAD;

/// The left edge of the colour bar.
pub const BAR_X: u32 = SPEC_X + SPEC_W + BAR_GAP;

/// The least distance, in pixels, between two axis labels.
pub const LABEL_GAP: u32 = 14;

/// Errors of the export.
#[derive(Clone, Copy, Debug, PartialEq, Eq, Structural)]
pub enum ExportError {
    /// The spectrogram pixels are fewer than its size asks for.
    BadPixelBuffer,
}

impl ExportError {
    /// The message shown to the user.
    pub fn message(&self) -> (s: &'static str)
        ensures
            s@ == "bad pixel buffer"@,
    {
        "bad pixel buffer"
    }
}

/// A black picture of the export size.
pub fn blank_export() -> (c: Canvas)
    ensures
        canvas_size(c) == (EXPORT_WIDTH as nat, EXPORT_HEIGHT as nat),
        canvas_data(c) == Seq::new(
            (EXPORT_WIDTH * EXPORT_HEIGHT * 4) as nat,
            |i: int| seq![0u8, 0u8, 0u8, 255u8][i % 4],
        ),
{
    let c = Canvas::filled(EXPORT_WIDTH, EXPORT_HEIGHT, [0, 0, 0, 255]);
    assert(canvas_data(c) =~= Seq::new(
        (EXPORT_WIDTH * EXPORT_HEIGHT * 4) as nat,
        |i: int| seq![0u8, 0u8, 0u8, 255u8][i % 4],
    ));
    c
}

/// Whether a spectrogram of `src_cols` columns is drawn at all: it has
/// columns and pixels.
pub open spec fn has_spectrogram(src_pixels: Seq<u8>, src_cols: usize) -> bool {
    src_cols > 0 && src_pixels.len() > 0
}

/// The source picture is `src_cols` wide, taken modulo 2^32 as the `u32`
/// width that the `image` crate receives, and `BANDS` high.
pub open spec fn source_width(src_cols: usize) -> nat {
    (src_cols as u32) as nat
}

/// Scales the spectrogram, `src_cols` columns of `BANDS` rows of RGBA
/// pixels, to the spectrogram area and blends it there. Nothing is drawn
/// when there are no columns or no pixels; the export fails when there are
/// fewer pixels than the columns and bands ask for.
pub fn blit_spectrogram(img: &mut Canvas, src_pixels: &[u8], src_cols: usize) -> (r: Result<(), ExportError>)
    ensures
        r is Err <==> has_spectrogram(src_pixels@, src_cols) && source_width(src_cols) * BANDS * 4
            > src_pixels@.len(),
        r is Err ==> r == Err::<(), ExportError>(ExportError::BadPixelBuffer),
        canvas_size(*final(img)) == canvas_size(*old(img)),
        r is Err || !has_spectrogram(src_pixels@, src_cols) ==> *final(img) == *old(img),
        r is Ok && has_spectrogram(src_pixels@, src_cols) ==> canvas_data(*final(img))
            == overlay_result(
            width_of(*old(img)),
            height_of(*old(img)),
            canvas_data(*old(img)),
            SPEC_W as nat,
            SPEC_H as nat,
            triangle_resize(
                source_width(src_cols),
                BANDS as nat,
                src_pixels@,
                SPEC_W as nat,
                SPEC_H as nat,
            ),
            SPEC_X as int,
            SPEC_Y as int,
        ),
        canvas_data(*final(img)).len() == canvas_data(*old(img)).len(),
        forall|i: int|
            0 <= i < canvas_data(*old(img)).len() && !in_rect(
                width_of(*old(img)),
                height_of(*old(img)),
                i,
                SPEC_X as int,
                SPEC_X + SPEC_W,
                SPEC_Y as int,
                SPEC_Y + SPEC_H,
            ) ==> #[trigger] canvas_data(*final(img))[i] == canvas_data(*old(img))[i],
{
    if src_cols > 0 && src_pixels.len() > 0 {
        match Canvas::from_raw(#[verifier::truncate] (src_cols as u32), BANDS as u32, src_pixels) {
            None => Err(ExportError::BadPixelBuffer),
            Some(src) => {
                assert(SPEC_W * SPEC_H * 4 <= isize::MAX) by {
                    assert(SPEC_W == 1218 && SPEC_H == 694);
                }
                let scaled = src.resized(SPEC_W, SPEC_H);
                img.overlay(&scaled, SPEC_X as i64, SPEC_Y as i64);
                Ok(())
            },
        }
    } else {
        Ok(())
    }
}

/// Whether a label at row `y` keeps its distance from the previous label,
/// which lies below it: there is none, or it is at least `LABEL_GAP` rows
/// lower.
pub fn room_above(last: Option<u32>, y: u32) -> (b: bool)
    ensures
        b == match last {
            None => true,
            Some(prev) => prev >= y + LABEL_GAP,
        },
{
    match last {
        None => true,
        Some(prev) => prev >= y && prev - y >= LABEL_GAP,
    }
}

/// Whether a label at row `y` keeps its distance from the previous label on
/// either side: there is none, or it is at least `LABEL_GAP` rows away.
pub fn room_around(last: Option<u32>, y: u32) -> (b: bool)
    ensures
        b == match last {
            None => true,
            Some(prev) => prev >= y + LABEL_GAP || y >= prev + LABEL_GAP,
        },
{
    match last {
        None => true,
        Some(prev) => (prev >= y && prev - y >= LABEL_GAP) || (y >= prev && y - prev >= LABEL_GAP),
    }
}

} // verus!
