//! An RGBA picture held in an `image::RgbaImage`, and the straight lines,
//! outlines and colour bars drawn on it.
//!
//! Pixel (`x`, `y`) of a `w` pixels wide picture is stored in the four
//! bytes from `(y * w + x) * 4` on, red, green, blue, alpha.

use vstd::prelude::*;
use vstd::arithmetic::div_mod::{lemma_fundamental_div_mod, lemma_fundamental_div_mod_converse};

verus! {

/// An RGBA picture. The picture is an `image::RgbaImage`; the field is
/// public so that callers can hand it to the `image` crate themselves.
#[verifier::external_body]
pub struct Canvas {
    pub image: image::RgbaImage,
}

/// Width and height of a picture, in pixels.
pub uninterp spec fn canvas_size(c: Canvas) -> (nat, nat);

/// The raw bytes of a picture.
pub uninterp spec fn canvas_data(c: Canvas) -> Seq<u8>;

/// What `image::imageops::resize` with the triangle filter makes of a
/// picture of the given size and bytes, scaled to the new size.
pub uninterp spec fn triangle_resize(
    width: nat,
    height: nat,
    data: Seq<u8>,
    new_width: nat,
    new_height: nat,
) -> Seq<u8>;

/// What `image::imageops::overlay` makes of the bottom picture when the top
/// picture is blended onto it with its corner at (`x`, `y`).
pub uninterp spec fn overlay_result(
    bottom_width: nat,
    bottom_height: nat,
    bottom_data: Seq<u8>,
    top_width: nat,
    top_height: nat,
    top_data: Seq<u8>,
    x: int,
    y: int,
) -> Seq<u8>;

pub open spec fn width_of(c: Canvas) -> nat {
    canvas_size(c).0
}

pub open spec fn height_of(c: Canvas) -> nat {
    canvas_size(c).1
}

/// A picture holds at least the bytes of all its pixels.
pub open spec fn canvas_wf(c: Canvas) -> bool {
    canvas_data(c).len() >= width_of(c) * height_of(c) * 4
}

/// The first byte of pixel (`x`, `y`).
pub open spec fn pixel_base(w: nat, x: int, y: int) -> int {
    (y * w + x) * 4
}

/// Channel `k` of pixel (`px`, `py`) in the bytes of a `w` pixels wide
/// picture.
pub open spec fn pixel_byte(data: Seq<u8>, w: nat, px: int, py: int, k: int) -> u8 {
    data[pixel_base(w, px, py) + k]
}

/// The bytes after writing colour `c` to the pixel that starts at `base`.
pub open spec fn with_pixel(data: Seq<u8>, base: int, c: [u8; 4]) -> Seq<u8> {
    Seq::new(
        data.len(),
        |i: int|
            if base <= i < base + 4 {
                c[i - base]
            } else {
                data[i]
            },
    )
}

/// The column of the pixel that byte `i` belongs to.
pub open spec fn byte_x(w: nat, i: int) -> int {
    (i / 4) % (w as int)
}

/// The row of the pixel that byte `i` belongs to.
pub open spec fn byte_y(w: nat, i: int) -> int {
    (i / 4) / (w as int)
}

/// Whether byte `i` belongs to a pixel of a `w` by `h` picture that lies in
/// the rectangle from (`x0`, `y0`) up to but not including (`x1`, `y1`).
pub open spec fn in_rect(w: nat, h: nat, i: int, x0: int, x1: int, y0: int, y1: int) -> bool {
    &&& 0 <= i < w * h * 4
    &&& x0 <= byte_x(w, i) < x1
    &&& y0 <= byte_y(w, i) < y1
}

/// The bytes after painting a rectangle with colour `c`.
pub open spec fn fill_rect(
    data: Seq<u8>,
    w: nat,
    h: nat,
    x0: int,
    x1: int,
    y0: int,
    y1: int,
    c: [u8; 4],
) -> Seq<u8> {
    Seq::new(
        data.len(),
        |i: int|
            if in_rect(w, h, i, x0, x1, y0, y1) {
                c[i % 4]
            } else {
                data[i]
            },
    )
}

/// A byte of the pixels of a `w` by `h` picture belongs to a pixel inside
/// the picture.
proof fn lemma_byte_pos(w: nat, h: nat, i: int)
    requires
        0 <= i < w * h * 4,
    ensures
        w > 0,
        0 <= byte_x(w, i) < w,
        0 <= byte_y(w, i) < h,
{
    assert(w > 0) by (nonlinear_arith)
        requires
            0 <= i < w * h * 4,
    ;
    let p = i / 4;
    assert(0 <= p < w * h);
    vstd::arithmetic::div_mod::lemma_mod_pos_bound(p, w as int);
    vstd::arithmetic::div_mod::lemma_multiply_divide_lt(p, w as int, h as int);
    vstd::arithmetic::div_mod::lemma_div_pos_is_pos(p, w as int);
}

/// The bytes of pixel (`x`, `y`) are exactly the bytes whose pixel lies at
/// (`x`, `y`), and byte `i` is channel `i % 4` of its pixel.
proof fn lemma_pixel_bytes(w: nat, h: nat, x: int, y: int, i: int)
    requires
        0 <= x < w,
        0 <= y < h,
        0 <= i,
    ensures
        (pixel_base(w, x, y) <= i < pixel_base(w, x, y) + 4) <==> in_rect(
            w,
            h,
            i,
            x,
            x + 1,
            y,
            y + 1,
        ),
        pixel_base(w, x, y) <= i < pixel_base(w, x, y) + 4 ==> i - pixel_base(w, x, y) == i % 4,
        pixel_base(w, x, y) + 4 <= w * h * 4,
{
    let p = i / 4;
    let wi = w as int;
    lemma_fundamental_div_mod(i, 4);
    let q = y * wi + x;
    assert(q + 1 <= w * h) by (nonlinear_arith)
        requires
            q == y * wi + x,
            0 <= x < wi,
            0 <= y < h,
            wi == w,
    ;
    if pixel_base(w, x, y) <= i < pixel_base(w, x, y) + 4 {
        assert(p == q);
        lemma_fundamental_div_mod_converse(p, wi, y, x);
        assert(i % 4 == i - pixel_base(w, x, y));
    }
    if in_rect(w, h, i, x, x + 1, y, y + 1) {
        lemma_fundamental_div_mod(p, wi);
        assert(p == wi * y + x);
        assert(wi * y == y * wi) by (nonlinear_arith);
    }
}

/// Writing one pixel is painting a one-pixel rectangle.
proof fn lemma_with_pixel(data: Seq<u8>, w: nat, h: nat, x: int, y: int, c: [u8; 4])
    requires
        0 <= x < w,
        0 <= y < h,
        data.len() >= w * h * 4,
    ensures
        with_pixel(data, pixel_base(w, x, y), c) == fill_rect(data, w, h, x, x + 1, y, y + 1, c),
{
    assert forall|i: int| 0 <= i < data.len() implies with_pixel(data, pixel_base(w, x, y), c)[i]
        == fill_rect(data, w, h, x, x + 1, y, y + 1, c)[i] by {
        lemma_pixel_bytes(w, h, x, y, i);
    }
    assert(with_pixel(data, pixel_base(w, x, y), c) =~= fill_rect(
        data,
        w,
        h,
        x,
        x + 1,
        y,
        y + 1,
        c,
    ));
}

/// `lemma_fill_rect_pixel` for every pixel of the picture at once.
proof fn lemma_fill_rect_pixels(
    data: Seq<u8>,
    w: nat,
    h: nat,
    x0: int,
    x1: int,
    y0: int,
    y1: int,
    c: [u8; 4],
)
    requires
        data.len() >= w * h * 4,
    ensures
        forall|px: int, py: int, k: int|
            0 <= px < w && 0 <= py < h && 0 <= k < 4 ==> #[trigger] pixel_byte(
                fill_rect(data, w, h, x0, x1, y0, y1, c),
                w,
                px,
                py,
                k,
            ) == if x0 <= px < x1 && y0 <= py < y1 {
                c[k]
            } else {
                pixel_byte(data, w, px, py, k)
            },
{
    assert forall|px: int, py: int, k: int|
        0 <= px < w && 0 <= py < h && 0 <= k < 4 implies #[trigger] pixel_byte(
        fill_rect(data, w, h, x0, x1, y0, y1, c),
        w,
        px,
        py,
        k,
    ) == if x0 <= px < x1 && y0 <= py < y1 {
        c[k]
    } else {
        pixel_byte(data, w, px, py, k)
    } by {
        lemma_fill_rect_pixel(data, w, h, x0, x1, y0, y1, c, px, py, k);
    }
}

impl Canvas {
    /// A `w` by `h` picture with every pixel of colour `c`
    /// (`image::RgbaImage::from_pixel`).
    #[verifier::external_body]
    pub fn filled(w: u32, h: u32, c: [u8; 4]) -> (r: Canvas)
        requires
            w * h * 4 <= isize::MAX,
        ensures
            canvas_size(r) == (w as nat, h as nat),
            canvas_data(r) == Seq::new((w * h * 4) as nat, |i: int| c[i % 4]),
    {
        Canvas { image: image::RgbaImage::from_pixel(w, h, image::Rgba(c)) }
    }

    /// The width (`image::ImageBuffer::width`). The `image` crate keeps the
    /// bytes of all pixels in every picture.
    #[verifier::external_body]
    pub fn width(&self) -> (r: u32)
        ensures
            r == width_of(*self),
            r * height_of(*self) * 4 <= canvas_data(*self).len(),
    {
        self.image.width()
    }

    /// The height (`image::ImageBuffer::height`).
    #[verifier::external_body]
    pub fn height(&self) -> (r: u32)
        ensures
            r == height_of(*self),
            width_of(*self) * r * 4 <= canvas_data(*self).len(),
    {
        self.image.height()
    }

    /// Writes colour `c` to pixel (`x`, `y`) (`image::ImageBuffer::put_pixel`,
    /// which panics outside the picture).
    #[verifier::external_body]
    pub fn put_pixel(&mut self, x: u32, y: u32, c: [u8; 4])
        requires
            x < width_of(*old(self)),
            y < height_of(*old(self)),
        ensures
            canvas_size(*final(self)) == canvas_size(*old(self)),
            canvas_data(*final(self)) == with_pixel(
                canvas_data(*old(self)),
                pixel_base(width_of(*old(self)), x as int, y as int),
                c,
            ),
    {
        self.image.put_pixel(x, y, image::Rgba(c));
    }

    /// A `w` by `h` picture made of the bytes `data`, if there are enough of
    /// them (`image::ImageBuffer::from_raw`).
    #[verifier::external_body]
    pub fn from_raw(w: u32, h: u32, data: &[u8]) -> (r: Option<Canvas>)
        ensures
            r is Some <==> w * h * 4 <= data@.len(),
            r matches Some(c) ==> canvas_size(c) == (w as nat, h as nat) && canvas_data(c)
                == data@,
    {
        image::RgbaImage::from_raw(w, h, data.to_vec()).map(|image| Canvas { image })
    }

    /// This picture scaled to `w` by `h` with the triangle filter
    /// (`image::imageops::resize`).
    #[verifier::external_body]
    pub fn resized(&self, w: u32, h: u32) -> (r: Canvas)
        requires
            w * h * 4 <= isize::MAX,
        ensures
            canvas_size(r) == (w as nat, h as nat),
            canvas_data(r).len() == w * h * 4,
            canvas_data(r) == triangle_resize(
                width_of(*self),
                height_of(*self),
                canvas_data(*self),
                w as nat,
                h as nat,
            ),
    {
        Canvas {
            image: image::imageops::resize(&self.image, w, h, image::imageops::FilterType::Triangle),
        }
    }

    /// Blends `top` onto this picture with its corner at (`x`, `y`), cut to
    /// this picture (`image::imageops::overlay`); only the pixels under
    /// `top` change.
    #[verifier::external_body]
    pub fn overlay(&mut self, top: &Canvas, x: i64, y: i64)
        ensures
            canvas_size(*final(self)) == canvas_size(*old(self)),
            canvas_data(*final(self)) == overlay_result(
                width_of(*old(self)),
                height_of(*old(self)),
                canvas_data(*old(self)),
                width_of(*top),
                height_of(*top),
                canvas_data(*top),
                x as int,
                y as int,
            ),
            canvas_data(*final(self)).len() == canvas_data(*old(self)).len(),
            forall|i: int|
                0 <= i < canvas_data(*old(self)).len() && !in_rect(
                    width_of(*old(self)),
                    height_of(*old(self)),
                    i,
                    x as int,
                    x + width_of(*top),
                    y as int,
                    y + height_of(*top),
                ) ==> #[trigger] canvas_data(*final(self))[i] == canvas_data(*old(self))[i],
    {
        image::imageops::overlay(&mut self.image, &top.image, x, y);
    }
}

/// An opaque grey.
pub fn gray(v: u8) -> (c: [u8; 4])
    ensures
        c@ == seq![v, v, v, 255u8],
{
    let c = [v, v, v, 255];
    assert(c@ =~= seq![v, v, v, 255u8]);
    c
}

/// Paints row `y` from column `x0` up to but not including `x1`, cut to the
/// picture; nothing happens when the row lies below the picture.
pub fn hline(img: &mut Canvas, x0: u32, x1: u32, y: u32, c: [u8; 4])
    ensures
        canvas_size(*final(img)) == canvas_size(*old(img)),
        canvas_data(*final(img)) == fill_rect(
            canvas_data(*old(img)),
            width_of(*old(img)),
            height_of(*old(img)),
            x0 as int,
            x1 as int,
            y as int,
            y + 1,
            c,
        ),
        forall|px: int, py: int, k: int|
            0 <= px < width_of(*old(img)) && 0 <= py < height_of(*old(img)) && 0 <= k < 4
                ==> #[trigger] pixel_byte(canvas_data(*final(img)), width_of(*old(img)), px, py, k)
                == if x0 <= px < x1 && py == y {
                c[k]
            } else {
                pixel_byte(canvas_data(*old(img)), width_of(*old(img)), px, py, k)
            },
{
    let ghost d0 = canvas_data(*img);
    let ghost w = width_of(*img);
    let ghost h = height_of(*img);
    let height = img.height();
    let width = img.width();
    if y >= height {
        assert forall|i: int| 0 <= i < d0.len() implies !#[trigger] in_rect(
            w,
            h,
            i,
            x0 as int,
            x1 as int,
            y as int,
            y + 1,
        ) by {
            if 0 <= i < w * h * 4 {
                lemma_byte_pos(w, h, i);
            }
        }
        assert(canvas_data(*img) =~= fill_rect(d0, w, h, x0 as int, x1 as int, y as int, y + 1, c));
        proof {
            lemma_fill_rect_pixels(d0, w, h, x0 as int, x1 as int, y as int, y + 1, c);
        }
        return;
    }
    let end = if x1 < width {
        x1
    } else {
        width
    };
    let mut x = x0;
    assert(canvas_data(*img) =~= fill_rect(d0, w, h, x0 as int, x0 as int, y as int, y + 1, c));
    while x < end
        invariant
            x0 <= x,
            x == x0 || x <= end,
            end <= width,
            width == w,
            height == h,
            y < h,
            canvas_size(*img) == (w, h),
            d0.len() >= w * h * 4,
            canvas_data(*img) == fill_rect(d0, w, h, x0 as int, x as int, y as int, y + 1, c),
        decreases end - x,
    {
        let ghost before = canvas_data(*img);
        img.put_pixel(x, y, c);
        proof {
            lemma_with_pixel(before, w, h, x as int, y as int, c);
            let after = fill_rect(d0, w, h, x0 as int, x + 1, y as int, y + 1, c);
            assert forall|i: int| 0 <= i < d0.len() implies canvas_data(*img)[i] == after[i] by {
                let mid = fill_rect(before, w, h, x as int, x + 1, y as int, y + 1, c);
                assert(canvas_data(*img)[i] == mid[i]);
                assert(before[i] == fill_rect(d0, w, h, x0 as int, x as int, y as int, y + 1, c)[i]);
            }
            assert(canvas_data(*img) =~= after);
        }
        x += 1;
    }
    assert forall|i: int| 0 <= i < d0.len() implies canvas_data(*img)[i] == fill_rect(
        d0,
        w,
        h,
        x0 as int,
        x1 as int,
        y as int,
        y + 1,
        c,
    )[i] by {
        assert(canvas_data(*img)[i] == fill_rect(d0, w, h, x0 as int, x as int, y as int, y + 1, c)[i]);
        if 0 <= i < w * h * 4 {
            lemma_byte_pos(w, h, i);
        }
    }
    assert(canvas_data(*img) =~= fill_rect(d0, w, h, x0 as int, x1 as int, y as int, y + 1, c));
    proof {
        lemma_fill_rect_pixels(d0, w, h, x0 as int, x1 as int, y as int, y + 1, c);
    }
}

/// Paints column `x` from row `y0` up to but not including `y1`, cut to
/// the picture; nothing happens when the column lies right of the picture.
pub fn vline(img: &mut Canvas, y0: u32, y1: u32, x: u32, c: [u8; 4])
    ensures
        canvas_size(*final(img)) == canvas_size(*old(img)),
        canvas_data(*final(img)) == fill_rect(
            canvas_data(*old(img)),
            width_of(*old(img)),
            height_of(*old(img)),
            x as int,
            x + 1,
            y0 as int,
            y1 as int,
            c,
        ),
        forall|px: int, py: int, k: int|
            0 <= px < width_of(*old(img)) && 0 <= py < height_of(*old(img)) && 0 <= k < 4
                ==> #[trigger] pixel_byte(canvas_data(*final(img)), width_of(*old(img)), px, py, k)
                == if px == x && y0 <= py < y1 {
                c[k]
            } else {
                pixel_byte(canvas_data(*old(img)), width_of(*old(img)), px, py, k)
            },
{
    let ghost d0 = canvas_data(*img);
    let ghost w = width_of(*img);
    let ghost h = height_of(*img);
    let width = img.width();
    let height = img.height();
    if x >= width {
        assert forall|i: int| 0 <= i < d0.len() implies !#[trigger] in_rect(
            w,
            h,
            i,
            x as int,
            x + 1,
            y0 as int,
            y1 as int,
        ) by {
            if 0 <= i < w * h * 4 {
                lemma_byte_pos(w, h, i);
            }
        }
        assert(canvas_data(*img) =~= fill_rect(d0, w, h, x as int, x + 1, y0 as int, y1 as int, c));
        proof {
            lemma_fill_rect_pixels(d0, w, h, x as int, x + 1, y0 as int, y1 as int, c);
        }
        return;
    }
    let end = if y1 < height {
        y1
    } else {
        height
    };
    let mut y = y0;
    assert(canvas_data(*img) =~= fill_rect(d0, w, h, x as int, x + 1, y0 as int, y0 as int, c));
    while y < end
        invariant
            y0 <= y,
            y == y0 || y <= end,
            end <= height,
            width == w,
            height == h,
            x < w,
            canvas_size(*img) == (w, h),
            d0.len() >= w * h * 4,
            canvas_data(*img) == fill_rect(d0, w, h, x as int, x + 1, y0 as int, y as int, c),
        decreases end - y,
    {
        let ghost before = canvas_data(*img);
        img.put_pixel(x, y, c);
        proof {
            lemma_with_pixel(before, w, h, x as int, y as int, c);
            let after = fill_rect(d0, w, h, x as int, x + 1, y0 as int, y + 1, c);
            assert forall|i: int| 0 <= i < d0.len() implies canvas_data(*img)[i] == after[i] by {
                let mid = fill_rect(before, w, h, x as int, x + 1, y as int, y + 1, c);
                assert(canvas_data(*img)[i] == mid[i]);
                assert(before[i] == fill_rect(d0, w, h, x as int, x + 1, y0 as int, y as int, c)[i]);
            }
            assert(canvas_data(*img) =~= after);
        }
        y += 1;
    }
    assert forall|i: int| 0 <= i < d0.len() implies canvas_data(*img)[i] == fill_rect(
        d0,
        w,
        h,
        x as int,
        x + 1,
        y0 as int,
        y1 as int,
        c,
    )[i] by {
        assert(canvas_data(*img)[i] == fill_rect(d0, w, h, x as int, x + 1, y0 as int, y as int, c)[i]);
        if 0 <= i < w * h * 4 {
            lemma_byte_pos(w, h, i);
        }
    }
    assert(canvas_data(*img) =~= fill_rect(d0, w, h, x as int, x + 1, y0 as int, y1 as int, c));
    proof {
        lemma_fill_rect_pixels(d0, w, h, x as int, x + 1, y0 as int, y1 as int, c);
    }
}

/// The bytes after drawing the outline of the rectangle with corners
/// (`x`, `y`) and (`x + w`, `y + h`): its top and bottom edges, then its
/// left and right edges.
pub open spec fn outline(
    data: Seq<u8>,
    pw: nat,
    ph: nat,
    x: int,
    y: int,
    w: int,
    h: int,
    c: [u8; 4],
) -> Seq<u8> {
    let top = fill_rect(data, pw, ph, x, x + w, y, y + 1, c);
    let bottom = fill_rect(top, pw, ph, x, x + w, y + h, y + h + 1, c);
    let left = fill_rect(bottom, pw, ph, x, x + 1, y, y + h, c);
    fill_rect(left, pw, ph, x + w, x + w + 1, y, y + h, c)
}

/// Draws the outline of a rectangle, cut to the picture.
pub fn draw_rect_outline(img: &mut Canvas, x: u32, y: u32, w: u32, h: u32, c: [u8; 4])
    requires
        x + w <= u32::MAX,
        y + h <= u32::MAX,
    ensures
        canvas_size(*final(img)) == canvas_size(*old(img)),
        canvas_data(*final(img)) == outline(
            canvas_data(*old(img)),
            width_of(*old(img)),
            height_of(*old(img)),
            x as int,
            y as int,
            w as int,
            h as int,
            c,
        ),
        forall|px: int, py: int, k: int|
            0 <= px < width_of(*old(img)) && 0 <= py < height_of(*old(img)) && 0 <= k < 4
                ==> #[trigger] pixel_byte(canvas_data(*final(img)), width_of(*old(img)), px, py, k)
                == if on_outline(x as int, y as int, w as int, h as int, px, py) {
                c[k]
            } else {
                pixel_byte(canvas_data(*old(img)), width_of(*old(img)), px, py, k)
            },
{
    let ghost d0 = canvas_data(*img);
    let ghost pw = width_of(*img);
    let ghost ph = height_of(*img);
    let _ = img.width();
    hline(img, x, x + w, y, c);
    hline(img, x, x + w, y + h, c);
    vline(img, y, y + h, x, c);
    vline(img, y, y + h, x + w, c);
    assert forall|px: int, py: int, k: int|
        0 <= px < pw && 0 <= py < ph && 0 <= k < 4 implies #[trigger] pixel_byte(
        canvas_data(*img),
        pw,
        px,
        py,
        k,
    ) == if on_outline(x as int, y as int, w as int, h as int, px, py) {
        c[k]
    } else {
        pixel_byte(d0, pw, px, py, k)
    } by {
        lemma_outline_pixel(d0, pw, ph, x as int, y as int, w as int, h as int, c, px, py, k);
    }
}

/// A colour made opaque.
pub open spec fn opaque(c: [u8; 4]) -> Seq<u8> {
    seq![c[0], c[1], c[2], 255u8]
}

/// The bytes after drawing a vertical colour bar: `colors[0]` on the bottom
/// row `y0 + colors.len() - 1`, the last colour on the top row `y0`, each
/// row from column `x0` up to but not including `x1`, every colour opaque.
/// Only the lowest `k` rows are drawn.
pub open spec fn color_bar_rows(
    data: Seq<u8>,
    w: nat,
    h: nat,
    x0: int,
    x1: int,
    y0: int,
    colors: Seq<[u8; 4]>,
    k: int,
) -> Seq<u8> {
    Seq::new(
        data.len(),
        |i: int|
            if in_rect(w, h, i, x0, x1, y0 + colors.len() - k, y0 + colors.len()) {
                opaque(colors[y0 + colors.len() - 1 - byte_y(w, i)])[i % 4]
            } else {
                data[i]
            },
    )
}

/// The bytes after drawing the whole colour bar.
pub open spec fn color_bar(
    data: Seq<u8>,
    w: nat,
    h: nat,
    x0: int,
    x1: int,
    y0: int,
    colors: Seq<[u8; 4]>,
) -> Seq<u8> {
    color_bar_rows(data, w, h, x0, x1, y0, colors, colors.len() as int)
}

/// Draws a vertical colour bar, lowest level at the bottom; the bar must lie
/// inside the picture.
pub fn draw_color_bar(img: &mut Canvas, x0: u32, bar_width: u32, y0: u32, colors: &[[u8; 4]])
    requires
        x0 + bar_width <= width_of(*old(img)),
        y0 + colors@.len() <= height_of(*old(img)),
    ensures
        canvas_size(*final(img)) == canvas_size(*old(img)),
        canvas_data(*final(img)) == color_bar(
            canvas_data(*old(img)),
            width_of(*old(img)),
            height_of(*old(img)),
            x0 as int,
            x0 + bar_width,
            y0 as int,
            colors@,
        ),
        forall|px: int, py: int, k: int|
            0 <= px < width_of(*old(img)) && 0 <= py < height_of(*old(img)) && 0 <= k < 4
                ==> #[trigger] pixel_byte(canvas_data(*final(img)), width_of(*old(img)), px, py, k)
                == if x0 <= px < x0 + bar_width && y0 <= py < y0 + colors@.len() {
                if k == 3 {
                    255u8
                } else {
                    colors@[y0 + colors@.len() - 1 - py][k]
                }
            } else {
                pixel_byte(canvas_data(*old(img)), width_of(*old(img)), px, py, k)
            },
{
    let ghost d0 = canvas_data(*img);
    let ghost w = width_of(*img);
    let ghost h = height_of(*img);
    let _ = img.width();
    let _ = img.height();
    let steps = colors.len();
    let ghost cs = colors@;
    let x1 = x0 + bar_width;
    let mut i: usize = 0;
    assert(canvas_data(*img) =~= color_bar_rows(d0, w, h, x0 as int, x1 as int, y0 as int, cs, 0));
    while i < steps
        invariant
            steps == cs.len(),
            cs == colors@,
            i <= steps,
            x1 == x0 + bar_width,
            x1 <= w,
            y0 + steps <= h,
            h <= u32::MAX,
            canvas_size(*img) == (w, h),
            d0.len() >= w * h * 4,
            canvas_data(*img) == color_bar_rows(
                d0,
                w,
                h,
                x0 as int,
                x1 as int,
                y0 as int,
                cs,
                i as int,
            ),
        decreases steps - i,
    {
        let c = colors[i];
        let color = [c[0], c[1], c[2], 255];
        assert(color@ =~= opaque(cs[i as int]));
        let y = y0 + (steps - 1 - i) as u32;
        let ghost before = canvas_data(*img);
        hline(img, x0, x1, y, color);
        proof {
            let after = color_bar_rows(d0, w, h, x0 as int, x1 as int, y0 as int, cs, i + 1);
            assert forall|j: int| 0 <= j < d0.len() implies canvas_data(*img)[j] == after[j] by {
                assert(before[j] == color_bar_rows(
                    d0,
                    w,
                    h,
                    x0 as int,
                    x1 as int,
                    y0 as int,
                    cs,
                    i as int,
                )[j]);
            }
            assert(canvas_data(*img) =~= after);
        }
        i += 1;
    }
    assert forall|px: int, py: int, k: int|
        0 <= px < w && 0 <= py < h && 0 <= k < 4 implies #[trigger] pixel_byte(
        canvas_data(*img),
        w,
        px,
        py,
        k,
    ) == if x0 <= px < x0 + bar_width && y0 <= py < y0 + colors@.len() {
        if k == 3 {
            255u8
        } else {
            colors@[y0 + colors@.len() - 1 - py][k]
        }
    } else {
        pixel_byte(d0, w, px, py, k)
    } by {
        lemma_color_bar_pixel(d0, w, h, x0 as int, x1 as int, y0 as int, cs, px, py, k);
    }
}

/// Byte `k` of pixel (`px`, `py`) lies among the pixel bytes, belongs to
/// that pixel, and is its channel `k`.
pub proof fn lemma_pixel_coords(w: nat, h: nat, px: int, py: int, k: int)
    requires
        0 <= px < w,
        0 <= py < h,
        0 <= k < 4,
    ensures
        0 <= pixel_base(w, px, py) + k < w * h * 4,
        byte_x(w, pixel_base(w, px, py) + k) == px,
        byte_y(w, pixel_base(w, px, py) + k) == py,
        (pixel_base(w, px, py) + k) % 4 == k,
{
    let i = pixel_base(w, px, py) + k;
    assert(0 <= py * w) by (nonlinear_arith)
        requires
            0 <= py,
    ;
    lemma_pixel_bytes(w, h, px, py, i);
}

/// Painting a rectangle gives colour `c` to exactly the pixels inside it and
/// leaves every other byte as it was.
pub proof fn lemma_fill_rect_pixel(
    data: Seq<u8>,
    w: nat,
    h: nat,
    x0: int,
    x1: int,
    y0: int,
    y1: int,
    c: [u8; 4],
    px: int,
    py: int,
    k: int,
)
    requires
        data.len() >= w * h * 4,
        0 <= px < w,
        0 <= py < h,
        0 <= k < 4,
    ensures
        fill_rect(data, w, h, x0, x1, y0, y1, c).len() == data.len(),
        fill_rect(data, w, h, x0, x1, y0, y1, c)[pixel_base(w, px, py) + k] == if x0 <= px < x1
            && y0 <= py < y1 {
            c[k]
        } else {
            data[pixel_base(w, px, py) + k]
        },
        forall|i: int|
            w * h * 4 <= i < data.len() ==> #[trigger] fill_rect(data, w, h, x0, x1, y0, y1, c)[i]
                == data[i],
{
    lemma_pixel_coords(w, h, px, py, k);
}

/// Whether pixel (`px`, `py`) lies on the outline of the rectangle with
/// corners (`x`, `y`) and (`x + w`, `y + h`): on its top or bottom row
/// within columns `x` up to but not including `x + w`, or on its left or
/// right column within rows `y` up to but not including `y + h`.
pub open spec fn on_outline(x: int, y: int, w: int, h: int, px: int, py: int) -> bool {
    ||| x <= px < x + w && (py == y || py == y + h)
    ||| y <= py < y + h && (px == x || px == x + w)
}

/// Drawing an outline gives colour `c` to exactly the pixels on it that lie
/// in the picture, the whole bottom edge on row `y + h` included, and
/// leaves every other pixel as it was.
pub proof fn lemma_outline_pixel(
    data: Seq<u8>,
    pw: nat,
    ph: nat,
    x: int,
    y: int,
    w: int,
    h: int,
    c: [u8; 4],
    px: int,
    py: int,
    k: int,
)
    requires
        data.len() >= pw * ph * 4,
        0 <= px < pw,
        0 <= py < ph,
        0 <= k < 4,
    ensures
        outline(data, pw, ph, x, y, w, h, c).len() == data.len(),
        outline(data, pw, ph, x, y, w, h, c)[pixel_base(pw, px, py) + k] == if on_outline(
            x,
            y,
            w,
            h,
            px,
            py,
        ) {
            c[k]
        } else {
            data[pixel_base(pw, px, py) + k]
        },
{
    let top = fill_rect(data, pw, ph, x, x + w, y, y + 1, c);
    let bottom = fill_rect(top, pw, ph, x, x + w, y + h, y + h + 1, c);
    let left = fill_rect(bottom, pw, ph, x, x + 1, y, y + h, c);
    lemma_fill_rect_pixel(data, pw, ph, x, x + w, y, y + 1, c, px, py, k);
    lemma_fill_rect_pixel(top, pw, ph, x, x + w, y + h, y + h + 1, c, px, py, k);
    lemma_fill_rect_pixel(bottom, pw, ph, x, x + 1, y, y + h, c, px, py, k);
    lemma_fill_rect_pixel(left, pw, ph, x + w, x + w + 1, y, y + h, c, px, py, k);
}

/// Drawing a colour bar changes only the pixels in columns `x0` up to but
/// not including `x1` and in its rows: row `y0 + colors.len() - 1 - j`
/// gets `colors[j]` with its alpha set to 255; every other pixel keeps its
/// colour.
pub proof fn lemma_color_bar_pixel(
    data: Seq<u8>,
    w: nat,
    h: nat,
    x0: int,
    x1: int,
    y0: int,
    colors: Seq<[u8; 4]>,
    px: int,
    py: int,
    k: int,
)
    requires
        data.len() >= w * h * 4,
        0 <= px < w,
        0 <= py < h,
        0 <= k < 4,
    ensures
        color_bar(data, w, h, x0, x1, y0, colors).len() == data.len(),
        color_bar(data, w, h, x0, x1, y0, colors)[pixel_base(w, px, py) + k] == if x0 <= px < x1
            && y0 <= py < y0 + colors.len() {
            if k == 3 {
                255u8
            } else {
                colors[y0 + colors.len() - 1 - py][k]
            }
        } else {
            data[pixel_base(w, px, py) + k]
        },
{
    lemma_pixel_coords(w, h, px, py, k);
}

} // verus!
