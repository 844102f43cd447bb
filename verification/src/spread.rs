//! Two facing pages put side by side on a flat field, for RGB images.

use vstd::prelude::*;

verus! {

/// The gap drawn between facing pages, in pixels.
pub const GUTTER: u32 = 8;

/// One channel of the field colour: near black when dark, paper when light.
pub open spec fn backdrop(dark: bool, c: int) -> u8 {
    if dark {
        if c == 0 {
            12
        } else if c == 1 {
            11
        } else {
            16
        }
    } else {
        if c == 0 {
            207
        } else if c == 1 {
            202
        } else {
            192
        }
    }
}

fn backdrop_byte(dark: bool, c: usize) -> (r: u8)
    requires
        c < 3,
    ensures
        r == backdrop(dark, c as int),
{
    if dark {
        if c == 0 {
            12
        } else if c == 1 {
            11
        } else {
            16
        }
    } else {
        if c == 0 {
            207
        } else if c == 1 {
            202
        } else {
            192
        }
    }
}

/// Where a page of height `h` starts, centred in a canvas of height `height`.
pub open spec fn top(height: int, h: int) -> int {
    (height - h) / 2
}

/// Byte `x` of row `y` of the joined canvas: the left page centred in its
/// half, the gutter, then the right page centred in its half; whatever no page
/// covers shows the field colour. Rows are `(lw + GUTTER + rw) * 3` bytes.
pub open spec fn joined_byte(
    lb: Seq<u8>,
    lw: int,
    lh: int,
    rb: Seq<u8>,
    rw: int,
    rh: int,
    dark: bool,
    y: int,
    x: int,
) -> u8 {
    let height = if lh > rh {
        lh
    } else {
        rh
    };
    let lt = top(height, lh);
    let rt = top(height, rh);
    if x < lw * 3 {
        if lt <= y < lt + lh {
            lb[(y - lt) * (lw * 3) + x]
        } else {
            backdrop(dark, x % 3)
        }
    } else if x < (lw + 8) * 3 {
        backdrop(dark, x % 3)
    } else {
        let xr = x - (lw + 8) * 3;
        if rt <= y < rt + rh {
            rb[(y - rt) * (rw * 3) + xr]
        } else {
            backdrop(dark, x % 3)
        }
    }
}

proof fn lemma_row_within(row: int, rows: int, width: int, x: int)
    requires
        0 <= row < rows,
        0 <= x < width,
    ensures
        row * width + x < rows * width,
        0 <= row * width + x,
{
    assert(row * width + x < rows * width) by (nonlinear_arith)
        requires
            0 <= row < rows,
            0 <= x < width,
    ;
    assert(0 <= row * width) by (nonlinear_arith)
        requires
            0 <= row,
            0 <= width,
    ;
}

proof fn lemma_row_step(y: int, width: int)
    ensures
        y * width + width == (y + 1) * width,
{
    assert(y * width + width == (y + 1) * width) by (nonlinear_arith);
}

/// The joined canvas of two RGB pages, row-major, three bytes a pixel.
pub fn join_pixels(lb: &[u8], lw: u32, lh: u32, rb: &[u8], rw: u32, rh: u32, dark: bool) -> (out: Vec<
    u8,
>)
    requires
        lb@.len() >= (lw as int) * 3 * (lh as int),
        rb@.len() >= (rw as int) * 3 * (rh as int),
        (lw as int + 8 + rw as int) * 3 <= usize::MAX,
        (lw as int + 8 + rw as int) * 3 * (if lh > rh { lh as int } else { rh as int }) <= usize::MAX,
    ensures
        ({
            let height = if lh > rh { lh as int } else { rh as int };
            let row = (lw as int + 8 + rw as int) * 3;
            &&& out@.len() == height * row
            &&& forall|y: int, x: int|
                0 <= y < height && 0 <= x < row ==> out@[y * row + x] == #[trigger] joined_byte(
                    lb@,
                    lw as int,
                    lh as int,
                    rb@,
                    rw as int,
                    rh as int,
                    dark,
                    y,
                    x,
                )
        }),
{
    let height: usize = if lh > rh {
        lh as usize
    } else {
        rh as usize
    };
    let lw3: usize = lw as usize * 3;
    let rw3: usize = rw as usize * 3;
    let gap: usize = 8 * 3;
    let row: usize = lw3 + gap + rw3;
    let l_top: usize = (height - lh as usize) / 2;
    let r_top: usize = (height - rh as usize) / 2;
    let llen = lb.len();
    let rlen = rb.len();
    let mut out: Vec<u8> = Vec::new();
    let mut y: usize = 0;
    assert((lw as int + 8 + rw as int) * 3 == row);
    assert(l_top as int == top(height as int, lh as int));
    assert(r_top as int == top(height as int, rh as int));
    assert((height as int) * (row as int) <= usize::MAX) by (nonlinear_arith)
        requires
            row as int == (lw as int + 8 + rw as int) * 3,
            (lw as int + 8 + rw as int) * 3 * (height as int) <= usize::MAX,
    ;
    while y < height
        invariant
            y <= height,
            row == (lw as int + 8 + rw as int) * 3,
            lw3 == lw * 3,
            rw3 == rw * 3,
            gap == 24,
            height == (if lh > rh { lh as int } else { rh as int }),
            height * row <= usize::MAX,
            l_top as int == top(height as int, lh as int),
            r_top as int == top(height as int, rh as int),
            lb@.len() >= (lw as int) * 3 * (lh as int),
            rb@.len() >= (rw as int) * 3 * (rh as int),
            llen == lb@.len(),
            rlen == rb@.len(),
            out@.len() == y * row,
            forall|yy: int, x: int|
                0 <= yy < y && 0 <= x < row ==> out@[yy * row + x] == #[trigger] joined_byte(
                    lb@,
                    lw as int,
                    lh as int,
                    rb@,
                    rw as int,
                    rh as int,
                    dark,
                    yy,
                    x,
                ),
        decreases height - y,
    {
        let mut x: usize = 0;
        proof {
            lemma_row_within(y as int, height as int, row as int, 0);
        }
        while x < row
            invariant
                y < height,
                x <= row,
                row == (lw as int + 8 + rw as int) * 3,
                lw3 == lw * 3,
                rw3 == rw * 3,
                gap == 24,
                height == (if lh > rh { lh as int } else { rh as int }),
                height * row <= usize::MAX,
                l_top as int == top(height as int, lh as int),
                r_top as int == top(height as int, rh as int),
                lb@.len() >= (lw as int) * 3 * (lh as int),
                rb@.len() >= (rw as int) * 3 * (rh as int),
                llen == lb@.len(),
                rlen == rb@.len(),
                out@.len() == y * row + x,
                forall|yy: int, xx: int|
                    0 <= yy < y && 0 <= xx < row ==> out@[yy * row + xx] == #[trigger] joined_byte(
                        lb@,
                        lw as int,
                        lh as int,
                        rb@,
                        rw as int,
                        rh as int,
                        dark,
                        yy,
                        xx,
                    ),
                forall|xx: int|
                    0 <= xx < x ==> out@[y * row + xx] == #[trigger] joined_byte(
                        lb@,
                        lw as int,
                        lh as int,
                        rb@,
                        rw as int,
                        rh as int,
                        dark,
                        y as int,
                        xx,
                    ),
            decreases row - x,
        {
            proof {
                lemma_row_within(y as int, height as int, row as int, x as int);
            }
            let b: u8 = if x < lw3 {
                if l_top <= y && y < l_top + lh as usize {
                    proof {
                        lemma_row_within((y - l_top) as int, lh as int, lw3 as int, x as int);
                        assert((lh as int) * (lw3 as int) == (lw as int) * 3 * (lh as int)) by (nonlinear_arith)
                            requires
                                lw3 == lw * 3,
                        ;
                    }
                    lb[(y - l_top) * lw3 + x]
                } else {
                    backdrop_byte(dark, x % 3)
                }
            } else if x < lw3 + gap {
                backdrop_byte(dark, x % 3)
            } else {
                let xr = x - lw3 - gap;
                if r_top <= y && y < r_top + rh as usize {
                    proof {
                        lemma_row_within((y - r_top) as int, rh as int, rw3 as int, xr as int);
                        assert((rh as int) * (rw3 as int) == (rw as int) * 3 * (rh as int)) by (nonlinear_arith)
                            requires
                                rw3 == rw * 3,
                        ;
                    }
                    rb[(y - r_top) * rw3 + xr]
                } else {
                    backdrop_byte(dark, x % 3)
                }
            };
            assert(b == joined_byte(lb@, lw as int, lh as int, rb@, rw as int, rh as int, dark, y as int, x as int));
            let ghost before = out@;
            out.push(b);
            proof {
                assert forall|yy: int, xx: int|
                    0 <= yy < y && 0 <= xx < row implies out@[yy * row + xx] == #[trigger] joined_byte(
                        lb@,
                        lw as int,
                        lh as int,
                        rb@,
                        rw as int,
                        rh as int,
                        dark,
                        yy,
                        xx,
                    ) by {
                    lemma_row_within(yy, y as int, row as int, xx);
                    assert(out@[yy * row + xx] == before[yy * row + xx]);
                }
                assert forall|xx: int| 0 <= xx < x + 1 implies out@[y * row + xx] == #[trigger] joined_byte(
                    lb@,
                    lw as int,
                    lh as int,
                    rb@,
                    rw as int,
                    rh as int,
                    dark,
                    y as int,
                    xx,
                ) by {
                    if xx < x {
                        assert(out@[y * row + xx] == before[y * row + xx]);
                    }
                }
            }
            x = x + 1;
        }
        proof {
            lemma_row_step(y as int, row as int);
            assert forall|yy: int, xx: int|
                0 <= yy < y + 1 && 0 <= xx < row implies out@[yy * row + xx] == #[trigger] joined_byte(
                    lb@,
                    lw as int,
                    lh as int,
                    rb@,
                    rw as int,
                    rh as int,
                    dark,
                    yy,
                    xx,
                ) by {
                if yy == y {
                    assert(joined_byte(lb@, lw as int, lh as int, rb@, rw as int, rh as int, dark, y as int, xx) == out@[y * row + xx]);
                }
            }
        }
        y = y + 1;
    }
    out
}

} // verus!

verus! {

/// An RGB image of the `image` crate: its pixels, row-major, three bytes each.
/// The buffer is held in a field Verus does not see, since `ImageBuffer`
/// itself cannot be declared to it (its `Pixel` bound is a trait of the
/// `image` crate); what the contracts need of it is named below.
#[verifier::external_body]
pub struct Picture {
    pub image: image::RgbImage,
}

/// The width a picture was made with.
pub uninterp spec fn picture_width(p: Picture) -> u32;

/// The height a picture was made with.
pub uninterp spec fn picture_height(p: Picture) -> u32;

/// The bytes a picture holds, row-major, three a pixel.
pub uninterp spec fn picture_bytes(p: Picture) -> Seq<u8>;

/// `ImageBuffer::width`: the width the buffer was made with.
#[verifier::external_body]
pub(crate) fn image_width(p: &Picture) -> (r: u32)
    ensures
        r == picture_width(*p),
{
    p.image.width()
}

/// `ImageBuffer::height`: the height the buffer was made with.
#[verifier::external_body]
pub(crate) fn image_height(p: &Picture) -> (r: u32)
    ensures
        r == picture_height(*p),
{
    p.image.height()
}

/// `ImageBuffer::as_raw`: the bytes of the buffer. They are at least three a
/// pixel: every constructor of `ImageBuffer` checks that (`check_image_fits`
/// in `from_raw`, the allocation in `new`), and no method changes the length.
#[verifier::external_body]
fn image_raw(p: &Picture) -> (r: &Vec<u8>)
    ensures
        r@ == picture_bytes(*p),
        r@.len() >= 3 * picture_width(*p) * picture_height(*p),
{
    p.image.as_raw()
}

/// `ImageBuffer::from_raw`: a buffer made of `buf`. It is refused when
/// `3 * width` or `3 * width * height` overflows `usize` (the two products are
/// checked in that order), or when `buf` holds fewer than three bytes a pixel.
#[verifier::external_body]
fn image_from_raw(width: u32, height: u32, buf: Vec<u8>) -> (r: Option<Picture>)
    ensures
        (3 * width <= usize::MAX && 3 * width * height <= usize::MAX && 3 * width * height
            <= buf@.len()) <==> r is Some,
        r matches Some(p) ==> picture_width(p) == width && picture_height(p) == height
            && picture_bytes(p) == buf@,
{
    image::RgbImage::from_raw(width, height, buf).map(|image| Picture { image })
}

/// The height of a canvas holding both pages.
pub open spec fn taller(l: Picture, r: Picture) -> int {
    if picture_height(l) > picture_height(r) {
        picture_height(l) as int
    } else {
        picture_height(r) as int
    }
}

/// Whether the joined canvas of two pages can be sized: its width fits a
/// `u32` and its bytes a `usize`.
pub open spec fn fits(l: Picture, r: Picture) -> bool {
    let total = picture_width(l) + 8 + picture_width(r);
    &&& total <= u32::MAX
    &&& total * 3 <= usize::MAX
    &&& total * 3 * taller(l, r) <= usize::MAX
}

/// `out` is the two pages `l` and `r` side by side, as `join` draws them.
pub open spec fn is_join(l: Picture, r: Picture, dark: bool, out: Picture) -> bool {
    let (lw, lh, rw, rh) = (
        picture_width(l) as int,
        picture_height(l) as int,
        picture_width(r) as int,
        picture_height(r) as int,
    );
    let height = taller(l, r);
    let row = (lw + 8 + rw) * 3;
    &&& picture_width(out) == lw + 8 + rw
    &&& picture_height(out) == height
    &&& picture_bytes(out).len() == height * row
    &&& forall|y: int, x: int|
        0 <= y < height && 0 <= x < row ==> picture_bytes(out)[y * row + x] == #[trigger] joined_byte(
            picture_bytes(l),
            lw,
            lh,
            picture_bytes(r),
            rw,
            rh,
            dark,
            y,
            x,
        )
}

pub fn join_fits(left: &Picture, right: &Picture) -> (b: bool)
    ensures
        b == fits(*left, *right),
{
    let lw = image_width(left) as u64;
    let rw = image_width(right) as u64;
    let lh = image_height(left);
    let rh = image_height(right);
    let total: u64 = lw + 8 + rw;
    if total > u32::MAX as u64 {
        return false;
    }
    let row = (total as usize).checked_mul(3);
    let height = if lh > rh {
        lh
    } else {
        rh
    };
    match row {
        Some(row) => row.checked_mul(height as usize).is_some(),
        None => false,
    }
}

/// The two facing pages on one canvas, as tall as the taller page, each
/// centred in its half with the gutter between. Nothing is resampled.
pub fn join(left: &Picture, right: &Picture, dark: bool) -> (r: Picture)
    requires
        fits(*left, *right),
    ensures
        is_join(*left, *right, dark, r),
{
    let lw = image_width(left);
    let lh = image_height(left);
    let rw = image_width(right);
    let rh = image_height(right);
    let lb = image_raw(left);
    let rb = image_raw(right);
    assert(3 * lw * lh == (lw as int) * 3 * (lh as int)) by (nonlinear_arith);
    assert(3 * rw * rh == (rw as int) * 3 * (rh as int)) by (nonlinear_arith);
    let out = join_pixels(lb.as_slice(), lw, lh, rb.as_slice(), rw, rh, dark);
    let total: u32 = lw + GUTTER + rw;
    let height: u32 = if lh > rh {
        lh
    } else {
        rh
    };
    assert(3 * total * height == (total as int) * 3 * (height as int)) by (nonlinear_arith);
    assert((lw as int + 8 + rw as int) * 3 * (height as int) == (height as int) * ((lw as int + 8
        + rw as int) * 3)) by (nonlinear_arith);
    image_from_raw(total, height, out).unwrap()
}

} // verus!

verus! {

#[verifier::external_type_specification]
#[verifier::external_body]
pub struct ExDynamicImage(image::DynamicImage);

#[verifier::external_type_specification]
#[verifier::external_body]
pub struct ExImageError(image::ImageError);

/// `image::load_from_memory`. What it gives depends on more than the bytes:
/// the format guessing and the decoders consult hooks that any code in the
/// process may register, so nothing is stated of the outcome.
#[verifier::external_body]
fn load_from_memory(bytes: &[u8]) -> (r: Result<image::DynamicImage, image::ImageError>) {
    image::load_from_memory(bytes)
}

/// The text of an `ImageError` (its `Display`). What it says depends on the
/// error; nothing of it is stated.
#[verifier::external_body]
fn error_text(e: &image::ImageError) -> (r: String) {
    format!("{}", e)
}

/// The page image in a file's bytes, or why it could not be decoded. Whether
/// decoding succeeds is left to the image crate (see `load_from_memory`).
pub fn decode_page(bytes: &[u8]) -> (r: Result<image::DynamicImage, String>) {
    match load_from_memory(bytes) {
        Ok(img) => Ok(img),
        Err(e) => Err(error_text(&e)),
    }
}

} // verus!
