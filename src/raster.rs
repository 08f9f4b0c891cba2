use image::{ImageBuffer, Rgba};
use vstd::prelude::*;

use crate::decode::PixelGrid;
use crate::pixel::RgbaPixel;

verus! {

/// An RGBA image buffer of the image crate, eight bits a channel.
#[verifier::external_body]
pub struct RgbaImage {
    pub buffer: ImageBuffer<Rgba<u8>, Vec<u8>>,
}

/// The pixels of an RGBA buffer in row-major order, one entry per position.
pub uninterp spec fn image_pixels(img: RgbaImage) -> Seq<RgbaPixel>;

/// The width of an RGBA buffer.
pub uninterp spec fn image_width(img: RgbaImage) -> nat;

/// The height of an RGBA buffer.
pub uninterp spec fn image_height(img: RgbaImage) -> nat;

/// Relies on `ImageBuffer::new`: a `width` by `height` buffer whose channels
/// are all zero. It panics when the channel count overflows, and a vector
/// holds at most `isize::MAX` bytes; `requires` leaves both out.
#[verifier::external_body]
fn new_image(width: u32, height: u32) -> (r: RgbaImage)
    requires
        4 * width * height <= isize::MAX,
    ensures
        image_width(r) == width,
        image_height(r) == height,
        image_pixels(r) == Seq::new((width * height) as nat, |i: int| RgbaPixel { r: 0, g: 0, b: 0, a: 0 }),
{
    RgbaImage { buffer: ImageBuffer::new(width, height) }
}

/// Relies on `ImageBuffer::put_pixel`: sets the pixel at column `x` of row
/// `y`, entry `y * width + x` of the row-major data. It panics outside the
/// bounds, which `requires` leaves out.
#[verifier::external_body]
fn put_pixel(img: &mut RgbaImage, x: u32, y: u32, p: RgbaPixel)
    requires
        x < image_width(*old(img)),
        y < image_height(*old(img)),
    ensures
        image_width(*final(img)) == image_width(*old(img)),
        image_height(*final(img)) == image_height(*old(img)),
        image_pixels(*final(img)) == image_pixels(*old(img)).update(
            y * image_width(*old(img)) + x,
            p,
        ),
{
    img.buffer.put_pixel(x, y, Rgba([p.r, p.g, p.b, p.a]))
}

/// The grid fits an RGBA buffer: four bytes a pixel, within `isize::MAX`.
pub open spec fn fits_buffer(width: u32, height: u32) -> bool {
    4 * width * height <= isize::MAX
}

/// Copies a decoded grid into an RGBA buffer: the pixel of row `row` and
/// column `col` goes to `x = col`, `y = row`. `None` when the buffer's
/// channel data would not fit in memory.
pub fn to_image(grid: &PixelGrid) -> (r: Option<RgbaImage>)
    requires
        grid.wf(),
    ensures
        r is None <==> !fits_buffer(grid.width, grid.height),
        r matches Some(img) ==> {
            &&& image_width(img) == grid.width
            &&& image_height(img) == grid.height
            &&& image_pixels(img) == grid.pixels@
        },
{
    let n = grid.pixels.len();
    proof {
        let (w, h) = (grid.width as int, grid.height as int);
        assert(4 * w * h == 4 * (w * h)) by (nonlinear_arith);
    }
    if n > (isize::MAX as usize) / 4 {
        return None;
    }
    let mut img = new_image(grid.width, grid.height);
    let w = grid.width;
    let mut pos: usize = 0;
    while pos < n
        invariant
            grid.wf(),
            n == grid.pixels@.len(),
            w == grid.width,
            pos <= n,
            image_width(img) == grid.width,
            image_height(img) == grid.height,
            image_pixels(img).len() == n,
            forall|j: int| 0 <= j < pos ==> #[trigger] image_pixels(img)[j] == grid.pixels@[j],
        decreases n - pos,
    {
        proof {
            lemma_position(pos as int, w as int, grid.height as int);
        }
        let row = (pos as u64 / w as u64) as u32;
        let col = (pos as u64 % w as u64) as u32;
        put_pixel(&mut img, col, row, grid.pixels[pos]);
        pos = pos + 1;
    }
    proof {
        assert(image_pixels(img) =~= grid.pixels@);
    }
    Some(img)
}

/// Position `pos` of a row-major `w` by `h` grid lies in row `pos / w` and
/// column `pos % w`, both in range.
proof fn lemma_position(pos: int, w: int, h: int)
    requires
        0 <= pos < w * h,
        0 <= w,
        0 <= h,
    ensures
        0 < w,
        0 <= pos / w < h,
        0 <= pos % w < w,
        (pos / w) * w + pos % w == pos,
{
    assert(0 < w) by (nonlinear_arith)
        requires
            0 <= pos < w * h,
            0 <= h,
    ;
    vstd::arithmetic::div_mod::lemma_fundamental_div_mod(pos, w);
    vstd::arithmetic::div_mod::lemma_div_pos_is_pos(pos, w);
    let (q, m) = (pos / w, pos % w);
    assert(q * w == w * q) by (nonlinear_arith);
    assert(q < h) by (nonlinear_arith)
        requires
            pos == q * w + m,
            0 <= m,
            pos < w * h,
            0 < w,
    ;
}

} // verus!
