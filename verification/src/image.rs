//! The integer bookkeeping of image output: where a pixel and a sample lie,
//! the row and column flips applied before display and saving, and the
//! packing of channels into display words and bytes.

use vstd::prelude::*;
use vstd::arithmetic::div_mod::{
    lemma_div_pos_is_pos, lemma_fundamental_div_mod, lemma_fundamental_div_mod_converse,
    lemma_mod_mod, lemma_mod_pos_bound,
};

verus! {

/// A position of a row-major grid of width `w` and height `h` lies in one
/// of its rows and columns.
proof fn lemma_grid(p: int, w: int, h: int)
    requires
        0 < w,
        0 <= p < w * h,
    ensures
        0 <= p / w < h,
        0 <= p % w < w,
        p == (p / w) * w + p % w,
{
    lemma_fundamental_div_mod(p, w);
    lemma_mod_pos_bound(p, w);
    lemma_div_pos_is_pos(p, w);
    assert((p / w) * w == w * (p / w)) by (nonlinear_arith);
    assert(p / w < h) by (nonlinear_arith)
        requires
            p == w * (p / w) + p % w,
            0 <= p % w,
            p < w * h,
            0 < w,
    ;
}

/// Row `r` and column `c` of such a grid are found again at `r * w + c`.
proof fn lemma_grid_inverse(r: int, c: int, w: int, h: int)
    requires
        0 <= r < h,
        0 <= c < w,
    ensures
        0 <= r * w + c < w * h,
        (r * w + c) / w == r,
        (r * w + c) % w == c,
{
    lemma_fundamental_div_mod_converse(r * w + c, w, r, c);
    assert(r * w + c < w * h) by (nonlinear_arith)
        requires
            0 <= r < h,
            0 <= c < w,
    ;
    assert(0 <= r * w) by (nonlinear_arith)
        requires
            0 <= r,
            0 < w,
    ;
}

/// The image upside down: the row `r` of a `w` by `h` image becomes row
/// `h - 1 - r`. The middle row of an odd height is not copied and holds
/// `fill`, as does every position past `w * h`.
pub open spec fn spec_flip_rows<T>(image: Seq<T>, w: int, h: int, fill: T) -> Seq<T> {
    Seq::new(
        image.len(),
        |p: int|
            if p < w * h && 2 * (p / w) + 1 != h {
                image[(h - 1 - p / w) * w + p % w]
            } else {
                fill
            },
    )
}

/// The image mirrored left to right: column `c` becomes column `w - 1 - c`.
/// The middle column of an odd width is not copied and holds `fill`, as does
/// every position past `w * h`.
pub open spec fn spec_flip_columns<T>(image: Seq<T>, w: int, h: int, fill: T) -> Seq<T> {
    Seq::new(
        image.len(),
        |p: int|
            if p < w * h && 2 * (p % w) + 1 != w {
                image[(p / w) * w + (w - 1 - p % w)]
            } else {
                fill
            },
    )
}

/// Turns a row-major image of `image_width` by `image_height` pixels upside
/// down, into a new image of the same length that starts out as `fill`.
pub fn flip_rows<T: Copy>(image: &Vec<T>, image_width: usize, image_height: usize, fill: T) -> (flipped: Vec<T>)
    requires
        image_width * image_height <= image@.len(),
    ensures
        flipped@ == spec_flip_rows(image@, image_width as int, image_height as int, fill),
{
    let image_len = image.len();
    proof {
        // the pixel count is bounded by the length, and so fits in a usize
        assert(image_width * image_height <= image_len);
    }
    let total = image_width * image_height;
    let mut flipped: Vec<T> = Vec::new();
    let mut p: usize = 0;
    while p < image.len()
        invariant
            total == image_width * image_height <= image@.len(),
            p <= image@.len(),
            flipped@.len() == p,
            forall|q: int|
                0 <= q < p ==> flipped@[q] == spec_flip_rows(
                    image@,
                    image_width as int,
                    image_height as int,
                    fill,
                )[q],
        decreases image@.len() - p,
    {
        if p < total {
            proof {
                assert(image_width > 0) by (nonlinear_arith)
                    requires
                        p < image_width * image_height,
                ;
                lemma_grid(p as int, image_width as int, image_height as int);
            }
            let row = p / image_width;
            let column = p % image_width;
            if row != image_height - 1 - row {
                proof {
                    lemma_grid_inverse(
                        image_height - 1 - row,
                        column as int,
                        image_width as int,
                        image_height as int,
                    );
                }
                flipped.push(image[(image_height - 1 - row) * image_width + column]);
            } else {
                flipped.push(fill);
            }
        } else {
            flipped.push(fill);
        }
        p = p + 1;
    }
    assert(flipped@ =~= spec_flip_rows(image@, image_width as int, image_height as int, fill));
    flipped
}

/// Mirrors a row-major image of `image_width` by `image_height` pixels left
/// to right, into a new image of the same length that starts out as `fill`.
pub fn flip_columns<T: Copy>(image: &Vec<T>, image_width: usize, image_height: usize, fill: T) -> (flipped: Vec<T>)
    requires
        image_width * image_height <= image@.len(),
    ensures
        flipped@ == spec_flip_columns(image@, image_width as int, image_height as int, fill),
{
    let image_len = image.len();
    proof {
        // the pixel count is bounded by the length, and so fits in a usize
        assert(image_width * image_height <= image_len);
    }
    let total = image_width * image_height;
    let mut flipped: Vec<T> = Vec::new();
    let mut p: usize = 0;
    while p < image.len()
        invariant
            total == image_width * image_height <= image@.len(),
            p <= image@.len(),
            flipped@.len() == p,
            forall|q: int|
                0 <= q < p ==> flipped@[q] == spec_flip_columns(
                    image@,
                    image_width as int,
                    image_height as int,
                    fill,
                )[q],
        decreases image@.len() - p,
    {
        if p < total {
            proof {
                assert(image_width > 0) by (nonlinear_arith)
                    requires
                        p < image_width * image_height,
                ;
                lemma_grid(p as int, image_width as int, image_height as int);
            }
            let row = p / image_width;
            let column = p % image_width;
            if column != image_width - 1 - column {
                proof {
                    lemma_grid_inverse(
                        row as int,
                        image_width - 1 - column,
                        image_width as int,
                        image_height as int,
                    );
                }
                flipped.push(image[row * image_width + (image_width - 1 - column)]);
            } else {
                flipped.push(fill);
            }
        } else {
            flipped.push(fill);
        }
        p = p + 1;
    }
    assert(flipped@ =~= spec_flip_columns(image@, image_width as int, image_height as int, fill));
    flipped
}

/// Turning an image of even height upside down twice gives it back.
pub proof fn lemma_flip_rows_twice<T>(image: Seq<T>, w: int, h: int, fill: T)
    requires
        0 < w,
        0 <= h,
        h % 2 == 0,
        image.len() == w * h,
    ensures
        spec_flip_rows(spec_flip_rows(image, w, h, fill), w, h, fill) == image,
{
    let once = spec_flip_rows(image, w, h, fill);
    let twice = spec_flip_rows(once, w, h, fill);
    assert forall|p: int| 0 <= p < image.len() implies twice[p] == image[p] by {
        lemma_grid(p, w, h);
        let r = p / w;
        let c = p % w;
        let q = (h - 1 - r) * w + c;
        lemma_grid_inverse(h - 1 - r, c, w, h);
        assert(2 * r + 1 != h);
        assert(2 * (h - 1 - r) + 1 != h);
        assert(twice[p] == once[q]);
        assert(once[q] == image[(h - 1 - (h - 1 - r)) * w + c]);
    }
    assert(twice =~= image);
}

/// Mirroring an image of even width twice gives it back.
pub proof fn lemma_flip_columns_twice<T>(image: Seq<T>, w: int, h: int, fill: T)
    requires
        0 < w,
        0 <= h,
        w % 2 == 0,
        image.len() == w * h,
    ensures
        spec_flip_columns(spec_flip_columns(image, w, h, fill), w, h, fill) == image,
{
    let once = spec_flip_columns(image, w, h, fill);
    let twice = spec_flip_columns(once, w, h, fill);
    assert forall|p: int| 0 <= p < image.len() implies twice[p] == image[p] by {
        lemma_grid(p, w, h);
        let r = p / w;
        let c = p % w;
        let q = r * w + (w - 1 - c);
        lemma_grid_inverse(r, w - 1 - c, w, h);
        assert(2 * c + 1 != w);
        assert(2 * (w - 1 - c) + 1 != w);
        assert(twice[p] == once[q]);
        assert(once[q] == image[r * w + (w - 1 - (w - 1 - c))]);
    }
    assert(twice =~= image);
}

/// The column and row of a pixel of a row-major image of the given width.
pub fn pixel_position(pixel_index: usize, image_width: usize) -> (position: (usize, usize))
    requires
        image_width > 0,
    ensures
        position.0 == pixel_index % image_width,
        position.1 == pixel_index / image_width,
        position.0 < image_width,
        pixel_index == position.1 * image_width + position.0,
{
    let column_index = pixel_index % image_width;
    let row_index = pixel_index / image_width;
    proof {
        lemma_fundamental_div_mod(pixel_index as int, image_width as int);
        assert(row_index * image_width == image_width * row_index) by (nonlinear_arith);
    }
    (column_index, row_index)
}

/// The subpixel cell `(sx, sy)` in which sample `sample_index` of a pixel is
/// taken: the samples of a pixel run through the cells row by row, giving
/// each cell `samples_per_pixel` consecutive samples.
pub fn subpixel_position(sample_index: usize, subpixels_per_pixel: usize, samples_per_pixel: usize) -> (cell: (usize, usize))
    requires
        subpixels_per_pixel > 0,
        samples_per_pixel > 0,
        subpixels_per_pixel * samples_per_pixel <= usize::MAX,
    ensures
        cell.0 == (sample_index as int % (subpixels_per_pixel * samples_per_pixel))
            / samples_per_pixel as int,
        cell.1 == sample_index as int / (samples_per_pixel * subpixels_per_pixel),
        sample_index == cell.1 * (subpixels_per_pixel * samples_per_pixel) + cell.0
            * samples_per_pixel + sample_index % samples_per_pixel,
        cell.0 < subpixels_per_pixel,
        sample_index < subpixels_per_pixel * subpixels_per_pixel * samples_per_pixel ==> cell.1
            < subpixels_per_pixel,
{
    let row_span = subpixels_per_pixel * samples_per_pixel;
    proof {
        let n = subpixels_per_pixel as int;
        let s = samples_per_pixel as int;
        assert(s * n == n * s) by (nonlinear_arith);
        assert(0 < n * s) by (nonlinear_arith)
            requires
                0 < n,
                0 < s,
        ;
    }
    let sx = (sample_index % row_span) / samples_per_pixel;
    let sy = sample_index / (samples_per_pixel * subpixels_per_pixel);
    proof {
        let x = sample_index as int;
        let n = subpixels_per_pixel as int;
        let s = samples_per_pixel as int;
        let m = n * s;
        lemma_fundamental_div_mod(x, m);
        lemma_mod_pos_bound(x, m);
        let within = x % m;
        lemma_fundamental_div_mod(within, s);
        lemma_mod_mod(x, s, n);
        assert(within % s == x % s);
        assert(sy == x / m);
        assert(x == (x / m) * m + sx * s + x % s) by (nonlinear_arith)
            requires
                x == m * (x / m) + within,
                within == s * (within / s) + within % s,
                sx == within / s,
                within % s == x % s,
        ;
        lemma_div_pos_is_pos(within, s);
        assert(sx < n) by (nonlinear_arith)
            requires
                within == s * sx + within % s,
                0 <= within % s,
                within < m,
                m == n * s,
                0 < s,
        ;
        lemma_div_pos_is_pos(x, m);
        if x < n * n * s {
            assert(x / m < n) by (nonlinear_arith)
                requires
                    x == m * (x / m) + within,
                    0 <= within,
                    x < n * n * s,
                    m == n * s,
                    0 < m,
            ;
        }
    }
    (sx, sy)
}

/// Packs three channels into a display word as `0x00RRGGBB`.
pub fn pack_rgb(r: u32, g: u32, b: u32) -> (packed: u32)
    ensures
        packed == (r << 16u32) | (g << 8u32) | b,
        r < 256 && g < 256 && b < 256 ==> (packed >> 16u32) & 255 == r && (packed >> 8u32)
            & 255 == g && packed & 255 == b,
{
    let packed = (r << 16u32) | (g << 8u32) | b;
    proof {
        if r < 256 && g < 256 && b < 256 {
            assert((packed >> 16u32) & 255 == r && (packed >> 8u32) & 255 == g && packed & 255
                == b) by (bit_vector)
                requires
                    packed == (r << 16u32) | (g << 8u32) | b,
                    r < 256 && g < 256 && b < 256,
            ;
        }
    }
    packed
}

/// The words handed to the display window: every pixel packed, the last
/// pixel first.
pub fn window_buffer(pixels: &Vec<(u32, u32, u32)>) -> (buffer: Vec<u32>)
    ensures
        buffer@.len() == pixels@.len(),
        forall|i: int|
            0 <= i < pixels@.len() ==> {
                let pixel = pixels@[pixels@.len() - 1 - i];
                #[trigger] buffer@[i] == (pixel.0 << 16u32) | (pixel.1 << 8u32) | pixel.2
            },
{
    let mut buffer: Vec<u32> = Vec::new();
    let mut i: usize = pixels.len();
    while i > 0
        invariant
            i <= pixels@.len(),
            buffer@.len() == pixels@.len() - i,
            forall|k: int|
                0 <= k < buffer@.len() ==> {
                    let pixel = pixels@[pixels@.len() - 1 - k];
                    #[trigger] buffer@[k] == (pixel.0 << 16u32) | (pixel.1 << 8u32) | pixel.2
                },
        decreases i,
    {
        i = i - 1;
        let pixel = pixels[i];
        buffer.push(pack_rgb(pixel.0, pixel.1, pixel.2));
    }
    buffer
}

/// The bytes of an RGBA image: each pixel's three channels, then an opaque
/// alpha of 255.
pub fn rgba_bytes(pixels: &Vec<(u8, u8, u8)>) -> (bytes: Vec<u8>)
    requires
        pixels@.len() * 4 <= usize::MAX,
    ensures
        bytes@.len() == pixels@.len() * 4,
        forall|i: int|
            0 <= i < pixels@.len() ==> {
                &&& bytes@[4 * i] == pixels@[i].0
                &&& bytes@[4 * i + 1] == pixels@[i].1
                &&& bytes@[4 * i + 2] == pixels@[i].2
                &&& bytes@[4 * i + 3] == 255
            },
{
    let mut bytes: Vec<u8> = Vec::new();
    let mut i: usize = 0;
    while i < pixels.len()
        invariant
            i <= pixels@.len(),
            pixels@.len() * 4 <= usize::MAX,
            bytes@.len() == i * 4,
            forall|k: int|
                0 <= k < i ==> {
                    &&& bytes@[4 * k] == pixels@[k].0
                    &&& bytes@[4 * k + 1] == pixels@[k].1
                    &&& bytes@[4 * k + 2] == pixels@[k].2
                    &&& bytes@[4 * k + 3] == 255
                },
        decreases pixels@.len() - i,
    {
        let pixel = pixels[i];
        let ghost before = bytes@;
        bytes.push(pixel.0);
        bytes.push(pixel.1);
        bytes.push(pixel.2);
        bytes.push(255u8);
        proof {
            assert(bytes@ =~= before + seq![pixel.0, pixel.1, pixel.2, 255u8]);
            assert forall|k: int| 0 <= k < i + 1 implies {
                &&& bytes@[4 * k] == pixels@[k].0
                &&& bytes@[4 * k + 1] == pixels@[k].1
                &&& bytes@[4 * k + 2] == pixels@[k].2
                &&& bytes@[4 * k + 3] == 255
            } by {
                if k < i {
                    assert(bytes@[4 * k] == before[4 * k]);
                    assert(bytes@[4 * k + 1] == before[4 * k + 1]);
                    assert(bytes@[4 * k + 2] == before[4 * k + 2]);
                    assert(bytes@[4 * k + 3] == before[4 * k + 3]);
                }
            }
        }
        i = i + 1;
    }
    bytes
}

/// The bytes of an RGB image: each pixel's three channels in turn.
pub fn rgb_bytes(pixels: &Vec<(u8, u8, u8)>) -> (bytes: Vec<u8>)
    requires
        pixels@.len() * 3 <= usize::MAX,
    ensures
        bytes@.len() == pixels@.len() * 3,
        forall|i: int|
            0 <= i < pixels@.len() ==> {
                &&& bytes@[3 * i] == pixels@[i].0
                &&& bytes@[3 * i + 1] == pixels@[i].1
                &&& bytes@[3 * i + 2] == pixels@[i].2
            },
{
    let mut bytes: Vec<u8> = Vec::new();
    let mut i: usize = 0;
    while i < pixels.len()
        invariant
            i <= pixels@.len(),
            pixels@.len() * 3 <= usize::MAX,
            bytes@.len() == i * 3,
            forall|k: int|
                0 <= k < i ==> {
                    &&& bytes@[3 * k] == pixels@[k].0
                    &&& bytes@[3 * k + 1] == pixels@[k].1
                    &&& bytes@[3 * k + 2] == pixels@[k].2
                },
        decreases pixels@.len() - i,
    {
        let pixel = pixels[i];
        let ghost before = bytes@;
        bytes.push(pixel.0);
        bytes.push(pixel.1);
        bytes.push(pixel.2);
        proof {
            assert(bytes@ =~= before + seq![pixel.0, pixel.1, pixel.2]);
            assert forall|k: int| 0 <= k < i + 1 implies {
                &&& bytes@[3 * k] == pixels@[k].0
                &&& bytes@[3 * k + 1] == pixels@[k].1
                &&& bytes@[3 * k + 2] == pixels@[k].2
            } by {
                if k < i {
                    assert(bytes@[3 * k] == before[3 * k]);
                    assert(bytes@[3 * k + 1] == before[3 * k + 1]);
                    assert(bytes@[3 * k + 2] == before[3 * k + 2]);
                }
            }
        }
        i = i + 1;
    }
    bytes
}

} // verus!
