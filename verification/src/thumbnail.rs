//! Thumbnails of clips.
//!
//! A picture of the clip is scaled down and written as PNG, once, next to the
//! clip.
use vstd::prelude::*;

verus! {

/// Width of a thumbnail. Its height follows the shape of the picture.
pub const THUMBNAIL_WIDTH: u32 = 480;

/// Width of the thumbnail of a picture: never above its own.
pub open spec fn thumb_width(width: u32) -> int {
    if width < THUMBNAIL_WIDTH {
        width as int
    } else {
        THUMBNAIL_WIDTH as int
    }
}

/// Height of the thumbnail of a picture: in proportion, and at least one row.
pub open spec fn thumb_height(width: u32, height: u32) -> int {
    let scaled = height * thumb_width(width) / (width as int);
    if scaled < 1 {
        1
    } else {
        scaled
    }
}

/// The row of the picture that a row of the thumbnail shows. Pictures are stored
/// from the bottom up, so that the first row of the thumbnail is near the end.
pub open spec fn source_row(width: u32, height: u32, y: int) -> int {
    height - 1 - y * height / thumb_height(width, height)
}

/// The column of the picture that a column of the thumbnail shows.
pub open spec fn source_column(width: u32, x: int) -> int {
    x * width / thumb_width(width)
}

/// The place of a pixel in the bytes of a picture.
pub open spec fn source_offset(width: u32, height: u32, x: int, y: int) -> int {
    (source_row(width, height, y) * width + source_column(width, x)) * 4
}

/// A pixel of the thumbnail: the three colours, which the picture holds in the
/// opposite order, and full opacity. Black where the picture is too short.
pub open spec fn thumb_pixel(pixels: Seq<u8>, width: u32, height: u32, x: int, y: int) -> Seq<u8> {
    let o = source_offset(width, height, x, y);
    if o + 4 <= pixels.len() {
        seq![pixels[o + 2], pixels[o + 1], pixels[o], 255u8]
    } else {
        seq![0u8, 0u8, 0u8, 255u8]
    }
}

/// The first `n` pixels of a row of the thumbnail.
pub open spec fn thumb_row(pixels: Seq<u8>, width: u32, height: u32, y: int, n: int) -> Seq<u8>
    decreases n,
{
    if n <= 0 {
        Seq::empty()
    } else {
        thumb_row(pixels, width, height, y, n - 1) + thumb_pixel(pixels, width, height, n - 1, y)
    }
}

/// The first `n` rows of the thumbnail.
pub open spec fn thumb_rows(pixels: Seq<u8>, width: u32, height: u32, n: int) -> Seq<u8>
    decreases n,
{
    if n <= 0 {
        Seq::empty()
    } else {
        thumb_rows(pixels, width, height, n - 1) + thumb_row(
            pixels,
            width,
            height,
            n - 1,
            thumb_width(width),
        )
    }
}

/// The thumbnail of a picture.
pub open spec fn thumb(pixels: Seq<u8>, width: u32, height: u32) -> Seq<u8> {
    thumb_rows(pixels, width, height, thumb_height(width, height))
}

proof fn thumb_size(width: u32, height: u32)
    requires
        width > 0,
        height > 0,
    ensures
        1 <= thumb_width(width) <= width,
        thumb_width(width) <= 480,
        1 <= thumb_height(width, height) <= height,
{
    let (w, h, t) = (width as int, height as int, thumb_width(width));
    assert(h * t / w <= h) by (nonlinear_arith)
        requires
            0 < t <= w,
            h > 0,
    ;
    assert(h * t / w >= 0) by (nonlinear_arith)
        requires
            t > 0,
            w > 0,
            h > 0,
    ;
}

proof fn row_in_picture(width: u32, height: u32, x: int, y: int)
    requires
        width > 0,
        height > 0,
        0 <= x < thumb_width(width),
        0 <= y < thumb_height(width, height),
    ensures
        0 <= y * height / thumb_height(width, height) < height,
        0 <= source_row(width, height, y) < height,
        0 <= source_column(width, x) < width,
        0 <= source_offset(width, height, x, y),
        source_offset(width, height, x, y) + 4 <= width * height * 4,
{
    thumb_size(width, height);
    let (w, h) = (width as int, height as int);
    let (tw, th) = (thumb_width(width), thumb_height(width, height));
    assert(0 <= y * h / th < h) by (nonlinear_arith)
        requires
            0 <= y < th,
            h > 0,
    ;
    assert(0 <= x * w / tw < w) by (nonlinear_arith)
        requires
            0 <= x < tw,
            w > 0,
    ;
    let (r, c) = (source_row(width, height, y), source_column(width, x));
    assert(0 <= r * w + c) by (nonlinear_arith)
        requires
            r >= 0,
            c >= 0,
            w > 0,
    ;
    assert(r * w + c + 1 <= w * h) by (nonlinear_arith)
        requires
            r < h,
            c < w,
            r >= 0,
            w > 0,
    ;
}

proof fn row_length(pixels: Seq<u8>, width: u32, height: u32, y: int, n: int)
    requires
        n >= 0,
    ensures
        thumb_row(pixels, width, height, y, n).len() == 4 * n,
    decreases n,
{
    if n > 0 {
        row_length(pixels, width, height, y, n - 1);
    }
}

proof fn rows_length(pixels: Seq<u8>, width: u32, height: u32, n: int)
    requires
        n >= 0,
    ensures
        thumb_rows(pixels, width, height, n).len() == 4 * thumb_width(width) * n,
    decreases n,
{
    if n > 0 {
        let t = thumb_width(width);
        rows_length(pixels, width, height, n - 1);
        row_length(pixels, width, height, n - 1, t);
        assert(4 * t * (n - 1) + 4 * t == 4 * t * n) by (nonlinear_arith);
    } else {
        assert(4 * thumb_width(width) * 0 == 0);
    }
}

/// Size of the thumbnail of a picture.
pub fn thumbnail_size(width: u32, height: u32) -> (r: (u32, u32))
    requires
        width > 0,
        height > 0,
    ensures
        r.0 == thumb_width(width),
        r.1 == thumb_height(width, height),
{
    proof {
        thumb_size(width, height);
    }
    let target_width: u32 = if width < THUMBNAIL_WIDTH {
        width
    } else {
        THUMBNAIL_WIDTH
    };
    proof {
        let (h, t) = (height as int, target_width as int);
        assert(0 <= h * t <= 0xffff_ffff * 480) by (nonlinear_arith)
            requires
                0 <= h <= 0xffff_ffff,
                0 <= t <= 480,
        ;
    }
    let scaled: u64 = height as u64 * target_width as u64 / width as u64;
    let target_height: u32 = if scaled < 1 {
        1
    } else {
        scaled as u32
    };
    (target_width, target_height)
}

/// Scales a picture down to its thumbnail, with four bytes per pixel: red, green,
/// blue and opacity.
pub fn scale(pixels: &Vec<u8>, width: u32, height: u32) -> (r: Vec<u8>)
    requires
        width > 0,
        height > 0,
        width * height * 4 <= u64::MAX,
    ensures
        r@ == thumb(pixels@, width, height),
        r@.len() == 4 * thumb_width(width) * thumb_height(width, height),
{
    proof {
        thumb_size(width, height);
        rows_length(pixels@, width, height, thumb_height(width, height));
    }
    let (target_width, target_height) = thumbnail_size(width, height);
    let mut rgba: Vec<u8> = Vec::new();
    for y in 0..target_height
        invariant
            width > 0,
            height > 0,
            width * height * 4 <= u64::MAX,
            target_width == thumb_width(width),
            target_height == thumb_height(width, height),
            rgba@ == thumb_rows(pixels@, width, height, y as int),
    {
        let ghost above = rgba@;
        proof {
            row_in_picture(width, height, 0, y as int);
            let (a, b) = (y as int, height as int);
            assert(0 <= a * b <= 0xffff_ffff * 0xffff_ffff) by (nonlinear_arith)
                requires
                    0 <= a <= 0xffff_ffff,
                    0 <= b <= 0xffff_ffff,
            ;
        }
        let source_y: u64 = height as u64 - 1 - y as u64 * height as u64 / target_height as u64;
        for x in 0..target_width
            invariant
                width > 0,
                height > 0,
                width * height * 4 <= u64::MAX,
                target_width == thumb_width(width),
                target_height == thumb_height(width, height),
                y < target_height,
                source_y == source_row(width, height, y as int),
                rgba@ == above + thumb_row(pixels@, width, height, y as int, x as int),
        {
            proof {
                row_in_picture(width, height, x as int, y as int);
                let (a, b) = (x as int, width as int);
                assert(0 <= a * b <= 0xffff_ffff * 0xffff_ffff) by (nonlinear_arith)
                    requires
                        0 <= a <= 0xffff_ffff,
                        0 <= b <= 0xffff_ffff,
                ;
                let (c, d, e) = (source_y as int, width as int, height as int);
                assert(0 <= c * d <= d * e) by (nonlinear_arith)
                    requires
                        0 <= c < e,
                        d > 0,
                ;
            }
            let source_x: u64 = x as u64 * width as u64 / target_width as u64;
            let offset: u64 = (source_y * width as u64 + source_x) * 4;
            let ghost before = rgba@;
            if offset + 4 <= pixels.len() as u64 {
                let o: usize = offset as usize;
                rgba.push(pixels[o + 2]);
                rgba.push(pixels[o + 1]);
                rgba.push(pixels[o]);
                rgba.push(255);
            } else {
                rgba.push(0);
                rgba.push(0);
                rgba.push(0);
                rgba.push(255);
            }
            proof {
                let pixel = thumb_pixel(pixels@, width, height, x as int, y as int);
                assert(rgba@ =~= before + pixel);
                assert(rgba@ =~= above + thumb_row(pixels@, width, height, y as int, x + 1));
            }
        }
    }
    rgba
}

/// Why a thumbnail cannot be made.
#[derive(Debug, Clone, Copy, PartialEq, Eq, Structural)]
pub enum ThumbnailError {
    UnknownSize,
    /// The encoder refused the picture.
    Encoding,
}

/// An error of the PNG encoder.
#[verifier::external_type_specification]
#[verifier::external_body]
pub struct ExEncodingError(png::EncodingError);

/// What the PNG encoder makes of a picture with four bytes per pixel; nothing
/// where it refuses it.
pub uninterp spec fn png_rgba8(rgba: Seq<u8>, width: u32, height: u32) -> Option<Seq<u8>>;

/// The four bytes of a number, the highest first.
pub open spec fn big_endian(n: u32) -> Seq<u8> {
    seq![
        (n / 0x100_0000) as u8,
        ((n / 0x1_0000) % 0x100) as u8,
        ((n / 0x100) % 0x100) as u8,
        (n % 0x100) as u8,
    ]
}

/// Whether bytes begin as a PNG file of a given size: with the signature, and a
/// first chunk that holds the width and the height.
pub open spec fn is_png_of_size(bytes: Seq<u8>, width: u32, height: u32) -> bool {
    &&& bytes.len() > 24
    &&& bytes.take(8) == seq![137u8, 80u8, 78u8, 71u8, 13u8, 10u8, 26u8, 10u8]
    &&& bytes.subrange(16, 20) == big_endian(width)
    &&& bytes.subrange(20, 24) == big_endian(height)
}

/// Encodes a picture with `png::Encoder`: colour type RGBA, eight bits, then
/// `write_header` and `write_image_data`.
///
/// The encoder writes to memory and its result depends on the picture alone. It
/// refuses an empty size and a buffer that does not hold four bytes per pixel;
/// what it accepts begins with the PNG signature and a header of that size. That
/// it accepts everything else is not claimed.
#[verifier::external_body]
fn encode_rgba8(rgba: &Vec<u8>, width: u32, height: u32) -> (r: Result<
    Vec<u8>,
    png::EncodingError,
>)
    requires
        (4 * width + 1) * height <= usize::MAX,
    ensures
        match r {
            Ok(bytes) => {
                &&& png_rgba8(rgba@, width, height) == Some(bytes@)
                &&& width > 0
                &&& height > 0
                &&& rgba@.len() == 4 * width * height
                &&& is_png_of_size(bytes@, width, height)
            },
            Err(_) => png_rgba8(rgba@, width, height) is None,
        },
{
    let mut bytes = Vec::new();
    let mut encoder = png::Encoder::new(&mut bytes, width, height);
    encoder.set_color(png::ColorType::Rgba);
    encoder.set_depth(png::BitDepth::Eight);
    encoder.write_header()?.write_image_data(rgba)?;
    Ok(bytes)
}

/// Turns the answer of the encoder into that of the library.
pub fn encoded(answer: Result<Vec<u8>, png::EncodingError>) -> (r: Result<Vec<u8>, ThumbnailError>)
    ensures
        r == (match answer {
            Ok(bytes) => Ok::<Vec<u8>, ThumbnailError>(bytes),
            Err(_) => Err(ThumbnailError::Encoding),
        }),
{
    match answer {
        Ok(bytes) => Ok(bytes),
        Err(_) => Err(ThumbnailError::Encoding),
    }
}

/// Makes the thumbnail of a picture, as the bytes of a PNG file.
pub fn extract_thumbnail(pixels: &Vec<u8>, width: u32, height: u32) -> (r: Result<
    Vec<u8>,
    ThumbnailError,
>)
    requires
        width * height * 4 <= u64::MAX,
        width > 0 && height > 0 ==> (4 * thumb_width(width) + 1) * thumb_height(width, height)
            <= usize::MAX,
    ensures
        width == 0 || height == 0 ==> r is Err && r->Err_0 == ThumbnailError::UnknownSize,
        width > 0 && height > 0 ==> match r {
            Ok(bytes) => {
                &&& png_rgba8(
                    thumb(pixels@, width, height),
                    thumb_width(width) as u32,
                    thumb_height(width, height) as u32,
                ) == Some(bytes@)
                &&& is_png_of_size(
                    bytes@,
                    thumb_width(width) as u32,
                    thumb_height(width, height) as u32,
                )
            },
            Err(e) => {
                &&& png_rgba8(
                    thumb(pixels@, width, height),
                    thumb_width(width) as u32,
                    thumb_height(width, height) as u32,
                ) is None
                &&& e == ThumbnailError::Encoding
            },
        },
{
    if width == 0 || height == 0 {
        return Err(ThumbnailError::UnknownSize);
    }
    let (target_width, target_height) = thumbnail_size(width, height);
    let rgba = scale(pixels, width, height);
    encoded(encode_rgba8(&rgba, target_width, target_height))
}

proof fn pixel_in_row(pixels: Seq<u8>, width: u32, height: u32, y: int, n: int, x: int)
    requires
        0 <= x < n,
    ensures
        thumb_row(pixels, width, height, y, n).subrange(4 * x, 4 * x + 4) == thumb_pixel(
            pixels,
            width,
            height,
            x,
            y,
        ),
    decreases n,
{
    let row = thumb_row(pixels, width, height, y, n);
    let before = thumb_row(pixels, width, height, y, n - 1);
    row_length(pixels, width, height, y, n);
    row_length(pixels, width, height, y, n - 1);
    if x < n - 1 {
        pixel_in_row(pixels, width, height, y, n - 1, x);
        assert(row.subrange(4 * x, 4 * x + 4) =~= before.subrange(4 * x, 4 * x + 4));
    } else {
        assert(row.subrange(4 * x, 4 * x + 4) =~= thumb_pixel(pixels, width, height, x, y));
    }
}

proof fn row_in_rows(pixels: Seq<u8>, width: u32, height: u32, n: int, y: int)
    requires
        0 <= y < n,
    ensures
        ({
            let t = 4 * thumb_width(width);
            thumb_rows(pixels, width, height, n).subrange(t * y, t * y + t) == thumb_row(
                pixels,
                width,
                height,
                y,
                thumb_width(width),
            )
        }),
        4 * thumb_width(width) * y >= 0,
    decreases n,
{
    let w = thumb_width(width);
    let t = 4 * w;
    let rows = thumb_rows(pixels, width, height, n);
    let before = thumb_rows(pixels, width, height, n - 1);
    rows_length(pixels, width, height, n);
    rows_length(pixels, width, height, n - 1);
    row_length(pixels, width, height, n - 1, w);
    assert(t * (n - 1) + t == t * n) by (nonlinear_arith);
    assert(0 <= t * y) by (nonlinear_arith)
        requires
            t >= 0,
            y >= 0,
    ;
    if y < n - 1 {
        row_in_rows(pixels, width, height, n - 1, y);
        assert(t * y + t <= t * (n - 1)) by (nonlinear_arith)
            requires
                t >= 0,
                y + 1 <= n - 1,
        ;
        assert(rows.subrange(t * y, t * y + t) =~= before.subrange(t * y, t * y + t));
    } else {
        assert(rows.subrange(t * y, t * y + t) =~= thumb_row(pixels, width, height, y, w));
    }
}

/// Every pixel of a thumbnail shows the pixel of the picture that its place calls
/// for, the right way up.
pub proof fn pixels_are_in_place(pixels: Seq<u8>, width: u32, height: u32, x: int, y: int)
    requires
        width > 0,
        height > 0,
        0 <= x < thumb_width(width),
        0 <= y < thumb_height(width, height),
    ensures
        ({
            let at = 4 * thumb_width(width) * y + 4 * x;
            thumb(pixels, width, height).subrange(at, at + 4) == thumb_pixel(
                pixels,
                width,
                height,
                x,
                y,
            )
        }),
        source_row(width, height, 0) == height - 1,
{
    let w = thumb_width(width);
    let h = thumb_height(width, height);
    let t = 4 * w;
    thumb_size(width, height);
    row_in_rows(pixels, width, height, h, y);
    pixel_in_row(pixels, width, height, y, w, x);
    rows_length(pixels, width, height, h);
    row_length(pixels, width, height, y, w);
    let row = thumb_row(pixels, width, height, y, w);
    assert(t * y + t <= t * h) by (nonlinear_arith)
        requires
            t >= 0,
            y + 1 <= h,
    ;
    assert(thumb(pixels, width, height).subrange(t * y + 4 * x, t * y + 4 * x + 4)
        =~= row.subrange(4 * x, 4 * x + 4));
    assert(0 * height / h == 0) by (nonlinear_arith)
        requires
            h > 0,
    ;
}

/// A thumbnail is as wide as the picture, but at most 480 pixels, and has its shape:
/// its height is the largest one that the proportions of the picture allow, and one
/// row at least. It is never larger than the picture.
pub proof fn thumbnails_keep_the_shape(width: u32, height: u32)
    requires
        width > 0,
        height > 0,
    ensures
        ({
            let (w, h) = (thumb_width(width), thumb_height(width, height));
            &&& w <= width && w <= 480 && (w == width || w == 480)
            &&& 1 <= h <= height
            &&& h > 1 ==> h * width <= height * w
            &&& height * w < (h + 1) * width
        }),
{
    thumb_size(width, height);
    let (w, h) = (thumb_width(width), thumb_height(width, height));
    let product = height * w;
    vstd::arithmetic::div_mod::lemma_fundamental_div_mod(product, width as int);
    let scaled = product / (width as int);
    assert(scaled * width <= product < (scaled + 1) * width) by (nonlinear_arith)
        requires
            product == (width as int) * scaled + product % (width as int),
            0 <= product % (width as int) < width,
    ;
    if scaled < 1 {
        assert(product < width) by (nonlinear_arith)
            requires
                product < (scaled + 1) * width,
                scaled < 1,
                width > 0,
        ;
    }
}

/// A pixel of a thumbnail is the one of the picture that lies at the same part of
/// its width and of its height, counted from the top: the picture holds its rows from
/// the bottom up and its colours from blue to red, the thumbnail the other way
/// round, and opaque. `row` and `column` are the place in the picture: they have the
/// proportion to its size that `y` and `x` have to that of the thumbnail, rounded
/// down. What the picture lacks is black.
pub proof fn pixels_show_their_place(
    pixels: Seq<u8>,
    width: u32,
    height: u32,
    x: int,
    y: int,
    column: int,
    row: int,
)
    requires
        width > 0,
        height > 0,
        0 <= x < thumb_width(width),
        0 <= y < thumb_height(width, height),
        column * thumb_width(width) <= x * width < (column + 1) * thumb_width(width),
        row * thumb_height(width, height) <= y * height < (row + 1) * thumb_height(width, height),
    ensures
        ({
            let r = thumb(pixels, width, height);
            let at = 4 * (thumb_width(width) * y + x);
            let o = 4 * ((height - 1 - row) * width + column);
            let held = o + 4 <= pixels.len();
            &&& 0 <= at && at + 4 <= r.len()
            &&& 0 <= row < height && 0 <= column < width
            &&& held ==> r[at] == pixels[o + 2] && r[at + 1] == pixels[o + 1] && r[at + 2]
                == pixels[o]
            &&& !held ==> r[at] == 0 && r[at + 1] == 0 && r[at + 2] == 0
            &&& r[at + 3] == 255
        }),
{
    let (w, h) = (thumb_width(width), thumb_height(width, height));
    let r = thumb(pixels, width, height);
    thumb_size(width, height);
    pixels_are_in_place(pixels, width, height, x, y);
    rows_length(pixels, width, height, h);
    place_in_picture(width, height, x, y, column, row);
    pixel_in_bytes(w, h, x, y);
    bytes_of_pixel(
        r,
        pixels,
        4 * (w * y + x),
        4 * ((height - 1 - row) * width + column),
        thumb_pixel(pixels, width, height, x, y),
    );
}

proof fn bytes_of_pixel(r: Seq<u8>, pixels: Seq<u8>, at: int, o: int, pixel: Seq<u8>)
    requires
        0 <= at,
        at + 4 <= r.len(),
        r.subrange(at, at + 4) == pixel,
        pixel == (if o + 4 <= pixels.len() {
            seq![pixels[o + 2], pixels[o + 1], pixels[o], 255u8]
        } else {
            seq![0u8, 0u8, 0u8, 255u8]
        }),
    ensures
        o + 4 <= pixels.len() ==> r[at] == pixels[o + 2] && r[at + 1] == pixels[o + 1] && r[at + 2]
            == pixels[o],
        o + 4 > pixels.len() ==> r[at] == 0 && r[at + 1] == 0 && r[at + 2] == 0,
        r[at + 3] == 255,
{
    assert(pixel[0] == r[at] && pixel[1] == r[at + 1] && pixel[2] == r[at + 2] && pixel[3] == r[at
        + 3]);
}

proof fn place_in_picture(width: u32, height: u32, x: int, y: int, column: int, row: int)
    requires
        width > 0,
        height > 0,
        0 <= x < thumb_width(width),
        0 <= y < thumb_height(width, height),
        column * thumb_width(width) <= x * width < (column + 1) * thumb_width(width),
        row * thumb_height(width, height) <= y * height < (row + 1) * thumb_height(width, height),
    ensures
        0 <= row < height,
        0 <= column < width,
        source_offset(width, height, x, y) == 4 * ((height - 1 - row) * width + column),
{
    row_in_picture(width, height, x, y);
    quotient_between(x * width, thumb_width(width), column);
    quotient_between(y * height, thumb_height(width, height), row);
}

proof fn quotient_between(n: int, d: int, q: int)
    requires
        d > 0,
        q * d <= n < (q + 1) * d,
    ensures
        n / d == q,
{
    let left = n - q * d;
    assert(left < d) by (nonlinear_arith)
        requires
            left == n - q * d,
            n < (q + 1) * d,
    ;
    vstd::arithmetic::div_mod::lemma_fundamental_div_mod_converse(n, d, q, left);
}

proof fn pixel_in_bytes(w: int, h: int, x: int, y: int)
    requires
        0 <= x < w,
        0 <= y < h,
    ensures
        0 <= 4 * (w * y + x),
        4 * (w * y + x) == 4 * w * y + 4 * x,
        4 * (w * y + x) + 4 <= 4 * w * h,
{
    assert(4 * (w * y + x) == 4 * w * y + 4 * x) by (nonlinear_arith);
    assert(0 <= w * y && w * y + x + 1 <= w * h) by (nonlinear_arith)
        requires
            0 <= y < h,
            0 <= x < w,
    ;
    assert(4 * w * h == 4 * (w * h)) by (nonlinear_arith);
}

} // verus!
