//! Device-independent bitmaps and their conversion to flat pixel buffers.

use crate::bits::{bit_at, BitIterator};
use crate::seqs::{
    chunks, lemma_flatten_chunks, lemma_flatten_uniform_len, lemma_row_of_flatten,
    lemma_take_one_more,
};
use vstd::prelude::*;

verus! {

/// Why a bitmap could not be decoded.
#[derive(Debug, Clone, Copy, PartialEq, Eq, Structural)]
pub enum DecodeError {
    /// The pixel depth is not 1, 24 or 32 bits.
    UnsupportedDepth,
    /// The pixel region is empty or shorter than the header promises.
    NoData,
    /// The height is not positive: rows are not stored bottom-up.
    UnsupportedOrientation,
}

/// The channel layout of a decoded pixel buffer.
#[derive(Debug, Clone, Copy, PartialEq, Eq, Structural)]
pub enum PixelFormat {
    /// Three bytes per pixel: blue, green, red.
    Bgr,
    /// Four bytes per pixel: blue, green, red, alpha.
    Bgra,
}

impl PixelFormat {
    /// Bytes per decoded pixel.
    pub open spec fn channels(self) -> nat {
        match self {
            PixelFormat::Bgr => 3,
            PixelFormat::Bgra => 4,
        }
    }
}

/// The depths the decoder understands.
pub open spec fn supported_depth(bits_per_pixel: int) -> bool {
    bits_per_pixel == 1 || bits_per_pixel == 24 || bits_per_pixel == 32
}

/// The byte length of one stored scan line: its bits, rounded up to whole
/// 32-bit words.
pub open spec fn row_stride(width: int, bits_per_pixel: int) -> int {
    (width * bits_per_pixel + 31) / 32 * 4
}

/// Pixel `x` of a stored scan line as blue, green, red, alpha.
///
/// At 32 bits the four stored bytes pass through. At 24 bits the three stored
/// bytes are followed by an opaque alpha. At 1 bit a set bit is white and a
/// clear bit is black, both opaque.
pub open spec fn pixel_bgra(row: Seq<u8>, bits_per_pixel: int, x: int) -> Seq<u8> {
    if bits_per_pixel == 32 {
        seq![row[4 * x], row[4 * x + 1], row[4 * x + 2], row[4 * x + 3]]
    } else if bits_per_pixel == 24 {
        seq![row[3 * x], row[3 * x + 1], row[3 * x + 2], 255u8]
    } else if bit_at(row, x) == 1 {
        seq![255u8, 255u8, 255u8, 255u8]
    } else {
        seq![0u8, 0u8, 0u8, 255u8]
    }
}

/// Pixel `x` of a stored scan line in `format`: all four channels, or the
/// first three.
pub open spec fn decoded_pixel(
    row: Seq<u8>,
    bits_per_pixel: int,
    x: int,
    format: PixelFormat,
) -> Seq<u8> {
    match format {
        PixelFormat::Bgra => pixel_bgra(row, bits_per_pixel, x),
        PixelFormat::Bgr => pixel_bgra(row, bits_per_pixel, x).take(3),
    }
}

/// The first `width` pixels of a stored scan line, one after another.
pub open spec fn decoded_row(
    row: Seq<u8>,
    bits_per_pixel: int,
    width: int,
    format: PixelFormat,
) -> Seq<u8> {
    Seq::new(width as nat, |x: int| decoded_pixel(row, bits_per_pixel, x, format)).flatten()
}

/// What a bitmap record holds, as plain mathematics.
pub struct Bitmap {
    /// Pixels per row.
    pub width: int,
    /// Rows; positive where they are stored bottom-up.
    pub height: int,
    /// Stored bits per pixel.
    pub bits_per_pixel: int,
    /// The stored rows, bottom row first.
    pub data: Seq<u8>,
}

impl Bitmap {
    /// The stored length of one row.
    pub open spec fn stride(self) -> int {
        row_stride(self.width, self.bits_per_pixel)
    }

    /// Stored row `r`, counted from the start of the pixel bytes; row 0 is
    /// the bottom of the picture.
    pub open spec fn source_row(self, r: int) -> Seq<u8> {
        self.data.subrange(r * self.stride(), (r + 1) * self.stride())
    }

    /// Stored row `r`, decoded.
    pub open spec fn decoded_source_row(self, r: int, format: PixelFormat) -> Seq<u8> {
        decoded_row(self.source_row(r), self.bits_per_pixel, self.width, format)
    }

    /// The decoded rows from the top of the picture down: row `y` comes from
    /// stored row `height - 1 - y`.
    pub open spec fn decoded_rows(self, format: PixelFormat) -> Seq<Seq<u8>> {
        Seq::new(
            self.height as nat,
            |y: int| self.decoded_source_row(self.height - 1 - y, format),
        )
    }

    /// The decoded picture: its rows from the top down, one after another.
    pub open spec fn decoded(self, format: PixelFormat) -> Seq<u8> {
        self.decoded_rows(format).flatten()
    }

    /// The decoded rows in the order in which they are stored, bottom row
    /// first, one after another.
    pub open spec fn decoded_bottom_up(self, format: PixelFormat) -> Seq<u8> {
        Seq::new(self.height as nat, |r: int| self.decoded_source_row(r, format)).flatten()
    }

    /// Why the record cannot be decoded, if it cannot. The depth is looked at
    /// first, then whether there are pixel bytes at all, then the
    /// orientation, then whether every row is there.
    pub open spec fn rejection(self) -> Option<DecodeError> {
        if !supported_depth(self.bits_per_pixel) {
            Some(DecodeError::UnsupportedDepth)
        } else if self.data.len() == 0 {
            Some(DecodeError::NoData)
        } else if self.height <= 0 {
            Some(DecodeError::UnsupportedOrientation)
        } else if self.data.len() < self.height * self.stride() {
            Some(DecodeError::NoData)
        } else {
            None
        }
    }
}

/// A flat picture of `rows` rows, each `row_len` bytes, with its rows in the
/// opposite order.
pub open spec fn flip_rows(pixels: Seq<u8>, row_len: int, rows: int) -> Seq<u8> {
    chunks(pixels, row_len, rows).reverse().flatten()
}

/// A bitmap record: header fields and the pixel bytes, rows stored bottom-up,
/// each row padded to a multiple of four bytes.
#[derive(Debug)]
pub struct Dib {
    /// Pixels per row; positive in every record that can be decoded.
    pub width: i32,
    /// Rows; positive where they are stored bottom-up.
    pub height: i32,
    /// Stored bits per pixel: 1, 24 or 32.
    pub bits_per_pixel: u16,
    /// The stored rows, bottom row first.
    pub data: Vec<u8>,
}

impl Default for Dib {
    fn default() -> (dib: Self)
        ensures
            dib.width == 0,
            dib.height == 0,
            dib.bits_per_pixel == 0,
            dib.data@ == Seq::<u8>::empty(),
    {
        Dib { width: 0, height: 0, bits_per_pixel: 0, data: Vec::new() }
    }
}

impl View for Dib {
    type V = Bitmap;

    open spec fn view(&self) -> Bitmap {
        Bitmap {
            width: self.width as int,
            height: self.height as int,
            bits_per_pixel: self.bits_per_pixel as int,
            data: self.data@,
        }
    }
}

/// Appends one pixel to `out`: blue, green, red, and in BGRA also alpha.
fn push_pixel(out: &mut Vec<u8>, blue: u8, green: u8, red: u8, alpha: u8, format: PixelFormat)
    ensures
        final(out)@ == old(out)@ + (match format {
            PixelFormat::Bgra => seq![blue, green, red, alpha],
            PixelFormat::Bgr => seq![blue, green, red],
        }),
{
    out.push(blue);
    out.push(green);
    out.push(red);
    match format {
        PixelFormat::Bgra => {
            out.push(alpha);
        },
        PixelFormat::Bgr => {},
    }
}

/// Appends the first `width` pixels of a stored scan line to `out`.
fn push_row(
    out: &mut Vec<u8>,
    row: &[u8],
    bits_per_pixel: u16,
    width: usize,
    format: PixelFormat,
)
    requires
        supported_depth(bits_per_pixel as int),
        width * bits_per_pixel <= 8 * row@.len(),
    ensures
        final(out)@ == old(out)@ + decoded_row(row@, bits_per_pixel as int, width as int, format),
{
    let ghost pixels = Seq::new(
        width as nat,
        |x: int| decoded_pixel(row@, bits_per_pixel as int, x, format),
    );
    let mut x: usize = 0;
    assert(row@.len() == row.len());
    assert(width * bits_per_pixel == if bits_per_pixel == 32 {
        32 * width
    } else if bits_per_pixel == 24 {
        24 * width
    } else {
        width as int
    }) by (nonlinear_arith)
        requires
            supported_depth(bits_per_pixel as int),
    ;
    if bits_per_pixel == 32 {
        while x < width
            invariant
                x <= width,
                bits_per_pixel == 32,
                4 * width <= row@.len() <= usize::MAX,
                pixels == Seq::new(
                    width as nat,
                    |x: int| decoded_pixel(row@, bits_per_pixel as int, x, format),
                ),
                out@ == old(out)@ + pixels.take(x as int).flatten(),
            decreases width - x,
        {
            let at = 4 * x;
            push_pixel(out, row[at], row[at + 1], row[at + 2], row[at + 3], format);
            proof {
                lemma_take_one_more(pixels, x as int);
                assert(pixel_bgra(row@, 32, x as int).take(3) == seq![
                    row@[at as int],
                    row@[at + 1],
                    row@[at + 2],
                ]);
            }
            x = x + 1;
        }
    } else if bits_per_pixel == 24 {
        while x < width
            invariant
                x <= width,
                bits_per_pixel == 24,
                3 * width <= row@.len() <= usize::MAX,
                pixels == Seq::new(
                    width as nat,
                    |x: int| decoded_pixel(row@, bits_per_pixel as int, x, format),
                ),
                out@ == old(out)@ + pixels.take(x as int).flatten(),
            decreases width - x,
        {
            let at = 3 * x;
            push_pixel(out, row[at], row[at + 1], row[at + 2], 255, format);
            proof {
                lemma_take_one_more(pixels, x as int);
                assert(pixel_bgra(row@, 24, x as int).take(3) == seq![
                    row@[at as int],
                    row@[at + 1],
                    row@[at + 2],
                ]);
            }
            x = x + 1;
        }
    } else {
        let mut bits = BitIterator::new(row).take(width);
        while x < width
            invariant
                x <= width,
                bits_per_pixel == 1,
                width <= 8 * row@.len(),
                bits.bytes() == row@,
                bits.index() == x,
                bits.remaining() == width - x,
                pixels == Seq::new(
                    width as nat,
                    |x: int| decoded_pixel(row@, bits_per_pixel as int, x, format),
                ),
                out@ == old(out)@ + pixels.take(x as int).flatten(),
            decreases width - x,
        {
            let shade: u8 = match bits.next() {
                Some(bit) => if bit > 0 {
                    255
                } else {
                    0
                },
                None => 0,
            };
            push_pixel(out, shade, shade, shade, 255, format);
            proof {
                lemma_take_one_more(pixels, x as int);
                assert(pixel_bgra(row@, 1, x as int).take(3) == seq![shade, shade, shade]);
            }
            x = x + 1;
        }
    }
    assert(pixels.take(width as int) == pixels);
}

/// The stored length of a row of `width` pixels.
fn stride_of(width: i32, bits_per_pixel: u16) -> (stride: u64)
    requires
        width >= 0,
    ensures
        stride == row_stride(width as int, bits_per_pixel as int),
{
    let width = width as u64;
    let depth = bits_per_pixel as u64;
    assert(width * depth <= 0x7fff_ffff * 0xffff) by (nonlinear_arith)
        requires
            width <= 0x7fff_ffff,
            depth <= 0xffff,
    ;
    (width * depth + 31) / 32 * 4
}

impl Dib {
    /// The picture's width in pixels.
    pub fn width(&self) -> (width: i32)
        ensures
            width == self.width,
    {
        self.width
    }

    /// The picture's height in pixels; positive where rows are stored
    /// bottom-up.
    pub fn height(&self) -> (height: i32)
        ensures
            height == self.height,
    {
        self.height
    }

    /// Decodes the picture into a flat pixel buffer in `format`, top row
    /// first.
    ///
    /// Fails exactly where `rejection` names an error, and with that error.
    pub fn decode(&self, format: PixelFormat) -> (result: Result<Vec<u8>, DecodeError>)
        requires
            self@.width > 0,
        ensures
            match result {
                Ok(pixels) => {
                    &&& self@.rejection() is None
                    &&& pixels@ == self@.decoded(format)
                },
                Err(error) => self@.rejection() == Some(error),
            },
            !supported_depth(self@.bits_per_pixel) ==> result matches Err(
                DecodeError::UnsupportedDepth,
            ),
            supported_depth(self@.bits_per_pixel) && self@.data.len() == 0 ==> result matches Err(
                DecodeError::NoData,
            ),
            result matches Ok(pixels) ==> pixels@.len() == self@.width * self@.height
                * format.channels(),
    {
        if !(self.bits_per_pixel == 1 || self.bits_per_pixel == 24 || self.bits_per_pixel == 32) {
            return Err(DecodeError::UnsupportedDepth);
        }
        if self.data.len() == 0 {
            return Err(DecodeError::NoData);
        }
        if self.height <= 0 {
            return Err(DecodeError::UnsupportedOrientation);
        }
        let height = self.height as u64;
        let stride = stride_of(self.width, self.bits_per_pixel);
        assert(self.width * self.bits_per_pixel <= 0x7fff_ffff * 32) by (nonlinear_arith)
            requires
                0 <= self.width <= 0x7fff_ffff,
                0 <= self.bits_per_pixel <= 32,
        ;
        assert(stride <= height * stride <= 0x7fff_ffff * 0x2_0000_0000) by (nonlinear_arith)
            requires
                1 <= height <= 0x7fff_ffff,
                stride <= 0x2_0000_0000,
        ;
        if (self.data.len() as u64) < height * stride {
            return Err(DecodeError::NoData);
        }
        let stride = stride as usize;
        let rows = self.height as usize;
        let ghost decoded_rows = self@.decoded_rows(format);
        let mut pixels: Vec<u8> = Vec::new();
        let mut y: usize = 0;
        assert(decoded_rows.take(0).flatten() == Seq::<u8>::empty());
        while y < rows
            invariant
                y <= rows == self.height,
                self.width > 0,
                supported_depth(self@.bits_per_pixel),
                stride == self@.stride(),
                self.width * self.bits_per_pixel <= 8 * stride,
                rows * stride <= self.data@.len() <= usize::MAX,
                decoded_rows == self@.decoded_rows(format),
                pixels@ == decoded_rows.take(y as int).flatten(),
            decreases rows - y,
        {
            let below = rows - 1 - y;
            assert(below * stride + stride == (below + 1) * stride <= rows * stride)
                by (nonlinear_arith)
                requires
                    below + 1 <= rows,
            ;
            let start = below * stride;
            let row = vstd::slice::slice_subrange(self.data.as_slice(), start, start + stride);
            push_row(&mut pixels, row, self.bits_per_pixel, self.width as usize, format);
            proof {
                assert(row@ == self@.source_row(self.height - 1 - y));
                lemma_take_one_more(decoded_rows, y as int);
            }
            y = y + 1;
        }
        proof {
            assert(decoded_rows.take(rows as int) == decoded_rows);
            lemma_decoded_len(self@, format);
        }
        Ok(pixels)
    }

    /// Decodes the picture to four bytes per pixel: blue, green, red, alpha.
    pub fn to_bgra(&self) -> (result: Result<Vec<u8>, DecodeError>)
        requires
            self@.width > 0,
        ensures
            match result {
                Ok(pixels) => {
                    &&& self@.rejection() is None
                    &&& pixels@ == self@.decoded(PixelFormat::Bgra)
                },
                Err(error) => self@.rejection() == Some(error),
            },
            !supported_depth(self@.bits_per_pixel) ==> result matches Err(
                DecodeError::UnsupportedDepth,
            ),
            supported_depth(self@.bits_per_pixel) && self@.data.len() == 0 ==> result matches Err(
                DecodeError::NoData,
            ),
            result matches Ok(pixels) ==> pixels@.len() == self@.width * self@.height * 4,
    {
        self.decode(PixelFormat::Bgra)
    }

    /// Decodes the picture to three bytes per pixel: blue, green, red.
    pub fn to_bgr(&self) -> (result: Result<Vec<u8>, DecodeError>)
        requires
            self@.width > 0,
        ensures
            match result {
                Ok(pixels) => {
                    &&& self@.rejection() is None
                    &&& pixels@ == self@.decoded(PixelFormat::Bgr)
                },
                Err(error) => self@.rejection() == Some(error),
            },
            !supported_depth(self@.bits_per_pixel) ==> result matches Err(
                DecodeError::UnsupportedDepth,
            ),
            supported_depth(self@.bits_per_pixel) && self@.data.len() == 0 ==> result matches Err(
                DecodeError::NoData,
            ),
            result matches Ok(pixels) ==> pixels@.len() == self@.width * self@.height * 3,
    {
        self.decode(PixelFormat::Bgr)
    }

    /// The stored length in bytes of one row, padding included.
    pub fn scan_line_bytes_count_with_padding(&self) -> (count: usize)
        requires
            self@.width >= 0,
            self@.stride() <= usize::MAX,
        ensures
            count == self@.stride(),
    {
        stride_of(self.width, self.bits_per_pixel) as usize
    }
}

/// A row's stored length is a whole number of 32-bit words and holds all the
/// row's bits.
pub proof fn lemma_row_stride_is_padded(width: int, bits_per_pixel: int)
    ensures
        row_stride(width, bits_per_pixel) % 4 == 0,
        row_stride(width, bits_per_pixel) >= width * bits_per_pixel / 8,
{
    let bits = width * bits_per_pixel;
    assert(((bits + 31) / 32 * 4) % 4 == 0);
    assert((bits + 31) / 32 * 4 >= bits / 8);
}

/// A decoded row has `width` pixels of `channels` bytes, and a decoded
/// picture has `height` such rows.
pub proof fn lemma_decoded_len(bitmap: Bitmap, format: PixelFormat)
    requires
        bitmap.width >= 0,
        bitmap.height >= 0,
    ensures
        forall|r: int| #[trigger]
            bitmap.decoded_source_row(r, format).len() == bitmap.width * format.channels(),
        bitmap.decoded(format).len() == bitmap.width * bitmap.height * format.channels(),
        bitmap.decoded_bottom_up(format).len() == bitmap.width * bitmap.height * format.channels(),
{
    let row_len = (bitmap.width * format.channels()) as nat;
    assert(bitmap.width * format.channels() >= 0) by (nonlinear_arith)
        requires
            bitmap.width >= 0,
            format.channels() >= 0,
    ;
    assert forall|r: int| #[trigger]
        bitmap.decoded_source_row(r, format).len() == bitmap.width * format.channels() by {
        let pixels = Seq::new(
            bitmap.width as nat,
            |x: int| decoded_pixel(bitmap.source_row(r), bitmap.bits_per_pixel, x, format),
        );
        lemma_flatten_uniform_len(pixels, format.channels());
    }
    lemma_flatten_uniform_len(bitmap.decoded_rows(format), row_len);
    lemma_flatten_uniform_len(
        Seq::new(bitmap.height as nat, |r: int| bitmap.decoded_source_row(r, format)),
        row_len,
    );
    assert(bitmap.height * (bitmap.width * format.channels()) == bitmap.width * bitmap.height
        * format.channels()) by (nonlinear_arith);
}

/// Flipping the rows of a picture twice gives the picture back.
pub proof fn lemma_flip_rows_twice(pixels: Seq<u8>, row_len: int, rows: int)
    requires
        0 <= row_len,
        0 <= rows,
        pixels.len() == rows * row_len,
    ensures
        flip_rows(flip_rows(pixels, row_len, rows), row_len, rows) == pixels,
{
    let stored = chunks(pixels, row_len, rows);
    let flipped = stored.reverse();
    assert forall|i: int| 0 <= i < flipped.len() implies (#[trigger] flipped[i]).len()
        == row_len by {
        let r = rows - 1 - i;
        assert(0 <= r * row_len && r * row_len + row_len == (r + 1) * row_len && (r + 1) * row_len
            <= rows * row_len) by (nonlinear_arith)
            requires
                0 <= r < rows,
                0 <= row_len,
        ;
    }
    assert forall|y: int| 0 <= y < rows implies #[trigger] chunks(
        flipped.flatten(),
        row_len,
        rows,
    )[y] == flipped[y] by {
        lemma_row_of_flatten(flipped, row_len as nat, y);
    }
    assert(chunks(flipped.flatten(), row_len, rows) == flipped);
    assert(flipped.reverse() == stored);
    lemma_flatten_chunks(pixels, row_len, rows);
    assert(pixels.take(rows * row_len) == pixels);
}

/// Decoding turns the picture upside down and nothing else: flipping the
/// rows of the decoded picture gives the stored rows, each decoded, in the
/// order in which they are stored.
pub proof fn lemma_decode_then_flip_keeps_stored_order(bitmap: Bitmap, format: PixelFormat)
    requires
        bitmap.width >= 0,
        bitmap.height >= 0,
    ensures
        flip_rows(bitmap.decoded(format), bitmap.width * format.channels(), bitmap.height)
            == bitmap.decoded_bottom_up(format),
{
    let row_len = bitmap.width * format.channels();
    let top_down = bitmap.decoded_rows(format);
    let bottom_up = Seq::new(bitmap.height as nat, |r: int| bitmap.decoded_source_row(r, format));
    lemma_decoded_len(bitmap, format);
    assert forall|y: int| 0 <= y < bitmap.height implies #[trigger] chunks(
        top_down.flatten(),
        row_len,
        bitmap.height,
    )[y] == top_down[y] by {
        lemma_row_of_flatten(top_down, row_len as nat, y);
    }
    assert(chunks(top_down.flatten(), row_len, bitmap.height) == top_down);
    assert(top_down.reverse() == bottom_up);
}

/// At 32 bits per pixel and four channels decoding copies the stored rows:
/// the decoded picture, flipped back, is the pixel bytes themselves.
pub proof fn lemma_bgra32_flipped_back_is_stored(bitmap: Bitmap)
    requires
        bitmap.bits_per_pixel == 32,
        bitmap.width >= 0,
        bitmap.height >= 0,
        bitmap.data.len() == bitmap.height * bitmap.stride(),
    ensures
        flip_rows(bitmap.decoded(PixelFormat::Bgra), bitmap.width * 4, bitmap.height)
            == bitmap.data,
{
    let format = PixelFormat::Bgra;
    let stride = bitmap.stride();
    assert(stride == 4 * bitmap.width) by {
        assert(bitmap.width * bitmap.bits_per_pixel == 32 * bitmap.width) by (nonlinear_arith)
            requires
                bitmap.bits_per_pixel == 32,
        ;
    }
    lemma_decode_then_flip_keeps_stored_order(bitmap, format);
    let bottom_up = Seq::new(bitmap.height as nat, |r: int| bitmap.decoded_source_row(r, format));
    assert forall|r: int| 0 <= r < bitmap.height implies #[trigger] bottom_up[r]
        == bitmap.source_row(r) by {
        let row = bitmap.source_row(r);
        assert(0 <= r * stride && r * stride + stride == (r + 1) * stride && (r + 1) * stride
            <= bitmap.height * stride) by (nonlinear_arith)
            requires
                0 <= r < bitmap.height,
                0 <= stride,
        ;
        let pixels = Seq::new(
            bitmap.width as nat,
            |x: int| decoded_pixel(row, bitmap.bits_per_pixel, x, format),
        );
        assert forall|x: int| 0 <= x < bitmap.width implies #[trigger] pixels[x] == chunks(
            row,
            4,
            bitmap.width,
        )[x] by {
            assert(pixels[x] =~= row.subrange(x * 4, (x + 1) * 4));
        }
        assert(pixels == chunks(row, 4, bitmap.width));
        lemma_flatten_chunks(row, 4, bitmap.width);
        assert(row.take(bitmap.width * 4) == row);
    }
    assert(bottom_up == chunks(bitmap.data, stride, bitmap.height));
    lemma_flatten_chunks(bitmap.data, stride, bitmap.height);
    assert(bitmap.data.take(bitmap.height * stride) == bitmap.data);
}

} // verus!
