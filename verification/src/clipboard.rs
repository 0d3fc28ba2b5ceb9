//! From a clipboard bitmap record to the pixels handed to text recognition.

use crate::dib::{supported_depth, Bitmap, DecodeError, Dib, PixelFormat};
use vstd::prelude::*;
use vstd::slice::{slice_subrange, slice_to_vec};

verus! {

/// The header fields of a clipboard bitmap record that decoding reads.
#[derive(Debug, Clone, Copy, PartialEq, Eq, Structural)]
pub struct DibHeader {
    /// Pixels per row.
    pub width: i32,
    /// Positive for rows stored bottom-up.
    pub height: i32,
    /// Stored bits per pixel.
    pub bits_per_pixel: u16,
    /// The recorded length of the pixel region, or 0 where none is recorded.
    pub image_size: u32,
}

impl DibHeader {
    /// The length of the pixel region that follows the header: the recorded
    /// image size or, where none is recorded, the picture's bits in bytes.
    pub open spec fn pixel_bytes_len(self) -> int {
        if self.image_size != 0 {
            self.image_size as int
        } else {
            self.width * self.height * self.bits_per_pixel / 8
        }
    }

    /// Why no bitmap can be read from a record with this header and with
    /// `payload` behind it, if none can. The depth is looked at first, then
    /// the orientation, then whether the whole pixel region is there.
    pub open spec fn rejection(self, payload: Seq<u8>) -> Option<DecodeError> {
        if !supported_depth(self.bits_per_pixel as int) {
            Some(DecodeError::UnsupportedDepth)
        } else if self.height <= 0 {
            Some(DecodeError::UnsupportedOrientation)
        } else if payload.len() < self.pixel_bytes_len() {
            Some(DecodeError::NoData)
        } else {
            None
        }
    }

    /// The bitmap of a record with this header and with `payload` behind it:
    /// the header's fields and the pixel region, which starts the payload.
    pub open spec fn bitmap(self, payload: Seq<u8>) -> Bitmap {
        Bitmap {
            width: self.width as int,
            height: self.height as int,
            bits_per_pixel: self.bits_per_pixel as int,
            data: payload.take(self.pixel_bytes_len()),
        }
    }

    /// Why a record with this header and with `payload` behind it yields no
    /// pixels, if it yields none: because no bitmap can be read from it, or
    /// because the bitmap read cannot be decoded.
    pub open spec fn get_rejection(self, payload: Seq<u8>) -> Option<DecodeError> {
        if self.rejection(payload) is Some {
            self.rejection(payload)
        } else {
            self.bitmap(payload).rejection()
        }
    }
}

/// Reads the bitmap of a clipboard record: `header` holds the record's header
/// fields and `payload` the bytes that follow the header.
pub fn read_bitmap(header: &DibHeader, payload: &[u8]) -> (result: Result<Dib, DecodeError>)
    requires
        header.width > 0,
    ensures
        match result {
            Ok(dib) => header.rejection(payload@) is None && dib@ == header.bitmap(payload@),
            Err(error) => header.rejection(payload@) == Some(error),
        },
{
    let depth = header.bits_per_pixel;
    if !(depth == 1 || depth == 24 || depth == 32) {
        return Err(DecodeError::UnsupportedDepth);
    }
    if header.height <= 0 {
        return Err(DecodeError::UnsupportedOrientation);
    }
    let size: u128 = if header.image_size != 0 {
        header.image_size as u128
    } else {
        let width = header.width as u128;
        let height = header.height as u128;
        assert(width * height <= 0x7fff_ffff * 0x7fff_ffff) by (nonlinear_arith)
            requires
                width <= 0x7fff_ffff,
                height <= 0x7fff_ffff,
        ;
        assert(width * height * (depth as u128) <= 0x7fff_ffff * 0x7fff_ffff * 32)
            by (nonlinear_arith)
            requires
                width * height <= 0x7fff_ffff * 0x7fff_ffff,
                depth <= 32,
        ;
        width * height * (depth as u128) / 8
    };
    if (payload.len() as u128) < size {
        return Err(DecodeError::NoData);
    }
    let data = slice_to_vec(slice_subrange(payload, 0, size as usize));
    Ok(Dib { width: header.width, height: header.height, bits_per_pixel: depth, data })
}

/// Reads the bitmap of a clipboard record and decodes it: the picture's
/// width, its height, and its pixels as blue, green, red, alpha, top row
/// first.
pub fn get(header: &DibHeader, payload: &[u8]) -> (result: Result<(i32, i32, Vec<u8>), DecodeError>)
    requires
        header.width > 0,
    ensures
        match result {
            Ok((width, height, bgra)) => {
                &&& header.get_rejection(payload@) is None
                &&& width == header.width
                &&& height == header.height
                &&& bgra@ == header.bitmap(payload@).decoded(PixelFormat::Bgra)
            },
            Err(error) => header.get_rejection(payload@) == Some(error),
        },
        !supported_depth(header.bits_per_pixel as int) ==> result matches Err(
            DecodeError::UnsupportedDepth,
        ),
        result matches Ok((width, height, bgra)) ==> bgra@.len() == width * height * 4,
{
    let dib = read_bitmap(header, payload)?;
    Ok((dib.width(), dib.height(), dib.to_bgra()?))
}

} // verus!
