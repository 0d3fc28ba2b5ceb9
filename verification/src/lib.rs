//! Bitmap decoding and text layout for a clipboard OCR tool.
//!
//! The tool takes a picture from the clipboard, has the text in it
//! recognised, and puts the text back on the clipboard. This library holds
//! the two steps of that which compute: turning the clipboard's bitmap
//! record into the flat pixel buffer that recognition wants (`clipboard`,
//! `dib`, `bits`), and laying the recognised lines out as UTF-16 text in a
//! buffer of fixed size (`ocr`, `text`). Every function is verified against
//! its contract; none panics.

use vstd::prelude::*;

pub mod bits;
pub mod clipboard;
pub mod dib;
pub mod ocr;
pub mod seqs;
pub mod text;

verus! {

/// The size in bytes of the text buffer that the tool hands to `ocr::scan`.
pub const BUF_SIZE: usize = 8192;

/// The low-order 16 bits of a 32-bit message parameter.
pub fn loword(dword: u32) -> (word: u16)
    ensures
        word as int == dword as int % 0x1_0000,
{
    assert(((dword << 16) >> 16) == dword % 0x1_0000) by (bit_vector);
    ((dword << 16) >> 16) as u16
}

/// The high-order 16 bits of a 32-bit message parameter.
pub fn hiword(dword: u32) -> (word: u16)
    ensures
        word as int == dword as int / 0x1_0000,
{
    assert((dword >> 16) == dword / 0x1_0000) by (bit_vector);
    (dword >> 16) as u16
}

} // verus!
