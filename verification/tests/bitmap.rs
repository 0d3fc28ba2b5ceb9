use ocr_win::bits::BitIterator;
use ocr_win::clipboard::{get, read_bitmap, DibHeader};
use ocr_win::dib::{DecodeError, Dib, PixelFormat};
use ocr_win::{hiword, loword};

fn dib(width: i32, height: i32, bits_per_pixel: u16, data: &[u8]) -> Dib {
    Dib { width, height, bits_per_pixel, data: data.to_vec() }
}

#[test]
fn scan_line_bytes_count_with_padding_test() {
    let dib = Dib {
        width: 9,
        bits_per_pixel: 1,
        ..Default::default()
    };
    assert_eq!(dib.scan_line_bytes_count_with_padding(), 4);

    let dib = Dib {
        width: 53,
        bits_per_pixel: 24,
        ..Default::default()
    };
    assert_eq!(dib.scan_line_bytes_count_with_padding(), 160);

    let dib = Dib {
        width: 53,
        bits_per_pixel: 32,
        ..Default::default()
    };
    assert_eq!(dib.scan_line_bytes_count_with_padding(), 212);
}

#[test]
fn bit_iterator_test() {
    let s: [u8; 4] = [0b1001_1110, 0b1100_1100, 0, 0];
    let mut iter = BitIterator::new(&s).take(10);
    assert_eq!(iter.next(), Some(1));
    assert_eq!(iter.next(), Some(0));
    assert_eq!(iter.next(), Some(0));
    assert_eq!(iter.next(), Some(1));

    assert_eq!(iter.next(), Some(1));
    assert_eq!(iter.next(), Some(1));
    assert_eq!(iter.next(), Some(1));
    assert_eq!(iter.next(), Some(0));

    assert_eq!(iter.next(), Some(1));
    assert_eq!(iter.next(), Some(1));
    assert_eq!(iter.next(), None);
}

#[test]
fn bit_iterator_ends_with_the_slice() {
    let s: [u8; 1] = [0b0000_0001];
    let mut iter = BitIterator::new(&s);
    for _ in 0..7 {
        assert_eq!(iter.next(), Some(0));
    }
    assert_eq!(iter.next(), Some(1));
    assert_eq!(iter.next(), None);
    assert_eq!(iter.next(), None);
}

#[test]
fn bit_iterator_over_nothing_yields_nothing() {
    let s: [u8; 0] = [];
    let mut iter = BitIterator::new(&s);
    assert_eq!(iter.next(), None);
    let mut taken = BitIterator::new(&s).take(3);
    assert_eq!(taken.next(), None);
}

#[test]
fn take_counts_steps_past_the_end() {
    let s: [u8; 1] = [0xff];
    let mut iter = BitIterator::new(&s).take(0);
    assert_eq!(iter.next(), None);
    let mut iter = BitIterator::new(&s).take(9);
    for _ in 0..8 {
        assert_eq!(iter.next(), Some(1));
    }
    assert_eq!(iter.next(), None);
    assert_eq!(iter.next(), None);
}

#[test]
fn default_dib_is_empty() {
    let dib = Dib::default();
    assert_eq!(dib.width(), 0);
    assert_eq!(dib.height(), 0);
    assert_eq!(dib.bits_per_pixel, 0);
    assert!(dib.data.is_empty());
    assert_eq!(dib.scan_line_bytes_count_with_padding(), 0);
}

#[test]
fn stride_is_a_multiple_of_four_and_holds_the_row() {
    for &depth in &[1u16, 24, 32] {
        for width in 0..200 {
            let dib = Dib { width, bits_per_pixel: depth, ..Default::default() };
            let stride = dib.scan_line_bytes_count_with_padding();
            assert_eq!(stride % 4, 0);
            assert!(stride >= width as usize * depth as usize / 8);
            assert!(stride * 8 >= width as usize * depth as usize);
            assert!(stride * 8 < width as usize * depth as usize + 32);
        }
    }
}

#[test]
fn stride_of_one_bit_rows() {
    let one = |width| {
        Dib { width, bits_per_pixel: 1, ..Default::default() }.scan_line_bytes_count_with_padding()
    };
    assert_eq!(one(1), 4);
    assert_eq!(one(32), 4);
    assert_eq!(one(33), 8);
}

#[test]
fn decodes_32_bits_to_bgra_rows_flipped() {
    let data = [1, 2, 3, 4, 5, 6, 7, 8, 9, 10, 11, 12, 13, 14, 15, 16];
    let dib = dib(2, 2, 32, &data);
    assert_eq!(
        dib.to_bgra(),
        Ok(vec![9, 10, 11, 12, 13, 14, 15, 16, 1, 2, 3, 4, 5, 6, 7, 8])
    );
    assert_eq!(dib.decode(PixelFormat::Bgra), dib.to_bgra());
}

#[test]
fn decodes_32_bits_to_bgr_dropping_alpha() {
    let data = [1, 2, 3, 4, 5, 6, 7, 8, 9, 10, 11, 12, 13, 14, 15, 16];
    let dib = dib(2, 2, 32, &data);
    assert_eq!(dib.to_bgr(), Ok(vec![9, 10, 11, 13, 14, 15, 1, 2, 3, 5, 6, 7]));
    assert_eq!(dib.decode(PixelFormat::Bgr), dib.to_bgr());
}

#[test]
fn decodes_24_bits_skipping_row_padding() {
    let data = [1, 2, 3, 0xaa, 4, 5, 6, 0xbb];
    let dib = dib(1, 2, 24, &data);
    assert_eq!(dib.scan_line_bytes_count_with_padding(), 4);
    assert_eq!(dib.to_bgra(), Ok(vec![4, 5, 6, 255, 1, 2, 3, 255]));
    assert_eq!(dib.to_bgr(), Ok(vec![4, 5, 6, 1, 2, 3]));
}

#[test]
fn decodes_24_bits_two_pixels_wide() {
    let data = [1, 2, 3, 4, 5, 6, 0, 0];
    let dib = dib(2, 1, 24, &data);
    assert_eq!(dib.to_bgra(), Ok(vec![1, 2, 3, 255, 4, 5, 6, 255]));
}

#[test]
fn decodes_one_bit_rows_of_width_nine() {
    let data = [0b0000_0000, 0b1000_0000, 0xff, 0xff, 0b1001_1110, 0b0111_1111, 0, 0];
    let dib = dib(9, 2, 1, &data);
    assert_eq!(dib.scan_line_bytes_count_with_padding(), 4);
    let white = [255u8, 255, 255, 255];
    let black = [0u8, 0, 0, 255];
    let mut expected = Vec::new();
    for bit in [1, 0, 0, 1, 1, 1, 1, 0, 0, 0, 0, 0, 0, 0, 0, 0, 0, 1] {
        expected.extend_from_slice(if bit == 1 { &white } else { &black });
    }
    assert_eq!(dib.to_bgra(), Ok(expected));
    let bgr = dib.to_bgr().unwrap();
    assert_eq!(bgr.len(), 9 * 2 * 3);
    assert_eq!(&bgr[..6], &[255, 255, 255, 0, 0, 0]);
}

#[test]
fn decoded_length_is_width_by_height_by_channels() {
    for &(depth, width, height) in &[(1u16, 9i32, 3i32), (24, 53, 2), (32, 53, 2), (24, 1, 1)] {
        let probe = Dib { width, height, bits_per_pixel: depth, ..Default::default() };
        let stride = probe.scan_line_bytes_count_with_padding();
        let dib = Dib { data: vec![0x5a; stride * height as usize], ..probe };
        assert_eq!(dib.to_bgra().unwrap().len(), (width * height * 4) as usize);
        assert_eq!(dib.to_bgr().unwrap().len(), (width * height * 3) as usize);
    }
}

#[test]
fn bytes_behind_the_last_row_are_ignored() {
    let data = [1, 2, 3, 4, 5, 6, 7, 8, 9];
    let dib = dib(1, 2, 32, &data);
    assert_eq!(dib.to_bgra(), Ok(vec![5, 6, 7, 8, 1, 2, 3, 4]));
}

#[test]
fn decoding_then_flipping_rows_restores_stored_order() {
    let data: Vec<u8> = (0..48).collect();
    let dib = dib(3, 4, 32, &data);
    let decoded = dib.to_bgra().unwrap();
    let flipped: Vec<u8> = decoded.chunks(12).rev().flatten().cloned().collect();
    assert_eq!(flipped, data);
    let again: Vec<u8> = flipped.chunks(12).rev().flatten().cloned().collect();
    assert_eq!(again, decoded);
}

#[test]
fn unsupported_depths_are_rejected() {
    for depth in [0u16, 2, 4, 8, 16, 23, 25, 31, 33, 64, u16::MAX] {
        let dib = dib(1, 1, depth, &[0; 64]);
        assert_eq!(dib.to_bgra(), Err(DecodeError::UnsupportedDepth));
        assert_eq!(dib.to_bgr(), Err(DecodeError::UnsupportedDepth));
    }
}

#[test]
fn unsupported_depth_comes_before_the_other_errors() {
    assert_eq!(dib(1, 1, 8, &[]).to_bgra(), Err(DecodeError::UnsupportedDepth));
    assert_eq!(dib(1, -1, 8, &[1]).to_bgra(), Err(DecodeError::UnsupportedDepth));
}

#[test]
fn empty_pixel_region_is_no_data() {
    for depth in [1u16, 24, 32] {
        assert_eq!(dib(1, 1, depth, &[]).to_bgra(), Err(DecodeError::NoData));
        assert_eq!(dib(1, -1, depth, &[]).to_bgra(), Err(DecodeError::NoData));
    }
}

#[test]
fn short_pixel_region_is_no_data() {
    assert_eq!(dib(1, 2, 32, &[1, 2, 3, 4, 5, 6, 7]).to_bgra(), Err(DecodeError::NoData));
    assert_eq!(dib(1, 1, 24, &[1, 2, 3]).to_bgra(), Err(DecodeError::NoData));
    assert_eq!(dib(9, 1, 1, &[1, 2]).to_bgr(), Err(DecodeError::NoData));
}

#[test]
fn top_down_bitmaps_are_rejected() {
    assert_eq!(dib(1, 0, 32, &[1, 2, 3, 4]).to_bgra(), Err(DecodeError::UnsupportedOrientation));
    assert_eq!(dib(1, -1, 32, &[1, 2, 3, 4]).to_bgra(), Err(DecodeError::UnsupportedOrientation));
    assert_eq!(
        dib(1, i32::MIN, 24, &[1, 2, 3, 4]).to_bgr(),
        Err(DecodeError::UnsupportedOrientation)
    );
}

#[test]
fn huge_bitmaps_are_short_not_overflowing() {
    let dib = dib(i32::MAX, i32::MAX, 32, &[0; 16]);
    assert_eq!(dib.to_bgra(), Err(DecodeError::NoData));
}

fn header(width: i32, height: i32, bits_per_pixel: u16, image_size: u32) -> DibHeader {
    DibHeader { width, height, bits_per_pixel, image_size }
}

#[test]
fn read_bitmap_takes_the_recorded_size() {
    let payload = [1, 2, 3, 4, 5, 6, 7, 8, 9, 10];
    let dib = read_bitmap(&header(1, 2, 32, 8), &payload).unwrap();
    assert_eq!(dib.width(), 1);
    assert_eq!(dib.height(), 2);
    assert_eq!(dib.bits_per_pixel, 32);
    assert_eq!(dib.data, vec![1, 2, 3, 4, 5, 6, 7, 8]);
}

#[test]
fn read_bitmap_computes_a_missing_size() {
    let payload = [1, 2, 3, 4, 5, 6, 7, 8, 9, 10];
    let dib = read_bitmap(&header(1, 2, 32, 0), &payload).unwrap();
    assert_eq!(dib.data, vec![1, 2, 3, 4, 5, 6, 7, 8]);
    let dib = read_bitmap(&header(3, 1, 24, 0), &payload).unwrap();
    assert_eq!(dib.data, vec![1, 2, 3, 4, 5, 6, 7, 8, 9]);
    let dib = read_bitmap(&header(9, 2, 1, 0), &payload).unwrap();
    assert_eq!(dib.data, vec![1, 2]);
}

#[test]
fn read_bitmap_rejects_what_it_cannot_read() {
    let payload = [0u8; 8];
    assert_eq!(
        read_bitmap(&header(1, 2, 16, 8), &payload).err(),
        Some(DecodeError::UnsupportedDepth)
    );
    assert_eq!(
        read_bitmap(&header(1, -2, 16, 8), &payload).err(),
        Some(DecodeError::UnsupportedDepth)
    );
    assert_eq!(
        read_bitmap(&header(1, -2, 32, 8), &payload).err(),
        Some(DecodeError::UnsupportedOrientation)
    );
    assert_eq!(
        read_bitmap(&header(1, 0, 32, 0), &payload).err(),
        Some(DecodeError::UnsupportedOrientation)
    );
    assert_eq!(read_bitmap(&header(1, 2, 32, 9), &payload).err(), Some(DecodeError::NoData));
    assert_eq!(read_bitmap(&header(1, 3, 32, 0), &payload).err(), Some(DecodeError::NoData));
    assert_eq!(
        read_bitmap(&header(i32::MAX, i32::MAX, 32, 0), &payload).err(),
        Some(DecodeError::NoData)
    );
}

#[test]
fn get_gives_width_height_and_bgra() {
    let payload = [1, 2, 3, 0, 4, 5, 6, 0, 7, 7, 7];
    assert_eq!(get(&header(1, 2, 24, 8), &payload), Ok((1, 2, vec![4, 5, 6, 255, 1, 2, 3, 255])));
    assert_eq!(get(&header(1, 2, 24, 0), &payload), Err(DecodeError::NoData));
    assert_eq!(get(&header(2, 1, 32, 0), &payload), Ok((2, 1, vec![1, 2, 3, 0, 4, 5, 6, 0])));
}

#[test]
fn get_rejects_in_order() {
    let payload = [0u8; 8];
    assert_eq!(get(&header(1, -1, 8, 0), &payload), Err(DecodeError::UnsupportedDepth));
    assert_eq!(get(&header(1, -1, 32, 0), &payload), Err(DecodeError::UnsupportedOrientation));
    assert_eq!(get(&header(1, 1, 32, 0), &[]), Err(DecodeError::NoData));
    assert_eq!(get(&header(1, 1, 1, 0), &payload), Err(DecodeError::NoData));
    assert_eq!(get(&header(1, 2, 32, 4), &payload), Err(DecodeError::NoData));
    assert_eq!(get(&header(9, 2, 1, 0), &payload), Err(DecodeError::NoData));
}

#[test]
fn words_of_a_message_parameter() {
    assert_eq!(loword(0x1234_5678), 0x5678);
    assert_eq!(hiword(0x1234_5678), 0x1234);
    assert_eq!(loword(0), 0);
    assert_eq!(hiword(0), 0);
    assert_eq!(loword(u32::MAX), 0xffff);
    assert_eq!(hiword(u32::MAX), 0xffff);
    assert_eq!(loword(0x0001_0000), 0);
    assert_eq!(hiword(0x0000_ffff), 0);
}
