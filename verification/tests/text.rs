use ocr_win::ocr::{scan, ReconstructError};
use ocr_win::BUF_SIZE;

fn units(text: &str) -> Vec<u16> {
    text.encode_utf16().collect()
}

fn lines(texts: &[&str]) -> Vec<Vec<u16>> {
    texts.iter().map(|text| units(text)).collect()
}

fn bytes(text: &str) -> Vec<u8> {
    text.encode_utf16().flat_map(|unit| unit.to_le_bytes()).collect()
}

/// Lays `texts` out in a buffer of `capacity` bytes filled with 0xee and
/// checks what every contract promises of the outcome; returns the text
/// written, terminator included.
fn laid_out(texts: &[&str], capacity: usize) -> Vec<u8> {
    let mut buf = vec![0xee_u8; capacity];
    let written = scan(&lines(texts), &mut buf).unwrap();
    assert_eq!(written % 2, 0);
    assert!(written >= 2);
    assert!(written <= capacity);
    assert_eq!(&buf[written - 2..written], &[0, 0]);
    assert!(buf[written..].iter().all(|&byte| byte == 0xee));
    buf.truncate(written);
    buf
}

#[test]
fn two_lines_get_line_breaks_and_a_terminator() {
    assert_eq!(laid_out(&["Hello", "World"], 4096), bytes("Hello\r\nWorld\r\n\0"));
}

#[test]
fn two_lines_as_bytes() {
    let mut buf = [0xee_u8; 4096];
    let written = scan(&lines(&["Hello", "World"]), &mut buf);
    assert_eq!(written, Ok(30));
    let expected: [u8; 30] = [
        b'H', 0, b'e', 0, b'l', 0, b'l', 0, b'o', 0, 0x0d, 0, 0x0a, 0, b'W', 0, b'o', 0, b'r', 0,
        b'l', 0, b'd', 0, 0x0d, 0, 0x0a, 0, 0, 0,
    ];
    assert_eq!(&buf[..30], &expected);
    assert_eq!(buf[30], 0xee);
}

#[test]
fn ascii_runs_get_spaces_and_other_tokens_do_not() {
    assert_eq!(
        laid_out(&["あ い abc d ef え お"], BUF_SIZE),
        bytes("あい abc d ef えお\r\n\0")
    );
}

#[test]
fn ascii_token_after_one_other_code_unit_gets_its_space() {
    assert_eq!(laid_out(&["あ abc"], 64), bytes("あ abc\r\n\0"));
    assert_eq!(laid_out(&["abc あ"], 64), bytes("abc あ\r\n\0"));
    assert_eq!(laid_out(&["あ a い"], 64), bytes("あ a い\r\n\0"));
}

#[test]
fn words_of_a_line_keep_single_spaces() {
    assert_eq!(laid_out(&["Hello big World"], 64), bytes("Hello big World\r\n\0"));
}

#[test]
fn no_lines_give_the_terminator_alone() {
    assert_eq!(laid_out(&[], 64), bytes("\0"));
    assert_eq!(laid_out(&[], 2), bytes("\0"));
}

#[test]
fn empty_lines_give_line_breaks() {
    assert_eq!(laid_out(&[""], 64), bytes("\r\n\0"));
    assert_eq!(laid_out(&["", ""], 64), bytes("\r\n\r\n\0"));
    assert_eq!(laid_out(&["a", "", "b"], 64), bytes("a\r\n\r\nb\r\n\0"));
}

#[test]
fn spaces_in_a_row_are_tokens_of_their_own() {
    assert_eq!(laid_out(&["a  b"], 64), bytes("a  b\r\n\0"));
    assert_eq!(laid_out(&["a "], 64), bytes("a \r\n\0"));
    assert_eq!(laid_out(&[" a"], 64), bytes(" a\r\n\0"));
    assert_eq!(laid_out(&[" "], 64), bytes(" \r\n\0"));
    assert_eq!(laid_out(&["あ "], 64), bytes("あ \r\n\0"));
    assert_eq!(laid_out(&[" あ"], 64), bytes(" あ\r\n\0"));
}

#[test]
fn only_one_space_is_taken_back_at_the_end_of_a_line() {
    assert_eq!(laid_out(&["a   "], 64), bytes("a   \r\n\0"));
}

#[test]
fn code_units_above_ascii_pass_unchanged() {
    let line: Vec<u16> = vec![0xd83d, 0xde00, 0x20, 0xd800, 0x20, 0x7f, 0x20, 0x80, 0xffff];
    let mut buf = [0xee_u8; 64];
    let written = scan(&vec![line], &mut buf).unwrap();
    let expected: Vec<u16> =
        vec![0xd83d, 0xde00, 0xd800, 0x20, 0x7f, 0x20, 0x80, 0xffff, 0x0d, 0x0a, 0];
    let expected: Vec<u8> = expected.iter().flat_map(|unit| unit.to_le_bytes()).collect();
    assert_eq!(written, expected.len());
    assert_eq!(&buf[..written], &expected[..]);
}

#[test]
fn text_that_just_fits_is_not_cut() {
    assert_eq!(laid_out(&["Hello"], 16), bytes("Hello\r\n\0"));
    assert_eq!(laid_out(&["Hello"], 17), bytes("Hello\r\n\0"));
}

#[test]
fn text_that_does_not_fit_is_cut_and_terminated() {
    assert_eq!(laid_out(&["Hello"], 14), bytes("Hello\r\0"));
    assert_eq!(laid_out(&["Hello"], 15), bytes("Hello\r\0"));
    assert_eq!(laid_out(&["Hello"], 12), bytes("Hello\0"));
    assert_eq!(laid_out(&["Hello"], 10), bytes("Hell\0"));
    assert_eq!(laid_out(&["Hello"], 11), bytes("Hell\0"));
    assert_eq!(laid_out(&["Hello"], 4), bytes("H\0"));
    assert_eq!(laid_out(&["Hello"], 2), bytes("\0"));
    assert_eq!(laid_out(&["Hello"], 3), bytes("\0"));
}

#[test]
fn cut_text_is_the_start_of_the_whole_text() {
    let texts = ["Hello big World", "あ い abc d ef え お", "", "x y", "あ", "tail "];
    let whole = laid_out(&texts, 4096);
    for capacity in 2..whole.len() + 4 {
        let cut = laid_out(&texts, capacity);
        let room = capacity / 2 * 2;
        if room >= whole.len() {
            assert_eq!(cut, whole);
        } else {
            assert_eq!(cut.len(), room);
            assert_eq!(&cut[..room - 2], &whole[..room - 2]);
        }
    }
}

#[test]
fn a_space_taken_back_at_the_cut_is_overwritten() {
    assert_eq!(laid_out(&["ab"], 8), bytes("ab\r\0"));
    assert_eq!(laid_out(&["ab"], 6), bytes("ab\0"));
    assert_eq!(laid_out(&["ab", "cd"], 12), bytes("ab\r\nc\0"));
}

#[test]
fn a_buffer_without_room_for_the_terminator_is_refused() {
    let mut none: [u8; 0] = [];
    assert_eq!(scan(&lines(&["Hello"]), &mut none), Err(ReconstructError::CapacityExceeded));
    let mut one = [0xee_u8; 1];
    assert_eq!(scan(&lines(&["Hello"]), &mut one), Err(ReconstructError::CapacityExceeded));
    assert_eq!(one, [0xee]);
    assert_eq!(scan(&lines(&[]), &mut one), Err(ReconstructError::CapacityExceeded));
}

#[test]
fn the_reference_buffer_holds_long_text_cut() {
    let line = "word ".repeat(2000);
    let mut buf = [0xee_u8; BUF_SIZE];
    let written = scan(&lines(&[&line]), &mut buf);
    assert_eq!(written, Ok(BUF_SIZE));
    assert_eq!(&buf[BUF_SIZE - 2..], &[0, 0]);
    assert_eq!(&buf[..10], &bytes("word ")[..]);
    assert_eq!(&buf[BUF_SIZE - 12..BUF_SIZE - 2], &bytes("word ")[..]);
}
