//! Laying out recognised lines as UTF-16 text in a buffer of fixed size.

use crate::text::{
    ends_with_line_break, ends_with_space, fitted, is_ascii, laid_out, lemma_first_space,
    lemma_line_break_keeps_cut, lemma_with_line_extends, lemma_with_lines_extends,
    lemma_with_token_extends, lemma_with_tokens_extends, utf16le, with_line, with_line_break,
    with_lines, with_token, with_tokens, CARRIAGE_RETURN, LINE_FEED, SPACE, TERMINATOR,
};
use vstd::prelude::*;
use vstd::slice::slice_subrange;

verus! {

/// Why no text could be laid out.
#[derive(Debug, Clone, Copy, PartialEq, Eq, Structural)]
pub enum ReconstructError {
    /// The buffer has no room even for the terminator.
    CapacityExceeded,
}

/// The code units that the first `len` bytes of `bytes` hold, `len` being
/// even.
spec fn text_in(bytes: Seq<u8>, len: int) -> Seq<u16> {
    Seq::new((len / 2) as nat, |i: int| (bytes[2 * i] + 256 * bytes[2 * i + 1]) as u16)
}

/// Writes one code unit at `pos` and moves `pos` past it, unless that would
/// take `pos` beyond `limit`.
fn put(buf: &mut [u8], pos: &mut usize, limit: usize, unit: u16) -> (fits: bool)
    requires
        *old(pos) % 2 == 0,
        limit % 2 == 0,
        *old(pos) <= limit <= old(buf)@.len(),
    ensures
        fits == (*old(pos) < limit),
        final(buf)@.len() == old(buf)@.len(),
        fits ==> {
            &&& *final(pos) == *old(pos) + 2
            &&& text_in(final(buf)@, *final(pos) as int) == text_in(
                old(buf)@,
                *old(pos) as int,
            ).push(unit)
            &&& final(buf)@.skip(*final(pos) as int) == old(buf)@.skip(*final(pos) as int)
        },
        !fits ==> *final(pos) == *old(pos) && final(buf)@ == old(buf)@,
{
    if *pos >= limit {
        return false;
    }
    let at = *pos;
    buf[at] = (unit % 256) as u8;
    buf[at + 1] = (unit / 256) as u8;
    *pos = at + 2;
    assert(text_in(buf@, at + 2) == text_in(old(buf)@, at as int).push(unit));
    true
}

/// Whether the text in the first `pos` bytes of `buf` ends with a space.
fn ends_with_space_at(buf: &[u8], pos: usize) -> (yes: bool)
    requires
        pos % 2 == 0,
        pos <= buf@.len(),
    ensures
        yes == ends_with_space(text_in(buf@, pos as int)),
{
    pos >= 2 && buf[pos - 2] == 0x20 && buf[pos - 1] == 0x00
}

/// Whether the text in the first `pos` bytes of `buf` ends with a line break.
fn ends_with_line_break_at(buf: &[u8], pos: usize) -> (yes: bool)
    requires
        pos % 2 == 0,
        pos <= buf@.len(),
    ensures
        yes == ends_with_line_break(text_in(buf@, pos as int)),
{
    pos >= 4 && buf[pos - 4] == 0x0d && buf[pos - 3] == 0x00 && buf[pos - 2] == 0x0a && buf[pos
        - 1] == 0x00
}

/// Whether every code unit of `token` is below 0x80.
fn all_ascii(token: &[u16]) -> (yes: bool)
    ensures
        yes == is_ascii(token@),
{
    let mut i: usize = 0;
    while i < token.len()
        invariant
            i <= token@.len(),
            forall|j: int| 0 <= j < i ==> token@[j] < 0x80,
        decreases token@.len() - i,
    {
        if token[i] >= 0x80 {
            return false;
        }
        i = i + 1;
    }
    true
}

/// What holds of the buffer and the cursor after an attempt to lay out
/// something that turns the text `before` into `after`: either all of it
/// is there, or the buffer is full up to `limit` with the start of it. The
/// bytes from the cursor on are as they were.
spec fn laid(
    old_buf: Seq<u8>,
    buf: Seq<u8>,
    pos: int,
    limit: int,
    after: Seq<u16>,
    fits: bool,
) -> bool {
    &&& buf.len() == old_buf.len()
    &&& pos % 2 == 0
    &&& pos <= limit
    &&& buf.skip(pos) == old_buf.skip(pos)
    &&& fits ==> text_in(buf, pos) == after
    &&& !fits ==> pos == limit && after.len() > limit / 2 && text_in(buf, pos) == after.take(
        limit / 2,
    )
}

/// Bytes that were kept from `p` on are kept from any later place on.
proof fn lemma_tail_kept(old_buf: Seq<u8>, buf: Seq<u8>, p: int, q: int)
    requires
        buf.len() == old_buf.len(),
        0 <= p <= q <= buf.len(),
        buf.skip(p) == old_buf.skip(p),
    ensures
        buf.skip(q) == old_buf.skip(q),
{
    assert forall|i: int| 0 <= i < buf.len() - q implies buf.skip(q)[i] == old_buf.skip(q)[i] by {
        assert(buf.skip(p)[q - p + i] == old_buf.skip(p)[q - p + i]);
    }
    assert(buf.skip(q) =~= old_buf.skip(q));
}

/// Lays out one token after the text in the first `pos` bytes of `buf`, as
/// far as it fits below `limit`.
fn put_token(buf: &mut [u8], pos: &mut usize, limit: usize, token: &[u16]) -> (fits: bool)
    requires
        *old(pos) % 2 == 0,
        limit % 2 == 0,
        *old(pos) <= limit <= old(buf)@.len(),
    ensures
        laid(
            old(buf)@,
            final(buf)@,
            *final(pos) as int,
            limit as int,
            with_token(text_in(old(buf)@, *old(pos) as int), token@),
            fits,
        ),
{
    let ghost before = text_in(buf@, *pos as int);
    let ghost after = with_token(before, token@);
    let ascii = all_ascii(token);
    assert(before.len() == *pos / 2);
    if ascii && *pos > 0 && !ends_with_space_at(buf, *pos) && !ends_with_line_break_at(buf, *pos) {
        if !put(buf, pos, limit, SPACE) {
            assert(after.take(limit as int / 2) == before);
            return false;
        }
    }
    let ghost base = text_in(buf@, *pos as int);
    assert(!ascii ==> token@.len() > 0);
    let mut i: usize = 0;
    while i < token.len()
        invariant
            i <= token@.len(),
            *pos % 2 == 0,
            limit % 2 == 0,
            *pos <= limit <= buf@.len(),
            buf@.len() == old(buf)@.len(),
            buf@.skip(*pos as int) == old(buf)@.skip(*pos as int),
            text_in(buf@, *pos as int) == base + token@.take(i as int),
            after == with_token(text_in(old(buf)@, *old(pos) as int), token@),
            after == if ascii {
                base + token@ + seq![SPACE]
            } else {
                base + token@
            },
        decreases token@.len() - i,
    {
        let ghost held = buf@;
        if !put(buf, pos, limit, token[i]) {
            proof {
                let held_text = base + token@.take(i as int);
                assert(held_text.len() == limit / 2);
                assert(after.len() >= base.len() + token@.len());
                assert(after.take(limit as int / 2) =~= held_text);
            }
            return false;
        }
        proof {
            assert(token@.take(i + 1) == token@.take(i as int).push(token@[i as int]));
            lemma_tail_kept(old(buf)@, held, *pos - 2, *pos as int);
        }
        i = i + 1;
    }
    assert(token@.take(i as int) == token@);
    if ascii {
        let ghost held = buf@;
        if !put(buf, pos, limit, SPACE) {
            proof {
                assert((base + token@).len() == limit / 2);
                assert(after.take(limit as int / 2) =~= base + token@);
            }
            return false;
        }
        proof {
            lemma_tail_kept(old(buf)@, held, *pos - 2, *pos as int);
            assert((base + token@).push(SPACE) =~= after);
        }
    }
    true
}

/// Lays out one line after the text in the first `pos` bytes of `buf`, as far
/// as it fits below `limit`.
fn put_line(buf: &mut [u8], pos: &mut usize, limit: usize, line: &[u16]) -> (fits: bool)
    requires
        *old(pos) % 2 == 0,
        limit % 2 == 0,
        *old(pos) <= limit <= old(buf)@.len(),
    ensures
        laid(
            old(buf)@,
            final(buf)@,
            *final(pos) as int,
            limit as int,
            with_line(text_in(old(buf)@, *old(pos) as int), line@),
            fits,
        ),
{
    let ghost tokens = with_tokens(text_in(buf@, *pos as int), line@);
    let mut start: usize = 0;
    let mut done = false;
    assert(line@.skip(0) == line@);
    while !done
        invariant
            start <= line@.len(),
            *pos % 2 == 0,
            limit % 2 == 0,
            *pos <= limit <= buf@.len(),
            buf@.len() == old(buf)@.len(),
            buf@.skip(*pos as int) == old(buf)@.skip(*pos as int),
            tokens == with_tokens(text_in(old(buf)@, *old(pos) as int), line@),
            !done ==> tokens == with_tokens(text_in(buf@, *pos as int), line@.skip(start as int)),
            done ==> tokens == text_in(buf@, *pos as int),
        decreases line@.len() - start + (if done { 0int } else { 1int }),
    {
        let mut end = start;
        while end < line.len() && line[end] != SPACE
            invariant
                start <= end <= line@.len(),
                forall|j: int| start <= j < end ==> line@[j] != SPACE,
            decreases line@.len() - end,
        {
            end = end + 1;
        }
        let token = slice_subrange(line, start, end);
        let ghost held = buf@;
        let ghost held_pos = *pos as int;
        let ghost text = text_in(held, held_pos);
        let ghost rest = line@.skip(start as int);
        proof {
            lemma_first_space(rest, end - start);
            assert(rest.take(end - start) == token@);
            if end < line@.len() {
                assert(rest.skip(end - start + 1) == line@.skip(end + 1));
                lemma_with_tokens_extends(with_token(text, token@), line@.skip(end + 1));
            } else {
                assert(rest == token@);
            }
            lemma_with_token_extends(text, token@);
            assert(with_token(text, token@).is_prefix_of(tokens));
        }
        if !put_token(buf, pos, limit, token) {
            proof {
                let cut = limit as int / 2;
                lemma_line_break_keeps_cut(tokens, cut);
                assert(tokens.take(cut) == with_token(text, token@).take(cut));
                lemma_tail_kept(old(buf)@, held, held_pos, limit as int);
            }
            return false;
        }
        proof {
            lemma_tail_kept(old(buf)@, held, held_pos, *pos as int);
        }
        if end == line.len() {
            done = true;
        } else {
            start = end + 1;
        }
    }
    let ghost held = buf@;
    let ghost held_pos = *pos as int;
    if ends_with_space_at(buf, *pos) {
        *pos = *pos - 2;
        assert(text_in(buf@, *pos as int) == tokens.drop_last());
    }
    let ghost kept = text_in(buf@, *pos as int);
    assert(with_line_break(tokens) == kept + seq![CARRIAGE_RETURN, LINE_FEED]);
    if !put(buf, pos, limit, CARRIAGE_RETURN) {
        assert(with_line_break(tokens).take(limit as int / 2) == kept);
        return false;
    }
    let ghost with_return = buf@;
    proof {
        if *pos > held_pos {
            lemma_tail_kept(old(buf)@, held, held_pos, *pos as int);
        }
        assert(with_return.skip(*pos as int) == old(buf)@.skip(*pos as int));
    }
    if !put(buf, pos, limit, LINE_FEED) {
        assert(with_line_break(tokens).take(limit as int / 2) == kept.push(CARRIAGE_RETURN));
        return false;
    }
    proof {
        lemma_tail_kept(old(buf)@, with_return, *pos - 2, *pos as int);
        assert(kept.push(CARRIAGE_RETURN).push(LINE_FEED) == with_line_break(tokens));
    }
    true
}

/// The bytes that hold a text are the text's code units, low byte first.
proof fn lemma_text_in_is_encoded(bytes: Seq<u8>, len: int)
    requires
        0 <= len <= bytes.len(),
        len % 2 == 0,
    ensures
        bytes.take(len) == utf16le(text_in(bytes, len)),
{
    let text = text_in(bytes, len);
    assert forall|i: int| 0 <= i < len implies bytes[i] == utf16le(text)[i] by {
        let unit = text[i / 2];
        assert(unit == bytes[2 * (i / 2)] + 256 * bytes[2 * (i / 2) + 1]);
    }
    assert(bytes.take(len) =~= utf16le(text));
}

/// Lays out recognised lines as text in `buf`: UTF-16, low byte first, the
/// lines ended by line breaks and the text by a terminator. Returns the
/// number of bytes written, the terminator included.
///
/// Text that does not fit is cut: the buffer then holds as many code units
/// from the start of the text as leave room for the terminator, and the
/// terminator in the last whole code unit of the buffer. A buffer without
/// room for the terminator is left as it is.
pub fn scan(lines: &Vec<Vec<u16>>, buf: &mut [u8]) -> (result: Result<usize, ReconstructError>)
    ensures
        final(buf)@.len() == old(buf)@.len(),
        match result {
            Ok(written) => {
                let units = fitted(laid_out(lines.deep_view()), old(buf)@.len() as int);
                &&& old(buf)@.len() >= 2
                &&& written == 2 * units.len()
                &&& final(buf)@ == utf16le(units) + old(buf)@.skip(written as int)
            },
            Err(error) => {
                &&& old(buf)@.len() < 2
                &&& error == ReconstructError::CapacityExceeded
                &&& final(buf)@ == old(buf)@
            },
        },
        result matches Ok(written) ==> {
            &&& written % 2 == 0
            &&& 2 <= written <= old(buf)@.len()
            &&& final(buf)@[written - 2] == 0
            &&& final(buf)@[written - 1] == 0
        },
{
    let capacity = buf.len();
    if capacity < 2 {
        return Err(ReconstructError::CapacityExceeded);
    }
    let limit = capacity / 2 * 2 - 2;
    let ghost text = laid_out(lines.deep_view());
    let mut pos: usize = 0;
    let mut fits = true;
    let mut i: usize = 0;
    assert(lines.deep_view().skip(0) == lines.deep_view());
    assert(text_in(buf@, 0) == Seq::<u16>::empty());
    assert(buf@.skip(0) == old(buf)@.skip(0));
    while fits && i < lines.len()
        invariant
            i <= lines@.len(),
            capacity == old(buf)@.len(),
            limit == capacity / 2 * 2 - 2,
            text == laid_out(lines.deep_view()),
            fits ==> text == with_lines(
                text_in(buf@, pos as int),
                lines.deep_view().skip(i as int),
            ),
            !fits ==> laid(old(buf)@, buf@, pos as int, limit as int, text, false),
            buf@.len() == old(buf)@.len(),
            pos % 2 == 0,
            pos <= limit,
            buf@.skip(pos as int) == old(buf)@.skip(pos as int),
        decreases lines@.len() - i + (if fits { 1int } else { 0int }),
    {
        let ghost held = buf@;
        let ghost held_pos = pos as int;
        let ghost rest = lines.deep_view().skip(i as int);
        proof {
            assert(rest[0] == lines@[i as int]@);
            assert(rest.skip(1) == lines.deep_view().skip(i + 1));
            lemma_with_lines_extends(with_line(text_in(held, held_pos), rest[0]), rest.skip(1));
            lemma_with_line_extends(text_in(held, held_pos), rest[0]);
        }
        fits = put_line(buf, &mut pos, limit, lines[i].as_slice());
        proof {
            let line_text = with_line(text_in(held, held_pos), rest[0]);
            assert(line_text.is_prefix_of(text));
            if fits {
                lemma_tail_kept(old(buf)@, held, held_pos, pos as int);
            } else {
                assert(text.take(limit as int / 2) == line_text.take(limit as int / 2));
                lemma_tail_kept(old(buf)@, held, held_pos, pos as int);
            }
        }
        i = i + 1;
    }
    let ghost held = buf@;
    let ghost held_pos = pos as int;
    let ghost units = fitted(text, capacity as int);
    proof {
        if fits {
            assert(lines.deep_view().skip(i as int) == Seq::<Seq<u16>>::empty());
            assert(text == text_in(held, held_pos));
        }
        assert(text_in(held, held_pos).push(TERMINATOR) == units);
    }
    let fitted = put(buf, &mut pos, limit + 2, TERMINATOR);
    proof {
        assert(fitted);
        lemma_text_in_is_encoded(buf@, pos as int);
        lemma_tail_kept(old(buf)@, held, held_pos, pos as int);
        assert(utf16le(units)[pos - 2] == 0 && utf16le(units)[pos - 1] == 0);
        assert(buf@.take(pos as int)[pos - 2] == buf@[pos - 2]);
        assert(buf@.take(pos as int)[pos - 1] == buf@[pos - 1]);
        assert(buf@ == buf@.take(pos as int) + buf@.skip(pos as int));
    }
    Ok(pos)
}

} // verus!
