//! The text that recognised lines make: what is laid out, in code units.
//!
//! A recognised line is a sequence of UTF-16 code units. Its tokens are what
//! stands between its spaces. Tokens of ASCII text are words and get spaces
//! around them; other tokens, such as runs of ideographs, are set without
//! space.

use vstd::prelude::*;

verus! {

/// The code unit that separates the tokens of a recognised line.
pub const SPACE: u16 = 0x0020;

/// The first code unit of a line break.
pub const CARRIAGE_RETURN: u16 = 0x000d;

/// The second code unit of a line break.
pub const LINE_FEED: u16 = 0x000a;

/// The code unit that ends the text.
pub const TERMINATOR: u16 = 0x0000;

/// A token is ASCII-only if every code unit of it is below 0x80. The empty
/// token is.
pub open spec fn is_ascii(token: Seq<u16>) -> bool {
    forall|i: int| 0 <= i < token.len() ==> token[i] < 0x80
}

/// Where the first token of `line` ends: the index of the first space, or
/// the length of the line if it has none.
pub open spec fn first_space(line: Seq<u16>) -> nat
    decreases line.len(),
{
    if line.len() == 0 || line[0] == SPACE {
        0
    } else {
        1 + first_space(line.skip(1))
    }
}

/// Whether the last code unit of `text` is a space.
pub open spec fn ends_with_space(text: Seq<u16>) -> bool {
    text.len() >= 1 && text.last() == SPACE
}

/// Whether the last two code units of `text` are a line break.
pub open spec fn ends_with_line_break(text: Seq<u16>) -> bool {
    text.len() >= 2 && text[text.len() - 2] == CARRIAGE_RETURN && text.last() == LINE_FEED
}

/// `text` with one more token laid out after it.
///
/// An ASCII-only token gets a space on either side; the space before it is
/// left out at the start of the text, after a line break and after a space.
/// Any other token is appended as it is.
pub open spec fn with_token(text: Seq<u16>, token: Seq<u16>) -> Seq<u16> {
    if is_ascii(token) {
        if text.len() == 0 || ends_with_space(text) || ends_with_line_break(text) {
            text + token + seq![SPACE]
        } else {
            text + seq![SPACE] + token + seq![SPACE]
        }
    } else {
        text + token
    }
}

/// `text` with the tokens of `line` laid out after it, first to last. The
/// first token is what stands before the first space of the line; the others
/// are the tokens of what stands after that space.
pub open spec fn with_tokens(text: Seq<u16>, line: Seq<u16>) -> Seq<u16>
    decreases line.len(),
{
    let end = first_space(line);
    if end >= line.len() {
        with_token(text, line)
    } else {
        with_tokens(with_token(text, line.take(end as int)), line.skip(end as int + 1))
    }
}

/// `text`, less a space at its very end, and a line break.
pub open spec fn with_line_break(text: Seq<u16>) -> Seq<u16> {
    if ends_with_space(text) {
        text.drop_last() + seq![CARRIAGE_RETURN, LINE_FEED]
    } else {
        text + seq![CARRIAGE_RETURN, LINE_FEED]
    }
}

/// `text` with one more line laid out after it: the line's tokens and a line
/// break.
pub open spec fn with_line(text: Seq<u16>, line: Seq<u16>) -> Seq<u16> {
    with_line_break(with_tokens(text, line))
}

/// `text` with `lines` laid out after it, first to last.
pub open spec fn with_lines(text: Seq<u16>, lines: Seq<Seq<u16>>) -> Seq<u16>
    decreases lines.len(),
{
    if lines.len() == 0 {
        text
    } else {
        with_lines(with_line(text, lines[0]), lines.skip(1))
    }
}

/// The text of `lines`, without a terminator.
pub open spec fn laid_out(lines: Seq<Seq<u16>>) -> Seq<u16> {
    with_lines(Seq::empty(), lines)
}

/// What a buffer of `capacity` bytes, at least two, takes of `text`: as many
/// code units from its start as leave room for the terminator, and the
/// terminator.
pub open spec fn fitted(text: Seq<u16>, capacity: int) -> Seq<u16> {
    if text.len() < capacity / 2 {
        text.push(TERMINATOR)
    } else {
        text.take(capacity / 2 - 1).push(TERMINATOR)
    }
}

/// Code units as bytes, the low byte of each first.
pub open spec fn utf16le(units: Seq<u16>) -> Seq<u8> {
    Seq::new(
        2 * units.len(),
        |i: int|
            if i % 2 == 0 {
                (units[i / 2] % 256) as u8
            } else {
                (units[i / 2] / 256) as u8
            },
    )
}

/// What a buffer takes of a text fits the buffer, ends with the terminator,
/// and is the start of the text before that.
pub proof fn lemma_fitted_fits(text: Seq<u16>, capacity: int)
    requires
        capacity >= 2,
    ensures
        2 * fitted(text, capacity).len() <= capacity,
        fitted(text, capacity).last() == TERMINATOR,
        fitted(text, capacity).drop_last().is_prefix_of(text),
        text.len() < capacity / 2 ==> fitted(text, capacity).drop_last() == text,
{
    if text.len() < capacity / 2 {
        assert(text.push(TERMINATOR).drop_last() == text);
    } else {
        let cut = text.take(capacity / 2 - 1);
        assert(cut.push(TERMINATOR).drop_last() == cut);
    }
}

/// A line without a space in its first `end` code units, and with a space
/// or its end behind them, has its first token end at `end`.
pub proof fn lemma_first_space(line: Seq<u16>, end: int)
    requires
        0 <= end <= line.len(),
        forall|j: int| 0 <= j < end ==> line[j] != SPACE,
        end == line.len() || line[end] == SPACE,
    ensures
        first_space(line) == end,
    decreases end,
{
    if end > 0 {
        lemma_first_space(line.skip(1), end - 1);
    }
}

/// Laying out a token leaves what was there and adds something.
pub proof fn lemma_with_token_extends(text: Seq<u16>, token: Seq<u16>)
    ensures
        text.is_prefix_of(with_token(text, token)),
        with_token(text, token).len() > text.len(),
{
}

/// Laying out the tokens of a line leaves what was there and adds something.
pub proof fn lemma_with_tokens_extends(text: Seq<u16>, line: Seq<u16>)
    ensures
        text.is_prefix_of(with_tokens(text, line)),
        with_tokens(text, line).len() > text.len(),
    decreases line.len(),
{
    let end = first_space(line);
    if end >= line.len() {
        lemma_with_token_extends(text, line);
    } else {
        let first = with_token(text, line.take(end as int));
        lemma_with_token_extends(text, line.take(end as int));
        lemma_with_tokens_extends(first, line.skip(end as int + 1));
    }
}

/// Ending a line changes nothing before the last code unit of the line.
pub proof fn lemma_line_break_keeps_cut(text: Seq<u16>, cut: int)
    requires
        0 <= cut < text.len(),
    ensures
        with_line_break(text).len() > cut,
        with_line_break(text).take(cut) == text.take(cut),
{
}

/// Laying out a line leaves what was there and adds something.
pub proof fn lemma_with_line_extends(text: Seq<u16>, line: Seq<u16>)
    ensures
        text.is_prefix_of(with_line(text, line)),
        with_line(text, line).len() > text.len(),
{
    lemma_with_tokens_extends(text, line);
    lemma_line_break_keeps_cut(with_tokens(text, line), text.len() as int);
}

/// Laying out lines leaves what was there.
pub proof fn lemma_with_lines_extends(text: Seq<u16>, lines: Seq<Seq<u16>>)
    ensures
        text.is_prefix_of(with_lines(text, lines)),
    decreases lines.len(),
{
    if lines.len() > 0 {
        lemma_with_line_extends(text, lines[0]);
        lemma_with_lines_extends(with_line(text, lines[0]), lines.skip(1));
    }
}

} // verus!
