//! Where the tokens that the lexer finds lie in the text: the place of a token
//! names the line and the columns of the characters that spell it.

use std::sync::Arc;
use vstd::prelude::*;
use crate::error_handling::{FileRef, SourceFile};
use crate::lexer::{
    lex, digits_end, identifier_end, is_identifier_char, is_white_space, place, scan,
    token_at, token_end, TokenView,
};
use crate::text::is_decimal_digit;

verus! {

/// The number of line feeds before `pos`.
pub open spec fn line_feeds_before(text: Seq<char>, pos: int) -> int
    decreases pos,
{
    if pos <= 0 {
        0
    } else {
        line_feeds_before(text, pos - 1) + if text[pos - 1] == '\n' {
            1int
        } else {
            0int
        }
    }
}

/// Where the line starts on which the character at `pos` stands: behind the last
/// line feed before `pos`.
pub open spec fn line_begin(text: Seq<char>, pos: int) -> int
    decreases pos,
{
    if pos <= 0 {
        0
    } else if text[pos - 1] == '\n' {
        pos
    } else {
        line_begin(text, pos - 1)
    }
}

/// Whether no character of `text[from..to]` is a line feed.
pub open spec fn on_one_line(text: Seq<char>, from: int, to: int) -> bool {
    forall|i: int| from <= i < to ==> #[trigger] text[i] != '\n'
}

/// Whether `chars` spell the token: the lexer reads exactly this token from them
/// and uses all of them.
pub open spec fn spells(chars: Seq<char>, token: TokenView) -> bool {
    &&& chars.len() > 0
    &&& !is_white_space(chars[0])
    &&& token_end(chars, 0) == chars.len()
    &&& token_at(chars, 0, chars.len() as int) == Some(token)
}

/// Whether the located token is the one that `text[start..end]` spells, and its
/// place says so: the line of `start`, its column on that line, and the number
/// of its characters.
pub open spec fn lies_at(
    source: Arc<SourceFile>,
    located: (TokenView, FileRef),
    start: int,
    end: int,
) -> bool {
    let text = source.text@;
    let position = located.1;
    &&& 0 <= start < end <= text.len()
    &&& on_one_line(text, start, end)
    &&& spells(text.subrange(start, end), located.0)
    &&& position.file == source
    &&& position.line_index == line_feeds_before(text, start)
    &&& position.begin_char_index == start - line_begin(text, start)
    &&& position.length == end - start
}

proof fn lemma_digits_run(text: Seq<char>, start: int, from: int)
    requires
        0 <= start < from <= text.len(),
    ensures
        from <= digits_end(text, from) <= text.len(),
        forall|i: int| from <= i < digits_end(text, from) ==> is_decimal_digit(#[trigger] text[i]),
        digits_end(text.subrange(start, digits_end(text, from)), from - start) == digits_end(
            text,
            from,
        ) - start,
    decreases text.len() - from,
{
    let end = digits_end(text, from);
    if from < text.len() && is_decimal_digit(text[from]) {
        lemma_digits_run(text, start, from + 1);
        let chars = text.subrange(start, end);
        assert(chars[from - start] == text[from]);
    }
}

proof fn lemma_identifier_run(text: Seq<char>, start: int, from: int)
    requires
        0 <= start < from <= text.len(),
    ensures
        from <= identifier_end(text, from) <= text.len(),
        forall|i: int|
            from <= i < identifier_end(text, from) ==> is_identifier_char(#[trigger] text[i]),
        identifier_end(text.subrange(start, identifier_end(text, from)), from - start)
            == identifier_end(text, from) - start,
    decreases text.len() - from,
{
    let end = identifier_end(text, from);
    if from < text.len() && is_identifier_char(text[from]) {
        lemma_identifier_run(text, start, from + 1);
        let chars = text.subrange(start, end);
        assert(chars[from - start] == text[from]);
    }
}

/// The characters of a token spell it, and none of them is a line feed.
proof fn lemma_token_spelled(text: Seq<char>, pos: int)
    requires
        0 <= pos < text.len(),
        !is_white_space(text[pos]),
        token_at(text, pos, token_end(text, pos)) is Some,
    ensures
        pos < token_end(text, pos) <= text.len(),
        on_one_line(text, pos, token_end(text, pos)),
        spells(
            text.subrange(pos, token_end(text, pos)),
            token_at(text, pos, token_end(text, pos))->Some_0,
        ),
{
    let end = token_end(text, pos);
    if is_decimal_digit(text[pos]) {
        lemma_digits_run(text, pos, pos + 1);
    } else if is_identifier_char(text[pos]) {
        lemma_identifier_run(text, pos, pos + 1);
    }
    let chars = text.subrange(pos, end);
    assert(chars[0] == text[pos]);
    assert(chars.subrange(0, chars.len() as int) =~= chars);
    assert forall|i: int| pos <= i < end implies #[trigger] text[i] != '\n' by {
        if i > pos {
            assert(is_decimal_digit(text[i]) || is_identifier_char(text[i]));
        }
    }
}

proof fn lemma_same_line(text: Seq<char>, from: int, to: int)
    requires
        0 <= from <= to,
        on_one_line(text, from, to),
    ensures
        line_feeds_before(text, to) == line_feeds_before(text, from),
        line_begin(text, to) == line_begin(text, from),
    decreases to - from,
{
    if from < to {
        assert(text[to - 1] != '\n');
        lemma_same_line(text, from, to - 1);
    }
}

/// Each token that the scan from `pos` on finds lies at its place.
proof fn lemma_scan_places(source: Arc<SourceFile>, pos: int, line: u32, line_start: int, k: int)
    -> (span: (int, int))
    requires
        source.text@.len() <= u32::MAX,
        0 <= pos <= source.text@.len(),
        line == line_feeds_before(source.text@, pos),
        line_start == line_begin(source.text@, pos),
        0 <= k < scan(source, pos, line, line_start).tokens.len(),
    ensures
        lies_at(source, scan(source, pos, line, line_start).tokens[k], span.0, span.1),
    decreases source.text@.len() - pos,
{
    let text = source.text@;
    lemma_line_bounds(text, pos);
    lemma_line_bounds(text, pos + 1);
    let c = text[pos];
    let line2 = if c == '\n' {
        line.wrapping_add(1)
    } else {
        line
    };
    let line_start2 = if c == '\n' {
        pos + 1
    } else {
        line_start
    };
    if is_white_space(c) {
        lemma_scan_places(source, pos + 1, line2, line_start2, k)
    } else {
        let end = token_end(text, pos);
        if is_decimal_digit(c) {
            lemma_digits_run(text, pos, pos + 1);
        } else if is_identifier_char(c) {
            lemma_identifier_run(text, pos, pos + 1);
        }
        let rest = scan(source, end, line2, line_start2);
        match token_at(text, pos, end) {
            Some(token) => {
                lemma_token_spelled(text, pos);
                lemma_same_line(text, pos, end);
                if k == 0 {
                    (pos, end)
                } else {
                    assert(scan(source, pos, line, line_start).tokens[k] == rest.tokens[k - 1]);
                    lemma_scan_places(source, end, line2, line_start2, k - 1)
                }
            },
            None => {
                assert(end == pos + 1);
                assert(on_one_line(text, pos, end));
                lemma_same_line(text, pos, end);
                lemma_scan_places(source, end, line2, line_start2, k)
            },
        }
    }
}

proof fn lemma_line_bounds(text: Seq<char>, pos: int)
    requires
        0 <= pos,
    ensures
        0 <= line_feeds_before(text, pos) <= pos,
        0 <= line_begin(text, pos) <= pos,
    decreases pos,
{
    if pos > 0 {
        lemma_line_bounds(text, pos - 1);
    }
}

/// The place of every token that the lexer finds names the characters that spell
/// the token: `span` is where they stand in the text.
pub proof fn lemma_token_places(source: Arc<SourceFile>, k: int) -> (span: (int, int))
    requires
        source.text@.len() <= u32::MAX,
        0 <= k < scan(source, 0, 0, 0).tokens.len(),
    ensures
        lies_at(source, scan(source, 0, 0, 0).tokens[k], span.0, span.1),
{
    lemma_scan_places(source, 0, 0, 0, k)
}

/// The place of every token that the lexer hands back, but the closing
/// `EndOfFile`, names the characters that spell the token.
pub proof fn lemma_lexed_token_places(
    source: Arc<SourceFile>,
    tokens: Seq<(TokenView, FileRef)>,
    k: int,
) -> (span: (int, int))
    requires
        source.text@.len() <= u32::MAX,
        lex(source) == Ok::<Seq<(TokenView, FileRef)>, Seq<crate::error_handling::ErrorView>>(
            tokens,
        ),
        0 <= k < tokens.len() - 1,
    ensures
        lies_at(source, tokens[k], span.0, span.1),
{
    lemma_token_places(source, k)
}

} // verus!
