//! Splits the code up into tokens that are easier to parse.
//! Operators made of several symbols, such as `!=`, are left to the parser.

use std::sync::Arc;
use vstd::prelude::*;
use crate::error_handling::{
    errors_view, share_file, CompileErrors, CompileResult, ErrorView, FileRef, FileTaggedError,
    SourceFile,
};
use crate::text::{
    chars_of, decimal_digit, digit_value, is_decimal_digit, matches_word, string_of,
};

verus! {

/// A small group of characters that conveys a particular meaning to the compiler.
#[derive(Debug, PartialEq)]
pub enum Token {
    OpenParen,
    CloseParen,
    OpenBrace,
    CloseBrace,
    Identifier(String),
    Number(i32),
    If,
    While,
    Else,
    Semicolon,
    Plus,
    Minus,
    Int,
    Void,
    Percent,
    Comma,
    Star,
    ForwardSlash,
    Ampersand,
    Carat,
    Bar,
    LeftArrow,
    RightArrow,
    Equals,
    Bang,
    Tilda,
    Return,
    Continue,
    Break,
    EndOfFile,
}

/// A token with the name of an identifier as characters.
pub enum TokenView {
    OpenParen,
    CloseParen,
    OpenBrace,
    CloseBrace,
    Identifier(Seq<char>),
    Number(i32),
    If,
    While,
    Else,
    Semicolon,
    Plus,
    Minus,
    Int,
    Void,
    Percent,
    Comma,
    Star,
    ForwardSlash,
    Ampersand,
    Carat,
    Bar,
    LeftArrow,
    RightArrow,
    Equals,
    Bang,
    Tilda,
    Return,
    Continue,
    Break,
    EndOfFile,
}

impl View for Token {
    type V = TokenView;

    open spec fn view(&self) -> TokenView {
        match self {
            Token::OpenParen => TokenView::OpenParen,
            Token::CloseParen => TokenView::CloseParen,
            Token::OpenBrace => TokenView::OpenBrace,
            Token::CloseBrace => TokenView::CloseBrace,
            Token::Identifier(name) => TokenView::Identifier(name@),
            Token::Number(n) => TokenView::Number(*n),
            Token::If => TokenView::If,
            Token::While => TokenView::While,
            Token::Else => TokenView::Else,
            Token::Semicolon => TokenView::Semicolon,
            Token::Plus => TokenView::Plus,
            Token::Minus => TokenView::Minus,
            Token::Int => TokenView::Int,
            Token::Void => TokenView::Void,
            Token::Percent => TokenView::Percent,
            Token::Comma => TokenView::Comma,
            Token::Star => TokenView::Star,
            Token::ForwardSlash => TokenView::ForwardSlash,
            Token::Ampersand => TokenView::Ampersand,
            Token::Carat => TokenView::Carat,
            Token::Bar => TokenView::Bar,
            Token::LeftArrow => TokenView::LeftArrow,
            Token::RightArrow => TokenView::RightArrow,
            Token::Equals => TokenView::Equals,
            Token::Bang => TokenView::Bang,
            Token::Tilda => TokenView::Tilda,
            Token::Return => TokenView::Return,
            Token::Continue => TokenView::Continue,
            Token::Break => TokenView::Break,
            Token::EndOfFile => TokenView::EndOfFile,
        }
    }
}

impl Clone for Token {
    fn clone(&self) -> (res: Self)
        ensures
            res == *self,
    {
        match self {
            Token::OpenParen => Token::OpenParen,
            Token::CloseParen => Token::CloseParen,
            Token::OpenBrace => Token::OpenBrace,
            Token::CloseBrace => Token::CloseBrace,
            Token::Identifier(name) => Token::Identifier(name.clone()),
            Token::Number(n) => Token::Number(*n),
            Token::If => Token::If,
            Token::While => Token::While,
            Token::Else => Token::Else,
            Token::Semicolon => Token::Semicolon,
            Token::Plus => Token::Plus,
            Token::Minus => Token::Minus,
            Token::Int => Token::Int,
            Token::Void => Token::Void,
            Token::Percent => Token::Percent,
            Token::Comma => Token::Comma,
            Token::Star => Token::Star,
            Token::ForwardSlash => Token::ForwardSlash,
            Token::Ampersand => Token::Ampersand,
            Token::Carat => Token::Carat,
            Token::Bar => Token::Bar,
            Token::LeftArrow => Token::LeftArrow,
            Token::RightArrow => Token::RightArrow,
            Token::Equals => Token::Equals,
            Token::Bang => Token::Bang,
            Token::Tilda => Token::Tilda,
            Token::Return => Token::Return,
            Token::Continue => Token::Continue,
            Token::Break => Token::Break,
            Token::EndOfFile => Token::EndOfFile,
        }
    }
}

/// The views of a sequence of located tokens, in order.
pub open spec fn tokens_view(tokens: Seq<(Token, FileRef)>) -> Seq<(TokenView, FileRef)> {
    tokens.map_values(|t: (Token, FileRef)| (t.0@, t.1))
}

/// What `char::is_alphanumeric` of std answers for a character outside ASCII.
pub uninterp spec fn unicode_alphanumeric(c: char) -> bool;

/// What `char::is_whitespace` of std answers for a character outside ASCII.
pub uninterp spec fn unicode_whitespace(c: char) -> bool;

/// Whether `c` is a letter or a digit: within ASCII `a` to `z`, `A` to `Z` and `0` to `9`.
pub open spec fn is_letter_or_digit(c: char) -> bool {
    if (c as u32) < 128 {
        ('a' <= c <= 'z') || ('A' <= c <= 'Z') || ('0' <= c <= '9')
    } else {
        unicode_alphanumeric(c)
    }
}

/// Whether `c` is white space: within ASCII the space and the characters from tab to
/// carriage return.
pub open spec fn is_white_space(c: char) -> bool {
    if (c as u32) < 128 {
        c == ' ' || (9 <= (c as u32) <= 13)
    } else {
        unicode_whitespace(c)
    }
}

/// `char::is_alphanumeric` of std: letters and digits. Within ASCII these are the
/// Latin letters and the digits `0` to `9`; beyond it the answer is Unicode's.
pub assume_specification[ char::is_alphanumeric ](c: char) -> (b: bool)
    ensures
        b == is_letter_or_digit(c),
        (c as u32) >= 128 ==> b == unicode_alphanumeric(c),
;

/// `char::is_whitespace` of std: characters with the property White_Space. Within
/// ASCII these are the space, tab, line feed, vertical tab, form feed and carriage
/// return; beyond it the answer is Unicode's.
pub assume_specification[ char::is_whitespace ](c: char) -> (b: bool)
    ensures
        b == is_white_space(c),
        (c as u32) >= 128 ==> b == unicode_whitespace(c),
;

/// Whether `c` may stand in an identifier.
pub open spec fn is_identifier_char(c: char) -> bool {
    is_letter_or_digit(c) || c == '_'
}

/// The keyword that `word` spells, if it spells one.
pub open spec fn keyword(word: Seq<char>) -> Option<TokenView> {
    if word == "if"@ {
        Some(TokenView::If)
    } else if word == "while"@ {
        Some(TokenView::While)
    } else if word == "else"@ {
        Some(TokenView::Else)
    } else if word == "int"@ {
        Some(TokenView::Int)
    } else if word == "void"@ {
        Some(TokenView::Void)
    } else if word == "continue"@ {
        Some(TokenView::Continue)
    } else if word == "break"@ {
        Some(TokenView::Break)
    } else if word == "return"@ {
        Some(TokenView::Return)
    } else {
        None
    }
}

/// The token that the single character `c` makes, if it makes one.
pub open spec fn punctuation(c: char) -> Option<TokenView> {
    if c == '(' {
        Some(TokenView::OpenParen)
    } else if c == ')' {
        Some(TokenView::CloseParen)
    } else if c == '{' {
        Some(TokenView::OpenBrace)
    } else if c == '}' {
        Some(TokenView::CloseBrace)
    } else if c == '+' {
        Some(TokenView::Plus)
    } else if c == '-' {
        Some(TokenView::Minus)
    } else if c == '*' {
        Some(TokenView::Star)
    } else if c == '/' {
        Some(TokenView::ForwardSlash)
    } else if c == '^' {
        Some(TokenView::Carat)
    } else if c == '|' {
        Some(TokenView::Bar)
    } else if c == '%' {
        Some(TokenView::Percent)
    } else if c == '&' {
        Some(TokenView::Ampersand)
    } else if c == '<' {
        Some(TokenView::LeftArrow)
    } else if c == ',' {
        Some(TokenView::Comma)
    } else if c == '>' {
        Some(TokenView::RightArrow)
    } else if c == '=' {
        Some(TokenView::Equals)
    } else if c == '~' {
        Some(TokenView::Tilda)
    } else if c == '!' {
        Some(TokenView::Bang)
    } else if c == ';' {
        Some(TokenView::Semicolon)
    } else {
        None
    }
}

/// The value of a number literal: its digits read in base ten with 32-bit
/// arithmetic that wraps around.
pub open spec fn literal_value(digits: Seq<char>) -> i32
    decreases digits.len(),
{
    if digits.len() == 0 {
        0
    } else {
        literal_value(digits.drop_last()).wrapping_mul(10).wrapping_add(
            digit_value(digits.last()) as i32,
        )
    }
}

/// The end of the run of decimal digits that starts at `from`.
pub open spec fn digits_end(text: Seq<char>, from: int) -> int
    decreases text.len() - from,
{
    if 0 <= from < text.len() && is_decimal_digit(text[from]) {
        digits_end(text, from + 1)
    } else {
        from
    }
}

/// The end of the run of identifier characters that starts at `from`.
pub open spec fn identifier_end(text: Seq<char>, from: int) -> int
    decreases text.len() - from,
{
    if 0 <= from < text.len() && is_identifier_char(text[from]) {
        identifier_end(text, from + 1)
    } else {
        from
    }
}

/// Where the token that starts at `pos` ends. A digit starts a number, another
/// identifier character a word, and anything else stands alone.
pub open spec fn token_end(text: Seq<char>, pos: int) -> int {
    if is_decimal_digit(text[pos]) {
        digits_end(text, pos + 1)
    } else if is_identifier_char(text[pos]) {
        identifier_end(text, pos + 1)
    } else {
        pos + 1
    }
}

/// The token that `text[pos..end]` makes, or `None` where the character at `pos`
/// is not part of the language.
pub open spec fn token_at(text: Seq<char>, pos: int, end: int) -> Option<TokenView> {
    if is_decimal_digit(text[pos]) {
        Some(TokenView::Number(literal_value(text.subrange(pos, end))))
    } else if is_identifier_char(text[pos]) {
        match keyword(text.subrange(pos, end)) {
            Some(token) => Some(token),
            None => Some(TokenView::Identifier(text.subrange(pos, end))),
        }
    } else {
        punctuation(text[pos])
    }
}

/// What a scan of the text finds.
pub struct Scan {
    /// The tokens in the order of the text, each with its place.
    pub tokens: Seq<(TokenView, FileRef)>,
    /// One diagnostic for each character that is not part of the language.
    pub errors: Seq<ErrorView>,
    /// The number of line feeds in the text, counted in 32 bits.
    pub lines: u32,
}

/// The place of a token that starts at `pos` on line `line`, which starts at `line_start`.
pub open spec fn place(
    source: Arc<SourceFile>,
    line: u32,
    line_start: int,
    pos: int,
    length: int,
) -> FileRef {
    FileRef {
        file: source,
        line_index: line,
        begin_char_index: (pos - line_start) as u32,
        length: length as u32,
    }
}

/// The scan of the text from `pos` on, where `line` line feeds lie before `pos` and
/// the current line starts at `line_start`.
pub open spec fn scan(source: Arc<SourceFile>, pos: int, line: u32, line_start: int) -> Scan
    decreases source.text@.len() - pos,
{
    let text = source.text@;
    if !(0 <= pos < text.len()) {
        Scan { tokens: seq![], errors: seq![], lines: line }
    } else {
        let c = text[pos];
        let line = if c == '\n' {
            line.wrapping_add(1)
        } else {
            line
        };
        let line_start = if c == '\n' {
            pos + 1
        } else {
            line_start
        };
        if is_white_space(c) {
            scan(source, pos + 1, line, line_start)
        } else {
            let end = token_end(text, pos);
            if end <= pos || end > text.len() {
                Scan { tokens: seq![], errors: seq![], lines: line }
            } else {
                let rest = scan(source, end, line, line_start);
                match token_at(text, pos, end) {
                    Some(token) => Scan {
                        tokens: seq![
                            (
                                token,
                                place(source, line, line_start, pos, end - pos),
                            ),
                        ] + rest.tokens,
                        ..rest
                    },
                    None => Scan {
                        errors: seq![
                            ErrorView {
                                position: Some(place(source, line, line_start, pos, 1)),
                                msg: "Invalid character"@,
                            },
                        ] + rest.errors,
                        ..rest
                    },
                }
            }
        }
    }
}

/// The place that the closing `EndOfFile` token is given: a line after the last.
pub open spec fn end_of_file_place(source: Arc<SourceFile>, lines: u32) -> FileRef {
    FileRef { file: source, line_index: lines.wrapping_add(1), begin_char_index: 0, length: 5 }
}

/// The tokens of a source file, closed by `EndOfFile`, or the diagnostics for
/// every character that is not part of the language.
pub open spec fn lex(source: Arc<SourceFile>) -> Result<Seq<(TokenView, FileRef)>, Seq<ErrorView>> {
    let found = scan(source, 0, 0, 0);
    if found.errors.len() > 0 {
        Err(found.errors)
    } else {
        Ok(found.tokens.push((TokenView::EndOfFile, end_of_file_place(source, found.lines))))
    }
}

/// The view of what the lexer returns.
pub open spec fn lex_view(result: CompileResult<Vec<(Token, FileRef)>>) -> Result<
    Seq<(TokenView, FileRef)>,
    Seq<ErrorView>,
> {
    match result {
        Ok(tokens) => Ok(tokens_view(tokens@)),
        Err(errors) => Err(errors@),
    }
}

fn is_valid_for_identifier(c: char) -> (b: bool)
    ensures
        b == is_identifier_char(c),
{
    c.is_alphanumeric() || c == '_'
}

/// Reads the digits that follow the first digit of a number, which stands at `start`.
/// Returns the value of the number and the place where it ends.
fn parse_number(chars: &Vec<char>, start: usize, first_digit: i32) -> (r: (i32, usize))
    requires
        start < chars@.len(),
        is_decimal_digit(chars@[start as int]),
        first_digit == digit_value(chars@[start as int]),
    ensures
        r.1 == digits_end(chars@, start + 1),
        start < r.1 <= chars@.len(),
        r.0 == literal_value(chars@.subrange(start as int, r.1 as int)),
{
    let n = chars.len();
    let mut current: i32 = first_digit;
    let mut end: usize = start + 1;
    proof {
        let one = chars@.subrange(start as int, start + 1);
        assert(one.drop_last() =~= Seq::<char>::empty());
        assert(literal_value(one.drop_last()) == 0);
        assert(one.last() == chars@[start as int]);
    }
    loop
        invariant
            n == chars@.len(),
            start < end <= chars@.len(),
            digits_end(chars@, end as int) == digits_end(chars@, start + 1),
            current == literal_value(chars@.subrange(start as int, end as int)),
        ensures
            start < end <= chars@.len(),
            end == digits_end(chars@, start + 1),
            current == literal_value(chars@.subrange(start as int, end as int)),
        decreases chars@.len() - end,
    {
        if end >= n {
            break;
        }
        match decimal_digit(chars[end]) {
            Some(digit) => {
                proof {
                    let before = chars@.subrange(start as int, end as int);
                    let after = chars@.subrange(start as int, end + 1);
                    assert(after.drop_last() =~= before);
                    assert(after.last() == chars@[end as int]);
                }
                current = current.wrapping_mul(10).wrapping_add(digit as i32);
                end += 1;
            },
            None => {
                break;
            },
        }
    }
    (current, end)
}

/// Finds the end of the identifier whose first character stands at `start`.
fn parse_identifier(chars: &Vec<char>, start: usize) -> (r: (String, usize))
    requires
        start < chars@.len(),
    ensures
        r.1 == identifier_end(chars@, start + 1),
        start < r.1 <= chars@.len(),
        r.0@ == chars@.subrange(start as int, r.1 as int),
{
    let n = chars.len();
    let mut end: usize = start + 1;
    while end < n && is_valid_for_identifier(chars[end])
        invariant
            n == chars@.len(),
            start < end <= chars@.len(),
            identifier_end(chars@, end as int) == identifier_end(chars@, start + 1),
        decreases chars@.len() - end,
    {
        end += 1;
    }
    (string_of(chars, start, end), end)
}

fn keyword_token(chars: &Vec<char>, from: usize, to: usize) -> (r: Option<Token>)
    requires
        from <= to <= chars@.len(),
    ensures
        match r {
            Some(token) => keyword(chars@.subrange(from as int, to as int)) == Some(token@),
            None => keyword(chars@.subrange(from as int, to as int)) is None,
        },
{
    if matches_word(chars, from, to, "if") {
        Some(Token::If)
    } else if matches_word(chars, from, to, "while") {
        Some(Token::While)
    } else if matches_word(chars, from, to, "else") {
        Some(Token::Else)
    } else if matches_word(chars, from, to, "int") {
        Some(Token::Int)
    } else if matches_word(chars, from, to, "void") {
        Some(Token::Void)
    } else if matches_word(chars, from, to, "continue") {
        Some(Token::Continue)
    } else if matches_word(chars, from, to, "break") {
        Some(Token::Break)
    } else if matches_word(chars, from, to, "return") {
        Some(Token::Return)
    } else {
        None
    }
}

fn punctuation_token(c: char) -> (r: Option<Token>)
    ensures
        match r {
            Some(token) => punctuation(c) == Some(token@),
            None => punctuation(c) is None,
        },
{
    match c {
        '(' => Some(Token::OpenParen),
        ')' => Some(Token::CloseParen),
        '{' => Some(Token::OpenBrace),
        '}' => Some(Token::CloseBrace),
        '+' => Some(Token::Plus),
        '-' => Some(Token::Minus),
        '*' => Some(Token::Star),
        '/' => Some(Token::ForwardSlash),
        '^' => Some(Token::Carat),
        '|' => Some(Token::Bar),
        '%' => Some(Token::Percent),
        '&' => Some(Token::Ampersand),
        '<' => Some(Token::LeftArrow),
        ',' => Some(Token::Comma),
        '>' => Some(Token::RightArrow),
        '=' => Some(Token::Equals),
        '~' => Some(Token::Tilda),
        '!' => Some(Token::Bang),
        ';' => Some(Token::Semicolon),
        _ => None,
    }
}

/// Reads the token that starts at `idx`, which is no white space. Returns the
/// token, or `None` for a character that is not part of the language, and the
/// place where it ends.
fn read_token(chars: &Vec<char>, idx: usize) -> (r: (Option<Token>, usize))
    requires
        idx < chars@.len(),
    ensures
        r.1 == token_end(chars@, idx as int),
        idx < r.1 <= chars@.len(),
        match r.0 {
            Some(token) => token_at(chars@, idx as int, r.1 as int) == Some(token@),
            None => token_at(chars@, idx as int, r.1 as int) is None,
        },
{
    // The number of characters fits a `usize`, and so does the place behind any of them.
    let _ = chars.len();
    let c = chars[idx];
    match decimal_digit(c) {
        Some(first_digit) => {
            let (value, end) = parse_number(chars, idx, first_digit as i32);
            (Some(Token::Number(value)), end)
        },
        None => {
            if is_valid_for_identifier(c) {
                let (ident, end) = parse_identifier(chars, idx);
                match keyword_token(chars, idx, end) {
                    Some(token) => (Some(token), end),
                    None => (Some(Token::Identifier(ident)), end),
                }
            } else {
                (punctuation_token(c), idx + 1)
            }
        },
    }
}

/// Takes in a source file and splits its text into a list of tokens.
///
/// A character that is not part of the language is skipped and reported, so
/// that later ones are found too; no token is returned then. The last token is
/// always `Token::EndOfFile`.
pub fn tokenize(source: Arc<SourceFile>) -> (result: CompileResult<Vec<(Token, FileRef)>>)
    ensures
        lex_view(result) == lex(source),
        match result {
            Ok(tokens) => tokens@.len() > 0 && tokens@.last().0 is EndOfFile,
            Err(errors) => errors@.len() > 0,
        },
{
    let chars = chars_of(source.text.as_str());
    let n = chars.len();
    let mut result: Vec<(Token, FileRef)> = Vec::new();
    let mut errors: Vec<FileTaggedError> = Vec::new();
    let mut line_index: u32 = 0;
    let mut begin_line_char_index: usize = 0;
    let mut idx: usize = 0;
    let ghost total = scan(source, 0, 0, 0);
    assert(tokens_view(result@) =~= Seq::empty());
    assert(errors_view(errors@) =~= Seq::empty());
    while idx < n
        invariant
            chars@ == source.text@,
            n == chars@.len(),
            idx <= n,
            begin_line_char_index <= idx,
            total == scan(source, 0, 0, 0),
            tokens_view(result@) + scan(
                source,
                idx as int,
                line_index,
                begin_line_char_index as int,
            ).tokens == total.tokens,
            errors_view(errors@) + scan(
                source,
                idx as int,
                line_index,
                begin_line_char_index as int,
            ).errors == total.errors,
            scan(source, idx as int, line_index, begin_line_char_index as int).lines
                == total.lines,
        decreases n - idx,
    {
        let c = chars[idx];
        let ghost here = scan(source, idx as int, line_index, begin_line_char_index as int);
        if c == '\n' {
            line_index = line_index.wrapping_add(1);
            begin_line_char_index = idx + 1;
        }
        if c.is_whitespace() {
            idx += 1;
        } else {
            let (token, end) = read_token(&chars, idx);
            let ghost rest = scan(source, end as int, line_index, begin_line_char_index as int);
            match token {
                Some(token) => {
                    let position = FileRef {
                        file: share_file(&source),
                        line_index,
                        begin_char_index: #[verifier::truncate]
                        ((idx - begin_line_char_index) as u32),
                        length: #[verifier::truncate]
                        ((end - idx) as u32),
                    };
                    proof {
                        assert(here.tokens == seq![(token@, position)] + rest.tokens);
                        assert(tokens_view(result@.push((token, position))) =~= tokens_view(
                            result@,
                        ).push((token@, position)));
                        assert(tokens_view(result@).push((token@, position)) + rest.tokens
                            =~= tokens_view(result@) + here.tokens);
                    }
                    result.push((token, position));
                },
                None => {
                    let error = FileTaggedError {
                        msg: "Invalid character".to_owned(),
                        position: Some(
                            FileRef {
                                line_index,
                                file: share_file(&source),
                                begin_char_index: #[verifier::truncate]
                                ((idx - begin_line_char_index) as u32),
                                length: 1,
                            },
                        ),
                    };
                    proof {
                        assert(here.errors == seq![error@] + rest.errors);
                        assert(errors_view(errors@.push(error)) =~= errors_view(errors@).push(
                            error@,
                        ));
                        assert(errors_view(errors@).push(error@) + rest.errors =~= errors_view(
                            errors@,
                        ) + here.errors);
                    }
                    errors.push(error);
                },
            }
            idx = end;
        }
    }
    assert(tokens_view(result@) =~= total.tokens);
    assert(errors_view(errors@) =~= total.errors);
    if errors.len() != 0 {
        Err(CompileErrors(errors))
    } else {
        let end_position = FileRef {
            file: source,
            line_index: line_index.wrapping_add(1),
            begin_char_index: 0,
            length: 5,
        };
        proof {
            assert(tokens_view(result@.push((Token::EndOfFile, end_position))) =~= tokens_view(
                result@,
            ).push((TokenView::EndOfFile, end_position)));
        }
        result.push((Token::EndOfFile, end_position));
        Ok(result)
    }
}

} // verus!
