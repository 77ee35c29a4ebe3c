//! The lexical grammar, as mathematics over the bytes of the source text.
//!
//! `scan_at` says what starts at a position: a token, something to skip, or
//! an error. `lex_from` strings these together from a position to the end of
//! the text, and `lex` does so from the beginning.

use crate::text::{char_at, lemma_char_step, line_at, next_pos};
use crate::token::{LexError, LiteralView, TokenType, TokenView};
use vstd::prelude::*;
use vstd::string::StringSliceAdditionalSpecFns;
use vstd::utf8::{is_char_boundary, is_continuation_byte, valid_utf8};

verus! {

/// An ASCII decimal digit.
pub open spec fn is_digit_byte(b: u8) -> bool {
    '0' as u8 <= b <= '9' as u8
}

/// An ASCII letter or an underscore: what an identifier may start with.
pub open spec fn is_alpha_byte(b: u8) -> bool {
    ('a' as u8 <= b <= 'z' as u8) || ('A' as u8 <= b <= 'Z' as u8) || b == '_' as u8
}

/// What an identifier may continue with.
pub open spec fn is_word_byte(b: u8) -> bool {
    is_alpha_byte(b) || is_digit_byte(b)
}

/// Space, tab, carriage return or newline.
pub open spec fn is_blank_byte(b: u8) -> bool {
    b == ' ' as u8 || b == '\t' as u8 || b == '\r' as u8 || b == '\n' as u8
}

/// The stretches of bytes that the grammar consumes greedily.
#[derive(Clone, Copy, Debug)]
pub enum Run {
    /// Decimal digits.
    Digits,
    /// Letters, digits and underscores.
    Word,
    /// Everything up to a newline.
    Comment,
    /// Everything up to a double quote.
    Quoted,
}

impl Run {
    /// Whether byte `b` continues a run of this sort.
    pub open spec fn admits(self, b: u8) -> bool {
        match self {
            Run::Digits => is_digit_byte(b),
            Run::Word => is_word_byte(b),
            Run::Comment => b != '\n' as u8,
            Run::Quoted => b != '"' as u8,
        }
    }

    /// Whether a run of this sort goes on over the character `c`: the same
    /// question as `admits`, asked of a character.
    pub open spec fn admits_char(self, c: char) -> bool {
        match self {
            Run::Digits => '0' <= c <= '9',
            Run::Word => ('a' <= c <= 'z') || ('A' <= c <= 'Z') || c == '_' || ('0' <= c <= '9'),
            Run::Comment => c != '\n',
            Run::Quoted => c != '"',
        }
    }
}

/// Where the longest run of the given sort that starts at `from` ends: the
/// first position at or after `from` that holds a byte the run does not
/// admit, or the end of the text.
pub open spec fn run_end(bytes: Seq<u8>, from: int, run: Run) -> int
    decreases bytes.len() - from,
{
    if 0 <= from < bytes.len() && run.admits(bytes[from]) {
        run_end(bytes, from + 1, run)
    } else {
        from
    }
}

/// Where the number that starts at `from` ends: after the digits, and after
/// a fraction too if a dot and at least one digit follow them.
pub open spec fn number_end(bytes: Seq<u8>, from: int) -> int {
    let whole = run_end(bytes, from, Run::Digits);
    if whole + 1 < bytes.len() && bytes[whole] == '.' as u8 && is_digit_byte(bytes[whole + 1]) {
        run_end(bytes, whole + 1, Run::Digits)
    } else {
        whole
    }
}

/// The kind of a single-character token that no lookahead can change.
pub open spec fn punctuation(b: u8) -> Option<TokenType> {
    if b == '(' as u8 {
        Some(TokenType::LeftParen)
    } else if b == ')' as u8 {
        Some(TokenType::RightParen)
    } else if b == '{' as u8 {
        Some(TokenType::LeftBrace)
    } else if b == '}' as u8 {
        Some(TokenType::RightBrace)
    } else if b == ',' as u8 {
        Some(TokenType::Comma)
    } else if b == '.' as u8 {
        Some(TokenType::Dot)
    } else if b == '-' as u8 {
        Some(TokenType::Minus)
    } else if b == '+' as u8 {
        Some(TokenType::Plus)
    } else if b == ';' as u8 {
        Some(TokenType::Semicolon)
    } else if b == '*' as u8 {
        Some(TokenType::Star)
    } else {
        None
    }
}

/// For a character that may be followed by `=`: the kind it has alone and
/// the kind it has together with the `=`.
pub open spec fn operator(b: u8) -> Option<(TokenType, TokenType)> {
    if b == '!' as u8 {
        Some((TokenType::Bang, TokenType::BangEqual))
    } else if b == '=' as u8 {
        Some((TokenType::Equal, TokenType::EqualEqual))
    } else if b == '<' as u8 {
        Some((TokenType::Less, TokenType::LessEqual))
    } else if b == '>' as u8 {
        Some((TokenType::Greater, TokenType::GreaterEqual))
    } else {
        None
    }
}

/// Whether the byte at `pos` exists and equals `b`.
pub open spec fn byte_is(bytes: Seq<u8>, pos: int, b: u8) -> bool {
    0 <= pos < bytes.len() && bytes[pos] == b
}

/// The kind of a whole word: the keyword it spells, or an identifier.
pub open spec fn word_kind(word: Seq<u8>) -> TokenType {
    if word == "and".spec_bytes() {
        TokenType::And
    } else if word == "class".spec_bytes() {
        TokenType::Class
    } else if word == "else".spec_bytes() {
        TokenType::Else
    } else if word == "false".spec_bytes() {
        TokenType::False
    } else if word == "fun".spec_bytes() {
        TokenType::Fun
    } else if word == "for".spec_bytes() {
        TokenType::For
    } else if word == "if".spec_bytes() {
        TokenType::If
    } else if word == "nil".spec_bytes() {
        TokenType::Nil
    } else if word == "or".spec_bytes() {
        TokenType::Or
    } else if word == "print".spec_bytes() {
        TokenType::Print
    } else if word == "return".spec_bytes() {
        TokenType::Return
    } else if word == "super".spec_bytes() {
        TokenType::Super
    } else if word == "this".spec_bytes() {
        TokenType::This
    } else if word == "true".spec_bytes() {
        TokenType::True
    } else if word == "var".spec_bytes() {
        TokenType::Var
    } else if word == "while".spec_bytes() {
        TokenType::While
    } else {
        TokenType::Identifier
    }
}

/// What starts at one position of the text.
pub enum Scan {
    /// A token of this kind, whose lexeme runs up to `end`.
    Token { kind: TokenType, end: int },
    /// Whitespace or a comment, which runs up to `end` and yields nothing.
    Skip { end: int },
    /// Nothing the grammar knows: the scan fails with this error.
    Fail { error: LexError },
}

/// What starts at byte `pos`, for `0 <= pos < bytes.len()`.
pub open spec fn scan_at(bytes: Seq<u8>, pos: int) -> Scan {
    let b = bytes[pos];
    if let Some(kind) = punctuation(b) {
        Scan::Token { kind, end: pos + 1 }
    } else if let Some((alone, paired)) = operator(b) {
        if byte_is(bytes, pos + 1, '=' as u8) {
            Scan::Token { kind: paired, end: pos + 2 }
        } else {
            Scan::Token { kind: alone, end: pos + 1 }
        }
    } else if b == '/' as u8 {
        if byte_is(bytes, pos + 1, '/' as u8) {
            Scan::Skip { end: run_end(bytes, pos + 2, Run::Comment) }
        } else {
            Scan::Token { kind: TokenType::Slash, end: pos + 1 }
        }
    } else if is_blank_byte(b) {
        Scan::Skip { end: pos + 1 }
    } else if b == '"' as u8 {
        let close = run_end(bytes, pos + 1, Run::Quoted);
        if close < bytes.len() {
            Scan::Token { kind: TokenType::String, end: close + 1 }
        } else {
            Scan::Fail {
                error: LexError::UnterminatedString { line: line_at(bytes, pos) as usize },
            }
        }
    } else if is_digit_byte(b) {
        Scan::Token { kind: TokenType::Number, end: number_end(bytes, pos) }
    } else if is_alpha_byte(b) {
        let end = run_end(bytes, pos, Run::Word);
        Scan::Token { kind: word_kind(bytes.subrange(pos, end)), end }
    } else {
        Scan::Fail {
            error: LexError::UnexpectedCharacter {
                char: char_at(bytes, pos),
                line: line_at(bytes, pos) as usize,
            },
        }
    }
}

/// The literal that a token of the given kind and lexeme carries: a number
/// carries its numeral, a string the text between its quotes, and no other
/// kind carries anything.
pub open spec fn literal_of(kind: TokenType, lexeme: Seq<u8>) -> Option<LiteralView> {
    match kind {
        TokenType::Number => Some(LiteralView::Number(lexeme)),
        TokenType::String => Some(LiteralView::Str(lexeme.subrange(1, lexeme.len() - 1))),
        _ => None,
    }
}

/// The token of the given kind whose lexeme is `bytes[start..end]`.
pub open spec fn token_at(bytes: Seq<u8>, kind: TokenType, start: int, end: int) -> TokenView {
    TokenView {
        kind,
        lexeme: bytes.subrange(start, end),
        literal: literal_of(kind, bytes.subrange(start, end)),
        line: line_at(bytes, start),
    }
}

/// The end-of-input marker: an empty lexeme on the last line of the text.
pub open spec fn eof_token(bytes: Seq<u8>) -> TokenView {
    TokenView {
        kind: TokenType::EOF,
        lexeme: Seq::empty(),
        literal: None,
        line: line_at(bytes, bytes.len() as int),
    }
}

/// A token put before what follows it: before the tokens of the rest of the
/// text, or before the error that the rest of the text ends in, which stays.
pub open spec fn preceded(token: TokenView, rest: Result<Seq<TokenView>, LexError>) -> Result<
    Seq<TokenView>,
    LexError,
> {
    match rest {
        Ok(rest) => Ok(seq![token] + rest),
        Err(error) => Err(error),
    }
}

/// The tokens of the text from byte `pos` to its end, closed by the
/// end-of-input marker; or the first error met on the way.
pub open spec fn lex_from(bytes: Seq<u8>, pos: int) -> Result<Seq<TokenView>, LexError>
    decreases bytes.len() - pos,
    via lex_from_terminates
{
    if !(0 <= pos < bytes.len()) {
        Ok(seq![eof_token(bytes)])
    } else {
        match scan_at(bytes, pos) {
            Scan::Token { kind, end } => preceded(
                token_at(bytes, kind, pos, end),
                lex_from(bytes, end),
            ),
            Scan::Skip { end } => lex_from(bytes, end),
            Scan::Fail { error } => Err(error),
        }
    }
}

#[via_fn]
proof fn lex_from_terminates(bytes: Seq<u8>, pos: int) {
    if 0 <= pos < bytes.len() {
        lemma_scan_advances(bytes, pos);
    }
}

/// The tokens of a whole text.
pub open spec fn lex(bytes: Seq<u8>) -> Result<Seq<TokenView>, LexError> {
    lex_from(bytes, 0)
}

/// A run ends at or after its start, inside the text; every byte of it is
/// admitted, and the byte at its end, if there is one, is not.
pub proof fn lemma_run_end(bytes: Seq<u8>, from: int, run: Run)
    requires
        0 <= from <= bytes.len(),
    ensures
        from <= run_end(bytes, from, run) <= bytes.len(),
        forall|i: int| from <= i < run_end(bytes, from, run) ==> run.admits(#[trigger] bytes[i]),
        run_end(bytes, from, run) < bytes.len() ==> !run.admits(
            bytes[run_end(bytes, from, run)],
        ),
    decreases bytes.len() - from,
{
    if from < bytes.len() && run.admits(bytes[from]) {
        lemma_run_end(bytes, from + 1, run);
    }
}

/// A run is the only stretch of admitted bytes from its start that cannot
/// be made longer.
pub proof fn lemma_run_end_unique(bytes: Seq<u8>, from: int, end: int, run: Run)
    requires
        0 <= from <= end <= bytes.len(),
        forall|i: int| from <= i < end ==> run.admits(#[trigger] bytes[i]),
        end < bytes.len() ==> !run.admits(bytes[end]),
    ensures
        run_end(bytes, from, run) == end,
    decreases end - from,
{
    if from < end {
        assert(run.admits(bytes[from]));
        lemma_run_end_unique(bytes, from + 1, end, run);
    }
}

/// A run that starts among admitted bytes ends where the run from after them
/// ends.
pub proof fn lemma_run_skip(bytes: Seq<u8>, from: int, to: int, run: Run)
    requires
        0 <= from <= to <= bytes.len(),
        forall|i: int| from <= i < to ==> run.admits(#[trigger] bytes[i]),
    ensures
        run_end(bytes, from, run) == run_end(bytes, to, run),
    decreases to - from,
{
    if from < to {
        assert(run.admits(bytes[from]));
        lemma_run_skip(bytes, from + 1, to, run);
    }
}

/// In UTF-8 text, a run goes on over a character exactly if it admits the
/// character's first byte, and then it admits all its bytes.
pub proof fn lemma_run_step(bytes: Seq<u8>, pos: int, run: Run)
    requires
        valid_utf8(bytes),
        is_char_boundary(bytes, pos),
        0 <= pos < bytes.len(),
    ensures
        run.admits_char(char_at(bytes, pos)) == run.admits(bytes[pos]),
        run.admits(bytes[pos]) ==> run_end(bytes, pos, run) == run_end(
            bytes,
            next_pos(bytes, pos),
            run,
        ),
{
    lemma_char_step(bytes, pos);
    if run.admits(bytes[pos]) {
        assert forall|i: int| pos <= i < next_pos(bytes, pos) implies run.admits(
            #[trigger] bytes[i],
        ) by {
            if i > pos {
                assert(is_continuation_byte(bytes[i]));
            }
        }
        lemma_run_skip(bytes, pos, next_pos(bytes, pos), run);
    }
}

/// A number ends after its first digit or later, inside the text.
pub proof fn lemma_number_end(bytes: Seq<u8>, from: int)
    requires
        0 <= from < bytes.len(),
        is_digit_byte(bytes[from]),
    ensures
        from < number_end(bytes, from) <= bytes.len(),
{
    lemma_run_end(bytes, from, Run::Digits);
    lemma_run_end(bytes, from + 1, Run::Digits);
    let whole = run_end(bytes, from, Run::Digits);
    if whole + 1 < bytes.len() {
        lemma_run_end(bytes, whole + 1, Run::Digits);
    }
}

/// Whatever starts at a position ends after it, inside the text.
pub proof fn lemma_scan_advances(bytes: Seq<u8>, pos: int)
    requires
        0 <= pos < bytes.len(),
    ensures
        match scan_at(bytes, pos) {
            Scan::Token { kind, end } => pos < end <= bytes.len(),
            Scan::Skip { end } => pos < end <= bytes.len(),
            Scan::Fail { error } => true,
        },
{
    let b = bytes[pos];
    if b == '/' as u8 && byte_is(bytes, pos + 1, '/' as u8) {
        lemma_run_end(bytes, pos + 2, Run::Comment);
    }
    if b == '"' as u8 {
        lemma_run_end(bytes, pos + 1, Run::Quoted);
    }
    if is_digit_byte(b) {
        lemma_number_end(bytes, pos);
    }
    if is_alpha_byte(b) {
        lemma_run_end(bytes, pos, Run::Word);
        lemma_run_end(bytes, pos + 1, Run::Word);
    }
}

} // verus!
