//! The scanner: a cursor over the source text that emits tokens.

use crate::grammar::{eof_token, is_digit_byte, is_word_byte, lex, lex_from, number_end};
use crate::grammar::{lemma_run_end, lemma_run_skip, lemma_run_step, lemma_scan_advances};
use crate::grammar::{run_end, scan_at, token_at, word_kind, Run, Scan};
use crate::text::{char_at, line_at, next_pos, peek_at};
use crate::text::{lemma_boundary_in_prefix, lemma_char_step};
use crate::text::{lemma_newlines_bound, lemma_newlines_skip};
use crate::token::{token_views, LexError, Literal, Token, TokenType, TokenView};
use vstd::prelude::*;
use vstd::string::StringSliceAdditionalSpecFns;
use vstd::utf8::{char_u32_cast, encode_utf8_first_scalar, encode_utf8_valid_utf8};
use vstd::utf8::{is_char_boundary, is_char_boundary_start_end_of_seq, is_continuation_byte};
use vstd::utf8::valid_utf8;

verus! {

/// Scans a source text into tokens. It keeps two positions in the text, the
/// start of the lexeme being scanned and the cursor, both as byte offsets
/// that lie on character boundaries, and the tokens emitted so far.
pub struct Scanner<'a> {
    source: &'a str,
    start: usize,
    start_line: usize,
    current: usize,
    line: usize,
    tokens: Vec<Token<'a>>,
}

/// The state of a scanner as plain mathematical data.
pub struct ScannerView {
    /// The bytes of the source text.
    pub source: Seq<u8>,
    /// Where the lexeme being scanned starts.
    pub start: int,
    /// The cursor: where the next unconsumed character starts.
    pub current: int,
    /// The tokens emitted so far.
    pub tokens: Seq<TokenView>,
}

impl ScannerView {
    /// The text is UTF-8 and the two positions are character boundaries of
    /// it, the start not after the cursor.
    pub open spec fn wf(self) -> bool {
        &&& valid_utf8(self.source)
        &&& self.source.len() < usize::MAX
        &&& 0 <= self.start <= self.current <= self.source.len()
        &&& is_char_boundary(self.source, self.start)
        &&& is_char_boundary(self.source, self.current)
    }

    /// Whether the cursor has reached the end of the text.
    pub open spec fn at_end(self) -> bool {
        self.current >= self.source.len()
    }

    /// The bytes between the start and the cursor.
    pub open spec fn lexeme(self) -> Seq<u8> {
        self.source.subrange(self.start, self.current)
    }
}

impl<'a> View for Scanner<'a> {
    type V = ScannerView;

    closed spec fn view(&self) -> ScannerView {
        ScannerView {
            source: self.source.spec_bytes(),
            start: self.start as int,
            current: self.current as int,
            tokens: token_views(self.tokens@),
        }
    }
}

/// Whether `c` is an ASCII decimal digit.
pub fn is_digit(c: char) -> (yes: bool)
    ensures
        yes == ('0' <= c <= '9'),
{
    '0' <= c && c <= '9'
}

/// Whether `c` is an ASCII letter or an underscore.
pub fn is_alpha(c: char) -> (yes: bool)
    ensures
        yes == (('a' <= c <= 'z') || ('A' <= c <= 'Z') || c == '_'),
{
    ('a' <= c && c <= 'z') || ('A' <= c && c <= 'Z') || c == '_'
}

/// Whether `c` is an ASCII letter, an ASCII digit or an underscore.
pub fn is_alpha_numeric(c: char) -> (yes: bool)
    ensures
        yes == (('a' <= c <= 'z') || ('A' <= c <= 'Z') || c == '_' || ('0' <= c <= '9')),
{
    is_alpha(c) || is_digit(c)
}

/// Whether a run of the given sort goes on over the character `c`.
pub fn continues(run: Run, c: char) -> (yes: bool)
    ensures
        yes == run.admits_char(c),
{
    match run {
        Run::Digits => is_digit(c),
        Run::Word => is_alpha_numeric(c),
        Run::Comment => c != '\n',
        Run::Quoted => c != '"',
    }
}

/// Whether two texts are the same, byte for byte.
pub fn same_text(a: &str, b: &str) -> (same: bool)
    ensures
        same == (a.spec_bytes() == b.spec_bytes()),
{
    let left = a.as_bytes();
    let right = b.as_bytes();
    if left.len() != right.len() {
        return false;
    }
    let mut i: usize = 0;
    while i < left.len()
        invariant
            left@ == a.spec_bytes(),
            right@ == b.spec_bytes(),
            left@.len() == right@.len(),
            i <= left@.len(),
            forall|j: int| 0 <= j < i ==> left@[j] == right@[j],
        decreases left@.len() - i,
    {
        if left[i] != right[i] {
            return false;
        }
        i = i + 1;
    }
    proof {
        assert(left@ =~= right@);
    }
    true
}

/// The kind of a whole word: the keyword it spells, or an identifier.
pub fn keyword_or_identifier(word: &str) -> (kind: TokenType)
    ensures
        kind == word_kind(word.spec_bytes()),
{
    if same_text(word, "and") {
        TokenType::And
    } else if same_text(word, "class") {
        TokenType::Class
    } else if same_text(word, "else") {
        TokenType::Else
    } else if same_text(word, "false") {
        TokenType::False
    } else if same_text(word, "fun") {
        TokenType::Fun
    } else if same_text(word, "for") {
        TokenType::For
    } else if same_text(word, "if") {
        TokenType::If
    } else if same_text(word, "nil") {
        TokenType::Nil
    } else if same_text(word, "or") {
        TokenType::Or
    } else if same_text(word, "print") {
        TokenType::Print
    } else if same_text(word, "return") {
        TokenType::Return
    } else if same_text(word, "super") {
        TokenType::Super
    } else if same_text(word, "this") {
        TokenType::This
    } else if same_text(word, "true") {
        TokenType::True
    } else if same_text(word, "var") {
        TokenType::Var
    } else if same_text(word, "while") {
        TokenType::While
    } else {
        TokenType::Identifier
    }
}

/// What a scan of a whole text returns: the tokens that the grammar gives
/// the text, or the error that it gives it.
pub open spec fn is_scan_of<'a>(source: Seq<u8>, result: Result<Vec<Token<'a>>, LexError>) -> bool {
    match lex(source) {
        Ok(all) => result matches Ok(tokens) && token_views(tokens@) == all,
        Err(error) => result == Err::<Vec<Token<'a>>, LexError>(error),
    }
}

impl<'a> Scanner<'a> {
    /// The invariant of a scanner: its view is well formed and its two line
    /// counters agree with its two positions.
    pub closed spec fn wf(&self) -> bool {
        &&& self@.wf()
        &&& self.start_line == line_at(self@.source, self@.start)
        &&& self.line == line_at(self@.source, self@.current)
    }

    /// What `wf` says of the view.
    pub proof fn lemma_wf(&self)
        requires
            self.wf(),
        ensures
            self@.wf(),
    {
    }

    /// A scanner at the beginning of `source`, with no token emitted.
    pub fn new(source: &'a str) -> (scanner: Scanner<'a>)
        requires
            source.spec_bytes().len() < usize::MAX,
        ensures
            scanner.wf(),
            scanner@ == (ScannerView {
                source: source.spec_bytes(),
                start: 0,
                current: 0,
                tokens: Seq::empty(),
            }),
    {
        let scanner = Scanner {
            source,
            start: 0,
            start_line: 1,
            current: 0,
            line: 1,
            tokens: Vec::new(),
        };
        proof {
            encode_utf8_valid_utf8(source@);
            is_char_boundary_start_end_of_seq(source.spec_bytes());
            assert(scanner@.tokens =~= Seq::empty());
        }
        scanner
    }

    /// Whether the cursor has reached the end of the text.
    pub fn is_at_end(&self) -> (at_end: bool)
        ensures
            at_end == self@.at_end(),
    {
        self.current >= self.source.as_bytes().len()
    }

    /// The character that starts at byte `at`, or NUL at the end of the
    /// text.
    fn char_from(&self, at: usize) -> (c: char)
        requires
            self.wf(),
            at <= self@.source.len(),
            is_char_boundary(self@.source, at as int),
        ensures
            c == peek_at(self@.source, at as int),
    {
        let bytes = self.source.as_bytes();
        if at >= bytes.len() {
            return '\0';
        }
        proof {
            lemma_char_step(bytes@, at as int);
        }
        let first = bytes[at];
        if first < 0x80 {
            let c = first as char;
            proof {
                char_u32_cast(char_at(bytes@, at as int), first as u32);
            }
            c
        } else {
            let (_, rest) = self.source.split_at(at);
            let mut chars = rest.chars();
            proof {
                assert(rest.spec_bytes().len() > 0);
                assert(rest@.len() > 0);
                encode_utf8_first_scalar(rest@);
                char_u32_cast(rest@[0], rest@[0] as u32);
            }
            match chars.next() {
                Some(c) => c,
                None => '\0',
            }
        }
    }

    /// The next unconsumed character, or NUL at the end of the text. The
    /// scanner does not move.
    pub fn peek(&self) -> (c: char)
        requires
            self.wf(),
        ensures
            c == peek_at(self@.source, self@.current),
    {
        self.char_from(self.current)
    }

    /// The character after the next one, or NUL where the text ends before
    /// it. The scanner does not move.
    pub fn peek_next(&self) -> (c: char)
        requires
            self.wf(),
        ensures
            c == peek_at(self@.source, next_pos(self@.source, self@.current)),
    {
        let after = self.position_after();
        self.char_from(after)
    }

    /// The position just after the next character; the cursor itself at the
    /// end of the text.
    fn position_after(&self) -> (after: usize)
        requires
            self.wf(),
        ensures
            after == next_pos(self@.source, self@.current),
            self@.current <= after <= self@.source.len(),
            is_char_boundary(self@.source, after as int),
            !self@.at_end() ==> self@.current < after,
    {
        let bytes = self.source.as_bytes();
        if self.current >= bytes.len() {
            return self.current;
        }
        proof {
            lemma_char_step(bytes@, self.current as int);
        }
        let first = bytes[self.current];
        let width: usize = if first < 0x80 {
            1
        } else if first < 0xe0 {
            2
        } else if first < 0xf0 {
            3
        } else {
            4
        };
        self.current + width
    }

    /// Consumes the next character and returns it; at the end of the text
    /// there is none, and the scanner stays as it is.
    pub fn advance(&mut self) -> (next: Option<char>)
        requires
            old(self).wf(),
        ensures
            final(self).wf(),
            final(self)@ == (ScannerView {
                current: next_pos(old(self)@.source, old(self)@.current),
                ..old(self)@
            }),
            next == if old(self)@.at_end() {
                None
            } else {
                Some(char_at(old(self)@.source, old(self)@.current))
            },
    {
        if self.is_at_end() {
            return None;
        }
        let c = self.peek();
        let after = self.position_after();
        proof {
            let bytes = self@.source;
            let at = self.current as int;
            lemma_char_step(bytes, at);
            lemma_newlines_bound(bytes, at);
            if bytes[at] < 0x80 {
                assert(c as u32 == bytes[at]);
            } else {
                assert forall|i: int| at <= i < after implies bytes[i] != '\n' as u8 by {
                    if i > at {
                        assert(is_continuation_byte(bytes[i]));
                    }
                }
                lemma_newlines_skip(bytes, at, after as int);
            }
        }
        if c == '\n' {
            self.line = self.line + 1;
        }
        self.current = after;
        Some(c)
    }

    /// Consumes the next character if it is `expected`, and says whether it
    /// did.
    pub fn compare_next(&mut self, expected: char) -> (matched: bool)
        requires
            old(self).wf(),
        ensures
            final(self).wf(),
            matched == (!old(self)@.at_end() && char_at(old(self)@.source, old(self)@.current)
                == expected),
            final(self)@ == if matched {
                ScannerView {
                    current: next_pos(old(self)@.source, old(self)@.current),
                    ..old(self)@
                }
            } else {
                old(self)@
            },
    {
        if self.is_at_end() {
            return false;
        }
        if self.peek() != expected {
            return false;
        }
        self.advance();
        true
    }

    /// The text between byte offsets `from` and `to`.
    fn slice(&self, from: usize, to: usize) -> (text: &'a str)
        requires
            self.wf(),
            from <= to <= self@.source.len(),
            is_char_boundary(self@.source, from as int),
            is_char_boundary(self@.source, to as int),
        ensures
            text.spec_bytes() == self@.source.subrange(from as int, to as int),
    {
        proof {
            lemma_boundary_in_prefix(self@.source, from as int, to as int);
        }
        let (head, _) = self.source.split_at(to);
        let (_, text) = head.split_at(from);
        proof {
            assert(text.spec_bytes() =~= self@.source.subrange(from as int, to as int));
        }
        text
    }

    /// The text of the lexeme being scanned: from the start to the cursor.
    pub fn pick_lexeme(&self) -> (lexeme: &'a str)
        requires
            self.wf(),
        ensures
            lexeme.spec_bytes() == self@.lexeme(),
    {
        self.slice(self.start, self.current)
    }

    /// Emits a token of the given kind with the given literal. Its lexeme is
    /// the text from the start to the cursor and its line is the line of the
    /// start.
    pub fn add_token(&mut self, kind: TokenType, literal: Option<Literal<'a>>)
        requires
            old(self).wf(),
        ensures
            final(self).wf(),
            final(self)@ == (ScannerView {
                tokens: old(self)@.tokens.push(
                    TokenView {
                        kind,
                        lexeme: old(self)@.lexeme(),
                        literal: match literal {
                            Some(literal) => Some(literal@),
                            None => None,
                        },
                        line: line_at(old(self)@.source, old(self)@.start),
                    },
                ),
                ..old(self)@
            }),
    {
        let lexeme = self.pick_lexeme();
        let token = Token { kind, lexeme, literal, line: self.start_line };
        let ghost before = self.tokens@;
        self.tokens.push(token);
        proof {
            assert(token_views(self.tokens@) =~= token_views(before).push(token@));
        }
    }

    /// Consumes the longest run of the given sort that starts at the cursor.
    pub fn consume_run(&mut self, run: Run)
        requires
            old(self).wf(),
        ensures
            final(self).wf(),
            final(self)@ == (ScannerView {
                current: run_end(old(self)@.source, old(self)@.current, run),
                ..old(self)@
            }),
    {
        let ghost before = self@;
        while !self.is_at_end() && continues(run, self.peek())
            invariant
                self.wf(),
                self@ == (ScannerView { current: self@.current, ..before }),
                before.current <= self@.current,
                run_end(before.source, self@.current, run) == run_end(
                    before.source,
                    before.current,
                    run,
                ),
            decreases self@.source.len() - self@.current,
        {
            proof {
                lemma_run_step(self@.source, self@.current, run);
                lemma_char_step(self@.source, self@.current);
            }
            self.advance();
        }
        proof {
            if !self@.at_end() {
                lemma_run_step(self@.source, self@.current, run);
            }
        }
    }

    /// Scans the rest of a number whose first digits have been consumed: more
    /// digits, then a fraction if a dot and a digit follow. Emits the Number
    /// token, with the numeral as its literal.
    pub fn number(&mut self)
        requires
            old(self).wf(),
            old(self)@.start < old(self)@.current,
            forall|i: int|
                old(self)@.start <= i < old(self)@.current ==> is_digit_byte(
                    #[trigger] old(self)@.source[i],
                ),
        ensures
            final(self).wf(),
            final(self)@ == (ScannerView {
                current: number_end(old(self)@.source, old(self)@.start),
                tokens: old(self)@.tokens.push(
                    token_at(
                        old(self)@.source,
                        TokenType::Number,
                        old(self)@.start,
                        number_end(old(self)@.source, old(self)@.start),
                    ),
                ),
                ..old(self)@
            }),
    {
        proof {
            lemma_run_skip(self@.source, self@.start, self@.current, Run::Digits);
        }
        self.consume_run(Run::Digits);
        proof {
            let whole = self@.current;
            if whole < self@.source.len() {
                lemma_char_step(self@.source, whole);
                if whole + 1 < self@.source.len() && self@.source[whole] == '.' as u8 {
                    lemma_char_step(self@.source, whole + 1);
                }
            }
        }
        if self.peek() == '.' && is_digit(self.peek_next()) {
            self.advance();
            self.consume_run(Run::Digits);
        }
        let numeral = self.pick_lexeme();
        self.add_token(TokenType::Number, Some(Literal::Number(numeral)));
    }

    /// Scans the rest of a string whose opening quote has been consumed, up
    /// to and including the closing quote, and emits the String token, with
    /// the text between the quotes as its literal. A string that the text
    /// ends before closing is an error at the line of the opening quote.
    pub fn string(&mut self) -> (result: Result<(), LexError>)
        requires
            old(self).wf(),
            old(self)@.current == old(self)@.start + 1,
            old(self)@.source[old(self)@.start] == '"' as u8,
        ensures
            final(self).wf(),
            ({
                let source = old(self)@.source;
                let start = old(self)@.start;
                let close = run_end(source, start + 1, Run::Quoted);
                if close < source.len() {
                    &&& result is Ok
                    &&& final(self)@ == (ScannerView {
                        current: close + 1,
                        tokens: old(self)@.tokens.push(
                            token_at(source, TokenType::String, start, close + 1),
                        ),
                        ..old(self)@
                    })
                } else {
                    &&& result == Err::<(), LexError>(
                        LexError::UnterminatedString { line: line_at(source, start) as usize },
                    )
                    &&& final(self)@ == (ScannerView { current: close, ..old(self)@ })
                }
            }),
    {
        self.consume_run(Run::Quoted);
        if self.is_at_end() {
            return Err(LexError::UnterminatedString { line: self.start_line });
        }
        proof {
            lemma_char_step(self@.source, self@.start);
            lemma_char_step(self@.source, self@.current);
            lemma_run_end(self@.source, self@.start + 1, Run::Quoted);
        }
        let close = self.current;
        self.advance();
        let content = self.slice(self.start + 1, close);
        proof {
            assert(content.spec_bytes() =~= self@.lexeme().subrange(1, self@.lexeme().len() - 1));
        }
        self.add_token(TokenType::String, Some(Literal::Str(content)));
        Ok(())
    }

    /// Scans the rest of a word whose first characters have been consumed,
    /// and emits its token: a keyword if the whole word spells one, an
    /// Identifier otherwise.
    pub fn identifier(&mut self)
        requires
            old(self).wf(),
            old(self)@.start < old(self)@.current,
            forall|i: int|
                old(self)@.start <= i < old(self)@.current ==> is_word_byte(
                    #[trigger] old(self)@.source[i],
                ),
        ensures
            final(self).wf(),
            ({
                let source = old(self)@.source;
                let start = old(self)@.start;
                let end = run_end(source, start, Run::Word);
                final(self)@ == (ScannerView {
                    current: end,
                    tokens: old(self)@.tokens.push(
                        token_at(source, word_kind(source.subrange(start, end)), start, end),
                    ),
                    ..old(self)@
                })
            }),
    {
        proof {
            lemma_run_skip(self@.source, self@.start, self@.current, Run::Word);
        }
        self.consume_run(Run::Word);
        let word = self.pick_lexeme();
        let kind = keyword_or_identifier(word);
        proof {
            lemma_word_kind_has_no_literal(word.spec_bytes());
        }
        self.add_token(kind, None);
    }

    /// Scans what starts at the cursor, where a lexeme begins: emits one
    /// token, or skips whitespace or a comment, or fails.
    pub fn scan_token(&mut self) -> (result: Result<(), LexError>)
        requires
            old(self).wf(),
            old(self)@.start == old(self)@.current,
            !old(self)@.at_end(),
        ensures
            final(self).wf(),
            final(self)@.source == old(self)@.source,
            final(self)@.start == old(self)@.start,
            match scan_at(old(self)@.source, old(self)@.current) {
                Scan::Token { kind, end } => {
                    &&& result is Ok
                    &&& final(self)@.current == end
                    &&& final(self)@.tokens == old(self)@.tokens.push(
                        token_at(old(self)@.source, kind, old(self)@.start, end),
                    )
                },
                Scan::Skip { end } => {
                    &&& result is Ok
                    &&& final(self)@.current == end
                    &&& final(self)@.tokens == old(self)@.tokens
                },
                Scan::Fail { error } => {
                    &&& result == Err::<(), LexError>(error)
                    &&& final(self)@.tokens == old(self)@.tokens
                },
            },
    {
        proof {
            lemma_char_step(self@.source, self@.current);
            if self@.current + 1 < self@.source.len() && self@.source[self@.current] < 0x80 {
                lemma_char_step(self@.source, self@.current + 1);
            }
        }
        let c = match self.advance() {
            Some(c) => c,
            // The cursor is before the end, so there is a character.
            None => {
                return Ok(());
            },
        };
        match c {
            '(' => self.add_token(TokenType::LeftParen, None),
            ')' => self.add_token(TokenType::RightParen, None),
            '{' => self.add_token(TokenType::LeftBrace, None),
            '}' => self.add_token(TokenType::RightBrace, None),
            ',' => self.add_token(TokenType::Comma, None),
            '.' => self.add_token(TokenType::Dot, None),
            '-' => self.add_token(TokenType::Minus, None),
            '+' => self.add_token(TokenType::Plus, None),
            ';' => self.add_token(TokenType::Semicolon, None),
            '*' => self.add_token(TokenType::Star, None),
            '!' => {
                let kind = if self.compare_next('=') {
                    TokenType::BangEqual
                } else {
                    TokenType::Bang
                };
                self.add_token(kind, None)
            },
            '=' => {
                let kind = if self.compare_next('=') {
                    TokenType::EqualEqual
                } else {
                    TokenType::Equal
                };
                self.add_token(kind, None)
            },
            '<' => {
                let kind = if self.compare_next('=') {
                    TokenType::LessEqual
                } else {
                    TokenType::Less
                };
                self.add_token(kind, None)
            },
            '>' => {
                let kind = if self.compare_next('=') {
                    TokenType::GreaterEqual
                } else {
                    TokenType::Greater
                };
                self.add_token(kind, None)
            },
            '/' => {
                if self.compare_next('/') {
                    // A comment runs to the end of the line; the newline is
                    // left for the next step, which counts it.
                    self.consume_run(Run::Comment)
                } else {
                    self.add_token(TokenType::Slash, None)
                }
            },
            ' ' | '\r' | '\t' | '\n' => {},
            '"' => {
                return self.string();
            },
            _ => {
                if is_digit(c) {
                    self.number()
                } else if is_alpha(c) {
                    self.identifier()
                } else {
                    return Err(LexError::UnexpectedCharacter { char: c, line: self.start_line });
                }
            },
        }
        Ok(())
    }

    /// Scans the rest of the text, from the cursor on. The result is every
    /// token emitted so far followed by the tokens of the rest of the text
    /// and the end-of-input marker; or the first lexical error in the rest
    /// of the text.
    pub fn scan_tokens(self) -> (result: Result<Vec<Token<'a>>, LexError>)
        requires
            self.wf(),
        ensures
            match lex_from(self@.source, self@.current) {
                Ok(rest) => result matches Ok(tokens) && token_views(tokens@) == self@.tokens
                    + rest,
                Err(error) => result == Err::<Vec<Token<'a>>, LexError>(error),
            },
            self@.current == 0 && self@.tokens.len() == 0 ==> is_scan_of(self@.source, result),
    {
        proof {
            if self@.tokens.len() == 0 && lex_from(self@.source, self@.current) is Ok {
                let rest = lex_from(self@.source, self@.current)->Ok_0;
                assert(self@.tokens + rest =~= rest);
            }
        }
        let mut scanner = self;
        while !scanner.is_at_end()
            invariant
                scanner.wf(),
                scanner@.source == self@.source,
                self@.current <= scanner@.current,
                match lex_from(self@.source, self@.current) {
                    Ok(rest) => lex_from(scanner@.source, scanner@.current) matches Ok(left)
                        && self@.tokens + rest == scanner@.tokens + left,
                    Err(error) => lex_from(scanner@.source, scanner@.current) == Err::<
                        Seq<TokenView>,
                        LexError,
                    >(error),
                },
            decreases scanner@.source.len() - scanner@.current,
        {
            scanner.start = scanner.current;
            scanner.start_line = scanner.line;
            proof {
                lemma_scan_advances(scanner@.source, scanner@.current);
            }
            let ghost before = scanner@;
            match scanner.scan_token() {
                Ok(()) => {},
                Err(error) => {
                    return Err(error);
                },
            }
            proof {
                match scan_at(before.source, before.current) {
                    Scan::Token { kind, end } => {
                        let token = token_at(before.source, kind, before.current, end);
                        let left = lex_from(before.source, end)->Ok_0;
                        assert(before.tokens + (seq![token] + left) =~= before.tokens.push(token)
                            + left);
                    },
                    _ => {},
                }
            }
        }
        scanner.start = scanner.current;
        scanner.start_line = scanner.line;
        let ghost before = scanner@;
        scanner.add_token(TokenType::EOF, None);
        proof {
            assert(before.lexeme() =~= Seq::<u8>::empty());
            assert(before.tokens + seq![eof_token(before.source)] =~= before.tokens.push(
                eof_token(before.source),
            ));
        }
        Ok(scanner.tokens)
    }
}

/// No word is a Number or a String, so no word carries a literal.
proof fn lemma_word_kind_has_no_literal(word: Seq<u8>)
    ensures
        word_kind(word) != TokenType::Number,
        word_kind(word) != TokenType::String,
{
}

} // verus!
