//! What holds of every text: laws of the grammar, proved once and for all.

use crate::grammar::{byte_is, eof_token, is_alpha_byte, is_digit_byte, lex, lex_from};
use crate::grammar::{lemma_run_end, lemma_run_end_unique, lemma_scan_advances};
use crate::grammar::{literal_of, number_end, operator, preceded, run_end, scan_at, token_at};
use crate::grammar::{Run, Scan};
use crate::scanner::is_scan_of;
use crate::text::{lemma_newlines_monotone, line_at};
use crate::token::{token_views, LexError, LiteralView, Token, TokenType, TokenView};
use vstd::prelude::*;

verus! {

/// Whether `word` is, from its first byte to its last, the lexeme of one
/// token of the given kind.
pub open spec fn is_lexeme(word: Seq<u8>, kind: TokenType) -> bool {
    word.len() > 0 && scan_at(word, 0) == (Scan::Token { kind, end: word.len() as int })
}

/// The words written one after another with a single space between
/// neighbours.
pub open spec fn spaced(words: Seq<Seq<u8>>) -> Seq<u8>
    decreases words.len(),
{
    if words.len() == 0 {
        Seq::empty()
    } else if words.len() == 1 {
        words[0]
    } else {
        words[0] + seq![' ' as u8] + spaced(words.drop_first())
    }
}

/// Where word `i` starts in `spaced(words)`.
pub open spec fn offset(words: Seq<Seq<u8>>, i: int) -> int
    decreases i,
{
    if i <= 0 || words.len() == 0 {
        0
    } else {
        words[0].len() + 1 + offset(words.drop_first(), i - 1)
    }
}

/// A run inside a word that is part of a text ends in the text where it
/// ends in the word, if it ends before the word does or if what follows the
/// word stops it.
proof fn lemma_run_embedded(text: Seq<u8>, pos: int, word: Seq<u8>, from: int, run: Run)
    requires
        0 <= pos,
        pos + word.len() <= text.len(),
        text.subrange(pos, pos + word.len()) == word,
        0 <= from <= word.len(),
        run_end(word, from, run) < word.len() || pos + word.len() == text.len() || !run.admits(
            text[pos + word.len()],
        ),
    ensures
        run_end(text, pos + from, run) == pos + run_end(word, from, run),
{
    let end = run_end(word, from, run);
    lemma_run_end(word, from, run);
    assert forall|i: int| pos + from <= i < pos + end implies run.admits(#[trigger] text[i]) by {
        assert(text[i] == word[i - pos]);
    }
    if end < word.len() {
        assert(text[pos + end] == word[end]);
    }
    lemma_run_end_unique(text, pos + from, pos + end, run);
}

/// What a word is in itself, it is inside a text too, as long as the text
/// ends after it or goes on with a space.
pub proof fn lemma_scan_embedded(text: Seq<u8>, pos: int, word: Seq<u8>, kind: TokenType)
    requires
        is_lexeme(word, kind),
        0 <= pos,
        pos + word.len() <= text.len(),
        text.subrange(pos, pos + word.len()) == word,
        pos + word.len() == text.len() || text[pos + word.len()] == ' ' as u8,
    ensures
        scan_at(text, pos) == (Scan::Token { kind, end: pos + word.len() }),
{
    let b = word[0];
    let len = word.len() as int;
    assert(text[pos] == b);
    assert forall|i: int| 0 <= i < len implies text[pos + i] == #[trigger] word[i] by {}
    if b == '"' as u8 {
        lemma_run_embedded(text, pos, word, 1, Run::Quoted);
    } else if is_digit_byte(b) {
        let whole = run_end(word, 0, Run::Digits);
        lemma_run_end(word, 0, Run::Digits);
        lemma_run_embedded(text, pos, word, 0, Run::Digits);
        if whole + 1 < len && word[whole] == '.' as u8 && is_digit_byte(word[whole + 1]) {
            assert(text[pos + whole] == word[whole]);
            assert(text[pos + whole + 1] == word[whole + 1]);
            lemma_run_embedded(text, pos, word, whole + 1, Run::Digits);
        } else {
            assert(whole == len);
        }
    } else if is_alpha_byte(b) {
        lemma_run_embedded(text, pos, word, 0, Run::Word);
        assert(word.subrange(0, len) =~= word);
    } else if operator(b) is Some {
        if len > 1 {
            assert(text[pos + 1] == word[1]);
        }
    }
}

/// The tokens of words that stand in a text from `pos` on, single spaces
/// between them, up to the end of the text.
proof fn lemma_spaced_from(text: Seq<u8>, pos: int, words: Seq<Seq<u8>>, kinds: Seq<TokenType>)
    requires
        0 <= pos <= text.len(),
        text.subrange(pos, text.len() as int) == spaced(words),
        kinds.len() == words.len(),
        forall|i: int| 0 <= i < words.len() ==> is_lexeme(#[trigger] words[i], kinds[i]),
    ensures
        lex_from(text, pos) matches Ok(tokens) && {
            &&& tokens.len() == words.len() + 1
            &&& tokens[words.len() as int] == eof_token(text)
            &&& forall|i: int|
                0 <= i < words.len() ==> #[trigger] tokens[i] == token_at(
                    text,
                    kinds[i],
                    pos + offset(words, i),
                    pos + offset(words, i) + words[i].len(),
                )
        },
    decreases words.len(),
{
    let len = text.len() as int;
    if words.len() == 0 {
        assert(text.subrange(pos, len).len() == 0);
    } else {
        let word = words[0];
        let kind = kinds[0];
        let end = pos + word.len();
        assert(is_lexeme(word, kind));
        let tail = words.drop_first();
        let tail_kinds = kinds.drop_first();
        assert forall|i: int| 0 <= i < tail.len() implies is_lexeme(
            #[trigger] tail[i],
            tail_kinds[i],
        ) by {
            assert(is_lexeme(words[i + 1], kinds[i + 1]));
        }
        let after = if words.len() == 1 {
            end
        } else {
            end + 1
        };
        if words.len() == 1 {
            assert(text.subrange(pos, len).len() == word.len());
            assert(text.subrange(pos, end) =~= word);
            assert(text.subrange(after, len) =~= spaced(tail));
        } else {
            let joined = word + seq![' ' as u8] + spaced(tail);
            assert(text.subrange(pos, len).len() == joined.len());
            assert(text.subrange(pos, end) =~= word) by {
                assert forall|i: int| 0 <= i < word.len() implies text.subrange(pos, end)[i]
                    == word[i] by {
                    assert(text.subrange(pos, len)[i] == joined[i]);
                }
            }
            assert(text[end] == ' ' as u8) by {
                assert(text.subrange(pos, len)[word.len() as int] == joined[word.len() as int]);
            }
            assert(text.subrange(after, len) =~= spaced(tail)) by {
                assert forall|i: int| 0 <= i < spaced(tail).len() implies text.subrange(
                    after,
                    len,
                )[i] == spaced(tail)[i] by {
                    assert(text.subrange(pos, len)[word.len() + 1 + i] == joined[word.len() + 1
                        + i]);
                }
            }
            assert(scan_at(text, end) == (Scan::Skip { end: end + 1 }));
        }
        lemma_scan_embedded(text, pos, word, kind);
        lemma_spaced_from(text, after, tail, tail_kinds);
        let rest = lex_from(text, after)->Ok_0;
        assert(lex_from(text, end) == Ok::<Seq<TokenView>, LexError>(rest));
        let first = token_at(text, kind, pos, end);
        let tokens = seq![first] + rest;
        assert(lex_from(text, pos) == Ok::<Seq<TokenView>, LexError>(tokens));
        assert forall|i: int| 0 <= i < words.len() implies #[trigger] tokens[i] == token_at(
            text,
            kinds[i],
            pos + offset(words, i),
            pos + offset(words, i) + words[i].len(),
        ) by {
            if i > 0 {
                assert(tokens[i] == rest[i - 1]);
                assert(tail[i - 1] == words[i]);
                assert(tail_kinds[i - 1] == kinds[i]);
                assert(after + offset(tail, i - 1) == pos + offset(words, i));
            }
        }
        assert(tokens[words.len() as int] == rest[tail.len() as int]);
    }
}

/// Tokens separated by single spaces come back as they went in: a text made
/// of the lexemes of tokens with one space between neighbours scans, without
/// error, to exactly those tokens in that order, each with its own lexeme,
/// and then the end-of-input marker.
pub proof fn law_spaced_tokens_come_back(words: Seq<Seq<u8>>, kinds: Seq<TokenType>)
    requires
        kinds.len() == words.len(),
        forall|i: int| 0 <= i < words.len() ==> is_lexeme(#[trigger] words[i], kinds[i]),
    ensures
        lex(spaced(words)) matches Ok(tokens) && {
            &&& tokens.len() == words.len() + 1
            &&& tokens[words.len() as int] == eof_token(spaced(words))
            &&& forall|i: int|
                0 <= i < words.len() ==> {
                    &&& (#[trigger] tokens[i]).kind == kinds[i]
                    &&& tokens[i].lexeme == words[i]
                    &&& tokens[i].literal == literal_of(kinds[i], words[i])
                    &&& tokens[i].line == line_at(spaced(words), offset(words, i))
                }
        },
{
    let text = spaced(words);
    assert(text.subrange(0, text.len() as int) =~= text);
    lemma_spaced_from(text, 0, words, kinds);
    let tokens = lex(text)->Ok_0;
    assert forall|i: int| 0 <= i < words.len() implies (#[trigger] tokens[i]).lexeme
        == words[i] by {
        lemma_word_in_spaced(words, i);
    }
}

/// Word `i` stands in `spaced(words)` at `offset(words, i)`.
proof fn lemma_word_in_spaced(words: Seq<Seq<u8>>, i: int)
    requires
        0 <= i < words.len(),
    ensures
        0 <= offset(words, i),
        offset(words, i) + words[i].len() <= spaced(words).len(),
        spaced(words).subrange(offset(words, i), offset(words, i) + words[i].len()) == words[i],
    decreases i,
{
    let text = spaced(words);
    if words.len() == 1 {
        assert(text.subrange(0, text.len() as int) =~= text);
    } else if i == 0 {
        assert(text.subrange(0, words[0].len() as int) =~= words[0]);
    } else {
        let tail = words.drop_first();
        lemma_word_in_spaced(tail, i - 1);
        assert(tail[i - 1] == words[i]);
        assert(text.subrange(offset(words, i), offset(words, i) + words[i].len()) =~= spaced(
            tail,
        ).subrange(offset(tail, i - 1), offset(tail, i - 1) + words[i].len()));
    }
}

/// Maximal munch: where `!`, `=`, `<` or `>` stands before a `=`, the two
/// are one token; where it stands before anything else, or last in the
/// text, it is a token by itself and the next token starts right after it.
pub proof fn law_maximal_munch(bytes: Seq<u8>, pos: int)
    requires
        0 <= pos < bytes.len(),
        operator(bytes[pos]) is Some,
    ensures
        ({
            let (alone, paired) = operator(bytes[pos])->0;
            if byte_is(bytes, pos + 1, '=' as u8) {
                lex_from(bytes, pos) == preceded(
                    token_at(bytes, paired, pos, pos + 2),
                    lex_from(bytes, pos + 2),
                )
            } else {
                lex_from(bytes, pos) == preceded(
                    token_at(bytes, alone, pos, pos + 1),
                    lex_from(bytes, pos + 1),
                )
            }
        }),
{
}

/// The shape of every scan that succeeds: the end-of-input marker comes
/// last and nowhere else, no other token is empty, no token is on a line
/// before the one the scan began on, and the tokens' lines never go down.
pub proof fn law_token_sequence_shape(bytes: Seq<u8>, pos: int)
    requires
        0 <= pos <= bytes.len(),
    ensures
        lex_from(bytes, pos) matches Ok(tokens) ==> {
            &&& tokens.len() >= 1
            &&& tokens.last() == eof_token(bytes)
            &&& forall|i: int|
                0 <= i < tokens.len() - 1 ==> (#[trigger] tokens[i]).kind != TokenType::EOF
                    && tokens[i].lexeme.len() > 0
            &&& forall|i: int|
                0 <= i < tokens.len() ==> line_at(bytes, pos) <= (#[trigger] tokens[i]).line
            &&& forall|i: int, j: int|
                0 <= i <= j < tokens.len() ==> (#[trigger] tokens[i]).line <= (
                #[trigger] tokens[j]).line
        },
    decreases bytes.len() - pos,
{
    if pos < bytes.len() {
        lemma_scan_advances(bytes, pos);
        match scan_at(bytes, pos) {
            Scan::Token { kind, end } => {
                law_token_sequence_shape(bytes, end);
                lemma_newlines_monotone(bytes, pos, end);
                lemma_kind_is_not_eof(bytes, pos);
                if lex_from(bytes, end) is Ok {
                    let rest = lex_from(bytes, end)->Ok_0;
                    let tokens = seq![token_at(bytes, kind, pos, end)] + rest;
                    assert(tokens.last() == rest.last());
                    assert forall|i: int| 0 < i < tokens.len() implies tokens[i] == rest[i
                        - 1] by {}
                    assert forall|i: int, j: int| 0 <= i <= j < tokens.len() implies (
                    #[trigger] tokens[i]).line <= (#[trigger] tokens[j]).line by {
                        if i > 0 {
                            assert(rest[i - 1].line <= rest[j - 1].line);
                        } else if j > 0 {
                            assert(line_at(bytes, end) <= rest[j - 1].line);
                        }
                    }
                }
            },
            Scan::Skip { end } => {
                law_token_sequence_shape(bytes, end);
                lemma_newlines_monotone(bytes, pos, end);
            },
            Scan::Fail { error } => {},
        }
    }
}

/// Where the tokens of the text from byte `pos` on start, in order.
pub open spec fn starts_from(bytes: Seq<u8>, pos: int) -> Seq<int>
    decreases bytes.len() - pos,
    via starts_from_terminates
{
    if !(0 <= pos < bytes.len()) {
        Seq::empty()
    } else {
        match scan_at(bytes, pos) {
            Scan::Token { kind, end } => seq![pos] + starts_from(bytes, end),
            Scan::Skip { end } => starts_from(bytes, end),
            Scan::Fail { error } => Seq::empty(),
        }
    }
}

#[via_fn]
proof fn starts_from_terminates(bytes: Seq<u8>, pos: int) {
    if 0 <= pos < bytes.len() {
        lemma_scan_advances(bytes, pos);
    }
}

/// The tokens are a left-to-right segmentation of the text: each token but
/// the end-of-input marker has a place in the text where its lexeme stands
/// and whose line is the token's line, and each such place begins at or
/// after the end of the one before.
pub proof fn law_tokens_in_source_order(bytes: Seq<u8>, pos: int)
    requires
        0 <= pos <= bytes.len(),
    ensures
        lex_from(bytes, pos) matches Ok(tokens) ==> {
            let starts = starts_from(bytes, pos);
            &&& starts.len() == tokens.len() - 1
            &&& forall|i: int|
                0 <= i < starts.len() ==> {
                    let start = #[trigger] starts[i];
                    let end = start + tokens[i].lexeme.len();
                    &&& pos <= start < end <= bytes.len()
                    &&& tokens[i].lexeme == bytes.subrange(start, end)
                    &&& tokens[i].line == line_at(bytes, start)
                    &&& i + 1 < starts.len() ==> end <= starts[i + 1]
                }
        },
    decreases bytes.len() - pos,
{
    if pos < bytes.len() {
        lemma_scan_advances(bytes, pos);
        match scan_at(bytes, pos) {
            Scan::Token { kind, end } => {
                law_tokens_in_source_order(bytes, end);
                if lex_from(bytes, end) is Ok {
                    let rest = lex_from(bytes, end)->Ok_0;
                    let tokens = seq![token_at(bytes, kind, pos, end)] + rest;
                    let later = starts_from(bytes, end);
                    let starts = seq![pos] + later;
                    assert forall|i: int| 0 <= i < starts.len() implies {
                        let start = #[trigger] starts[i];
                        let end = start + tokens[i].lexeme.len();
                        &&& pos <= start < end <= bytes.len()
                        &&& tokens[i].lexeme == bytes.subrange(start, end)
                        &&& tokens[i].line == line_at(bytes, start)
                        &&& i + 1 < starts.len() ==> end <= starts[i + 1]
                    } by {
                        if i > 0 {
                            assert(starts[i] == later[i - 1]);
                            assert(tokens[i] == rest[i - 1]);
                            if i + 1 < starts.len() {
                                assert(starts[i + 1] == later[i]);
                            }
                        } else if starts.len() > 1 {
                            assert(starts[1] == later[0]);
                        }
                    }
                }
            },
            Scan::Skip { end } => {
                law_tokens_in_source_order(bytes, end);
            },
            Scan::Fail { error } => {},
        }
    }
}

/// Whether `text` is a numeral whose first `whole` bytes are its integer
/// part: one or more digits, and after them either nothing or a dot and one
/// or more digits.
pub open spec fn is_numeral_split(text: Seq<u8>, whole: int) -> bool {
    &&& 1 <= whole <= text.len()
    &&& forall|i: int| 0 <= i < whole ==> is_digit_byte(#[trigger] text[i])
    &&& whole < text.len() ==> {
        &&& text[whole] == '.' as u8
        &&& whole + 1 < text.len()
        &&& forall|i: int| whole < i < text.len() ==> is_digit_byte(#[trigger] text[i])
    }
}

/// Whether `text` is a decimal numeral.
pub open spec fn is_numeral(text: Seq<u8>) -> bool {
    exists|whole: int| is_numeral_split(text, whole)
}

/// Numbers are valid by construction: the lexeme of every Number token, which
/// is also its literal, is a decimal numeral, and the text does not go on
/// with a digit after it.
pub proof fn law_number_is_a_numeral(bytes: Seq<u8>, pos: int)
    requires
        0 <= pos < bytes.len(),
        scan_at(bytes, pos) matches Scan::Token { kind, end } && kind == TokenType::Number,
    ensures
        ({
            let end = scan_at(bytes, pos)->Token_end;
            let token = token_at(bytes, TokenType::Number, pos, end);
            &&& is_numeral(token.lexeme)
            &&& token.literal == Some(LiteralView::Number(token.lexeme))
            &&& !(end < bytes.len() && is_digit_byte(bytes[end]))
        }),
{
    lemma_scan_advances(bytes, pos);
    if is_digit_byte(bytes[pos]) {
        let whole = run_end(bytes, pos, Run::Digits);
        let end = number_end(bytes, pos);
        let lexeme = bytes.subrange(pos, end);
        lemma_run_end(bytes, pos, Run::Digits);
        if whole + 1 < bytes.len() {
            lemma_run_end(bytes, whole + 1, Run::Digits);
        }
        assert forall|i: int| 0 <= i < whole - pos implies is_digit_byte(#[trigger] lexeme[i]) by {
            assert(Run::Digits.admits(bytes[pos + i]));
        }
        assert forall|i: int| whole - pos < i < lexeme.len() implies is_digit_byte(
            #[trigger] lexeme[i],
        ) by {
            assert(Run::Digits.admits(bytes[pos + i]));
        }
        assert(is_numeral_split(lexeme, whole - pos));
    }
}

/// The lexeme of every String token is a quote, text without a quote in it,
/// and a quote; the token's literal is that text.
pub proof fn law_string_is_quoted(bytes: Seq<u8>, pos: int)
    requires
        0 <= pos < bytes.len(),
        scan_at(bytes, pos) matches Scan::Token { kind, end } && kind == TokenType::String,
    ensures
        ({
            let end = scan_at(bytes, pos)->Token_end;
            let token = token_at(bytes, TokenType::String, pos, end);
            let last = token.lexeme.len() - 1;
            &&& last >= 1
            &&& token.lexeme[0] == '"' as u8
            &&& token.lexeme[last] == '"' as u8
            &&& forall|i: int| 0 < i < last ==> #[trigger] token.lexeme[i] != '"' as u8
            &&& token.literal == Some(LiteralView::Str(token.lexeme.subrange(1, last)))
        }),
{
    if bytes[pos] == '"' as u8 {
        let close = run_end(bytes, pos + 1, Run::Quoted);
        let lexeme = bytes.subrange(pos, close + 1);
        lemma_run_end(bytes, pos + 1, Run::Quoted);
        assert forall|i: int| 0 < i < lexeme.len() - 1 implies #[trigger] lexeme[i] != '"' as u8 by {
            assert(Run::Quoted.admits(bytes[pos + i]));
        }
    }
}

/// No position starts an end-of-input token.
proof fn lemma_kind_is_not_eof(bytes: Seq<u8>, pos: int)
    ensures
        scan_at(bytes, pos) matches Scan::Token { kind, end } ==> kind != TokenType::EOF,
{
}

/// Scanning is a function of the text: two scans of one text end alike,
/// both in the same error or both in token sequences that agree token by
/// token in kind, lexeme, literal and line.
pub proof fn law_rescan_is_identical<'a, 'b>(
    source: Seq<u8>,
    first: Result<Vec<Token<'a>>, LexError>,
    second: Result<Vec<Token<'b>>, LexError>,
)
    requires
        is_scan_of(source, first),
        is_scan_of(source, second),
    ensures
        match (first, second) {
            (Ok(a), Ok(b)) => token_views(a@) == token_views(b@),
            (Err(a), Err(b)) => a == b,
            _ => false,
        },
{
}

} // verus!
