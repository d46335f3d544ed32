//! A hand-written lexer that turns UTF-8 source bytes into tokens.
//!
//! The lexer is a state machine. Comments that run to the end of the line and
//! non-greedy triple-dashed raw strings are handled here, so that the parser
//! only ever sees clean tokens.
use vstd::prelude::*;

use crate::error::{Error, LexCause};
use vstd::utf8::{decode_first_scalar, valid_first_scalar};

verus! {

pub const SPACE: u8 = 0x20;
pub const NEWLINE: u8 = 0x0a;
pub const TAB: u8 = 0x09;
pub const CARRIAGE_RETURN: u8 = 0x0d;
pub const QUOTE: u8 = 0x22;
pub const HASH: u8 = 0x23;
pub const BACKSLASH: u8 = 0x5c;
pub const SLASH: u8 = 0x2f;
pub const DASH: u8 = 0x2d;
pub const UNDERSCORE: u8 = 0x5f;
pub const PERIOD: u8 = 0x2e;
pub const COMMA: u8 = 0x2c;
pub const EQUALS: u8 = 0x3d;
pub const HAT: u8 = 0x5e;
pub const PLUS: u8 = 0x2b;
pub const STAR: u8 = 0x2a;
pub const TILDE: u8 = 0x7e;
pub const LPAREN: u8 = 0x28;
pub const RPAREN: u8 = 0x29;
pub const LBRACE: u8 = 0x7b;
pub const RBRACE: u8 = 0x7d;
pub const LETTER_E: u8 = 0x65;
pub const LETTER_M: u8 = 0x6d;
pub const LETTER_P: u8 = 0x70;
pub const LETTER_T: u8 = 0x74;
pub const LETTER_H: u8 = 0x68;
pub const LETTER_W: u8 = 0x77;

/// The kind of a token. A token's text is never copied: it is given by the
/// byte range that comes with it.
#[derive(Clone, Copy, Debug, PartialEq, Eq, Structural)]
pub enum Token {
    String,
    RawString,
    Color,
    Number,
    Ident,
    KwAt,
    KwFunction,
    KwImport,
    KwPut,
    KwReturn,
    UnitEm,
    UnitH,
    UnitW,
    UnitPt,
    Comma,
    Dot,
    Equals,
    Hat,
    Minus,
    Plus,
    Slash,
    Star,
    Tilde,
    LParen,
    RParen,
    LBrace,
    RBrace,
}

/// A token with its half-open byte range: `(start, token, past_end)`.
pub type Span = (usize, Token, usize);

/// The states of the lexer.
#[derive(Clone, Copy, Debug, PartialEq, Eq, Structural)]
pub enum State {
    Base,
    Done,
    InColor,
    InComment,
    InIdent,
    InNumber,
    InRawString,
    InString,
    Space,
}

pub open spec fn alphabetic(b: u8) -> bool {
    (0x61 <= b && b <= 0x7a) || (0x41 <= b && b <= 0x5a)
}

pub open spec fn alphabetic_or_underscore(b: u8) -> bool {
    alphabetic(b) || b == UNDERSCORE
}

pub open spec fn digit(b: u8) -> bool {
    0x30 <= b && b <= 0x39
}

pub open spec fn alphanumeric_or_underscore(b: u8) -> bool {
    alphabetic_or_underscore(b) || digit(b)
}

pub open spec fn hexadecimal(b: u8) -> bool {
    digit(b) || (0x61 <= b && b <= 0x66) || (0x41 <= b && b <= 0x46)
}

/// Whether `expected` occurs in `input` at index `at`.
pub open spec fn has_at(input: Seq<u8>, at: int, expected: Seq<u8>) -> bool {
    0 <= at && at + expected.len() <= input.len() && input.subrange(at, at + expected.len())
        == expected
}

/// The token that a punctuation byte stands for on its own.
pub open spec fn punctuation(b: u8) -> Option<Token> {
    if b == COMMA {
        Some(Token::Comma)
    } else if b == PERIOD {
        Some(Token::Dot)
    } else if b == EQUALS {
        Some(Token::Equals)
    } else if b == HAT {
        Some(Token::Hat)
    } else if b == DASH {
        Some(Token::Minus)
    } else if b == PLUS {
        Some(Token::Plus)
    } else if b == SLASH {
        Some(Token::Slash)
    } else if b == STAR {
        Some(Token::Star)
    } else if b == TILDE {
        Some(Token::Tilde)
    } else if b == LPAREN {
        Some(Token::LParen)
    } else if b == RPAREN {
        Some(Token::RParen)
    } else if b == LBRACE {
        Some(Token::LBrace)
    } else if b == RBRACE {
        Some(Token::RBrace)
    } else {
        None
    }
}

/// The first index at or after `i` that does not continue an identifier.
pub open spec fn ident_end(input: Seq<u8>, i: int) -> int
    decreases input.len() - i,
{
    if 0 <= i < input.len() && alphanumeric_or_underscore(input[i]) {
        ident_end(input, i + 1)
    } else {
        i
    }
}

/// The first index at or after `i` that is neither a digit nor the first
/// decimal point of a number.
pub open spec fn number_end(input: Seq<u8>, i: int, period_seen: bool) -> int
    decreases input.len() - i,
{
    if 0 <= i < input.len() && (digit(input[i]) || (input[i] == PERIOD && !period_seen)) {
        number_end(input, i + 1, period_seen || input[i] == PERIOD)
    } else {
        i
    }
}

/// The index of the quote that closes a string whose content starts at `i`,
/// skipping every byte that follows a backslash; the input's length when no
/// quote closes it.
pub open spec fn string_end(input: Seq<u8>, i: int) -> int
    decreases input.len() - i,
{
    if i < 0 || i >= input.len() {
        input.len() as int
    } else if input[i] == BACKSLASH {
        if i + 1 < input.len() {
            string_end(input, i + 2)
        } else {
            input.len() as int
        }
    } else if input[i] == QUOTE {
        i
    } else {
        string_end(input, i + 1)
    }
}

/// The index of the first `---` at or after `i`; the input's length when
/// there is none.
pub open spec fn raw_end(input: Seq<u8>, i: int) -> int
    decreases input.len() - i,
{
    if i < 0 || i + 3 > input.len() {
        input.len() as int
    } else if has_at(input, i, seq![DASH, DASH, DASH]) {
        i
    } else {
        raw_end(input, i + 1)
    }
}

/// The index of the first newline at or after `i`, or `i` when it lies past
/// the input.
pub open spec fn line_end(input: Seq<u8>, i: int) -> int
    decreases input.len() - i,
{
    if 0 <= i < input.len() && input[i] != NEWLINE {
        line_end(input, i + 1)
    } else {
        i
    }
}

/// The first index at or after `i` that holds neither a space nor a newline.
pub open spec fn space_end(input: Seq<u8>, i: int) -> int
    decreases input.len() - i,
{
    if 0 <= i < input.len() && (input[i] == SPACE || input[i] == NEWLINE) {
        space_end(input, i + 1)
    } else {
        i
    }
}

/// The first index in `[i, lim)` that holds no hexadecimal digit, or `lim`.
pub open spec fn hex_end(input: Seq<u8>, i: int, lim: int) -> int
    decreases lim - i,
{
    if 0 <= i < lim && i < input.len() && hexadecimal(input[i]) {
        hex_end(input, i + 1, lim)
    } else {
        i
    }
}

/// The cause reported for a byte that may not stand where it stands.
pub open spec fn cause_of(b: u8) -> LexCause {
    if b == TAB {
        LexCause::Tab
    } else if b == CARRIAGE_RETURN {
        LexCause::CarriageReturn
    } else if b < 0x20 || b == 0x7f {
        LexCause::ControlCharacter(b)
    } else if b < 0x7f {
        LexCause::UnexpectedCharacter(b)
    } else {
        LexCause::NonAsciiByte(b)
    }
}

/// A lexical error over `[start, end)`.
pub open spec fn parse_error(start: int, end: int, cause: LexCause) -> Error {
    Error::Parse { start: start as usize, end: end as usize, cause }
}

/// The cause reported for the unexpected byte at `at`. A non-ASCII byte that
/// starts a UTF-8 character is reported as that character.
#[verifier::opaque]
pub open spec fn byte_cause(input: Seq<u8>, at: int) -> LexCause {
    let rest = input.subrange(at, input.len() as int);
    if input[at] >= 0x80 && valid_first_scalar(rest) {
        LexCause::NonAsciiCharacter(decode_first_scalar(rest))
    } else {
        cause_of(input[at])
    }
}

/// The error for the unexpected byte at `at`.
pub open spec fn unexpected_byte(input: Seq<u8>, at: int) -> Error {
    parse_error(at, at + 1, byte_cause(input, at))
}

/// The error for a byte at `at` that may start a byte order mark.
pub open spec fn encoding_error(input: Seq<u8>, at: int) -> Error {
    if has_at(input, at, seq![0xefu8, 0xbbu8, 0xbfu8]) {
        parse_error(at, at + 3, LexCause::Utf8ByteOrderMark)
    } else if has_at(input, at, seq![0xfeu8, 0xffu8]) || has_at(input, at, seq![0xffu8, 0xfeu8]) {
        parse_error(at, at + 2, LexCause::Utf16ByteOrderMark)
    } else if has_at(input, at, seq![0u8, 0u8, 0xfeu8, 0xffu8]) || has_at(
        input,
        at,
        seq![0xffu8, 0xfeu8, 0u8, 0u8],
    ) {
        parse_error(at, at + 4, LexCause::Utf32ByteOrderMark)
    } else {
        unexpected_byte(input, at)
    }
}

/// Orders the states at a byte for termination: the base state hands a
/// space or newline to the whitespace state, which consumes it, and hands
/// other bytes to a literal state; the whitespace state hands any other byte
/// back to the base state.
pub open spec fn rank(input: Seq<u8>, s: State, pos: int) -> int {
    match s {
        State::Space => if 0 <= pos < input.len() && (input[pos] == SPACE || input[pos] == NEWLINE) {
            0
        } else {
            2
        },
        State::Base => 1,
        _ => 0,
    }
}

/// Where the lexer goes on after a step: a byte position and a state, or
/// `(0, Done)` at the end of the input; or the error that stops it.
pub type Outcome = Result<(int, State), Error>;

/// The outcome of a step that ends at the end of the input.
pub open spec fn done() -> Outcome {
    Ok((0, State::Done))
}

/// Going on at `p` in state `s`, or ending when `p` is the end of the input.
pub open spec fn resume(input: Seq<u8>, p: int, s: State) -> Outcome {
    if p < input.len() {
        Ok((p, s))
    } else {
        done()
    }
}

/// The base state from `pos`: each punctuation byte is a token of its own
/// and the state stays; a comment, a raw string, a string, whitespace, a
/// color, an identifier or a number starts a state of its own; any other
/// byte is an error. Returns the tokens, then the outcome.
pub open spec fn base_step(input: Seq<u8>, pos: int, toks: Seq<Span>) -> (Seq<Span>, Outcome)
    decreases input.len() - pos,
{
    if pos < 0 || pos >= input.len() {
        (toks, done())
    } else {
        let b = input[pos];
        if b == SLASH && has_at(input, pos + 1, seq![SLASH]) {
            (toks, Ok((pos, State::InComment)))
        } else if b == DASH && has_at(input, pos + 1, seq![DASH, DASH]) {
            (toks, Ok((pos, State::InRawString)))
        } else if b == QUOTE {
            (toks, Ok((pos, State::InString)))
        } else if b == SPACE || b == NEWLINE {
            (toks, Ok((pos, State::Space)))
        } else if b == HASH {
            (toks, Ok((pos, State::InColor)))
        } else if alphabetic_or_underscore(b) {
            (toks, Ok((pos, State::InIdent)))
        } else if digit(b) {
            (toks, Ok((pos, State::InNumber)))
        } else if punctuation(b) is Some {
            base_step(
                input,
                pos + 1,
                toks.push((pos as usize, punctuation(b)->0, (pos + 1) as usize)),
            )
        } else if b == 0xef || b == 0xfe || b == 0xff || b == 0 {
            (toks, Err(encoding_error(input, pos)))
        } else {
            (toks, Err(unexpected_byte(input, pos)))
        }
    }
}

/// One step of the lexer from byte `pos` in `state`, when `toks` have been
/// emitted before: the tokens after the step, and where lexing goes on. A
/// step that fails leaves the tokens as they were.
pub open spec fn step(input: Seq<u8>, state: State, pos: int, toks: Seq<Span>) -> (Seq<Span>, Outcome) {
    let len = input.len() as int;
    if state == State::Done || pos < 0 || pos >= len {
        (toks, done())
    } else {
        match state {
            State::Base => base_step(input, pos, toks),
            State::Space => {
                // Runs of spaces and newlines; a tab or carriage return is an
                // error, anything else is read again in the base state.
                let e = space_end(input, pos);
                if e < len && (input[e] == TAB || input[e] == CARRIAGE_RETURN) {
                    (toks, Err(unexpected_byte(input, e)))
                } else {
                    (toks, resume(input, e, State::Base))
                }
            },
            State::InComment => {
                // Up to and past the next newline; never a token.
                let e = line_end(input, pos + 2);
                if e < len {
                    (toks, Ok((e + 1, State::Space)))
                } else {
                    (toks, done())
                }
            },
            State::InIdent => {
                let e = ident_end(input, pos + 1);
                (toks.push((pos as usize, Token::Ident, e as usize)), resume(input, e, State::Base))
            },
            State::InNumber => {
                // The number, then a unit suffix as a token of its own.
                let e = number_end(input, pos + 1, false);
                let num = toks.push((pos as usize, Token::Number, e as usize));
                if has_at(input, e, seq![LETTER_E, LETTER_M]) {
                    (num.push((e as usize, Token::UnitEm, (e + 2) as usize)), Ok((e + 2, State::Base)))
                } else if has_at(input, e, seq![LETTER_P, LETTER_T]) {
                    (num.push((e as usize, Token::UnitPt, (e + 2) as usize)), Ok((e + 2, State::Base)))
                } else if e < len && input[e] == LETTER_H {
                    (num.push((e as usize, Token::UnitH, (e + 1) as usize)), Ok((e + 1, State::Base)))
                } else if e < len && input[e] == LETTER_W {
                    (num.push((e as usize, Token::UnitW, (e + 1) as usize)), Ok((e + 1, State::Base)))
                } else {
                    (num, resume(input, e, State::Base))
                }
            },
            State::InString => {
                let e = string_end(input, pos + 1);
                if e < len {
                    (
                        toks.push((pos as usize, Token::String, (e + 1) as usize)),
                        Ok((e + 1, State::Base)),
                    )
                } else {
                    (toks, Err(parse_error(pos, pos + 1, LexCause::UnclosedString)))
                }
            },
            State::InRawString => {
                let e = raw_end(input, pos + 3);
                if e < len {
                    (
                        toks.push((pos as usize, Token::RawString, (e + 3) as usize)),
                        Ok((e + 3, State::Base)),
                    )
                } else {
                    (toks, Err(parse_error(pos, pos + 3, LexCause::UnclosedRawString)))
                }
            },
            _ => {
                // A color: exactly six hexadecimal digits after the '#'.
                let lim = if pos + 7 < len {
                    pos + 7
                } else {
                    len
                };
                let h = hex_end(input, pos + 1, lim);
                if h < lim {
                    (toks, Err(parse_error(h, h + 1, LexCause::ExpectedHexDigit(input[h]))))
                } else if pos + 7 < len {
                    let c = input[pos + 7];
                    if hexadecimal(c) {
                        (toks, Err(parse_error(pos, pos + 8, LexCause::ExtraHexDigit)))
                    } else if alphanumeric_or_underscore(c) {
                        (toks, Err(parse_error(pos, pos + 8, LexCause::ExtraColorCharacter(c))))
                    } else {
                        (
                            toks.push((pos as usize, Token::Color, (pos + 7) as usize)),
                            Ok((pos + 7, State::Base)),
                        )
                    }
                } else if pos + 7 == len {
                    (toks.push((pos as usize, Token::Color, len as usize)), done())
                } else {
                    (toks, Err(parse_error(pos, len, LexCause::ShortColor)))
                }
            },
        }
    }
}

/// The outcome of lexing `input` from byte `pos` in `state`, when `toks` have
/// been emitted before: the steps taken one after the other.
pub open spec fn lex_from(input: Seq<u8>, state: State, pos: int, toks: Seq<Span>) -> Result<
    Seq<Span>,
    Error,
>
    decreases input.len() - pos, rank(input, state, pos),
    when 0 <= pos <= input.len()
{
    let (t, o) = step(input, state, pos, toks);
    match o {
        Err(e) => Err(e),
        Ok((p, s)) => if s == State::Done {
            Ok(t)
        } else {
            proof {
                lemma_step_progress(input, state, pos, toks);
            }
            lex_from(input, s, p, t)
        },
    }
}

pub proof fn lemma_base_step_progress(input: Seq<u8>, pos: int, toks: Seq<Span>)
    requires
        0 <= pos <= input.len(),
    ensures
        base_step(input, pos, toks).1 matches Ok((p, s)) ==> s == State::Done || (ready(input, s, p)
            && closer(input, s, p, State::Base, pos)),
    decreases input.len() - pos,
{
    if pos < input.len() {
        let b = input[pos];
        if !(b == SLASH && has_at(input, pos + 1, seq![SLASH])) && !(b == DASH && has_at(
            input,
            pos + 1,
            seq![DASH, DASH],
        )) && b != QUOTE && b != SPACE && b != NEWLINE && b != HASH && !alphabetic_or_underscore(b)
            && !digit(b) && punctuation(b) is Some {
            lemma_base_step_progress(
                input,
                pos + 1,
                toks.push((pos as usize, punctuation(b)->0, (pos + 1) as usize)),
            );
        }
    }
}

/// Each step moves on: to a later byte, or to a lower-ranked state at the
/// same byte; and it leaves the lexer where the next step may start.
pub proof fn lemma_step_progress(input: Seq<u8>, state: State, pos: int, toks: Seq<Span>)
    requires
        0 <= pos <= input.len(),
    ensures
        step(input, state, pos, toks).1 matches Ok((p, s)) ==> s == State::Done || (ready(input, s, p)
            && closer(input, s, p, state, pos)),
{
    let len = input.len() as int;
    if state == State::Done || pos >= len {
        return;
    }
    match state {
        State::Base => lemma_base_step_progress(input, pos, toks),
        State::Space => {
            lemma_space_end(input, pos);
            if input[pos] == SPACE || input[pos] == NEWLINE {
                assert(space_end(input, pos) == space_end(input, pos + 1));
                lemma_space_end(input, pos + 1);
            }
        },
        State::InComment => lemma_line_end(input, pos + 2),
        State::InIdent => lemma_ident_end(input, pos + 1),
        State::InNumber => lemma_number_end(input, pos + 1, false),
        State::InString => lemma_string_end(input, pos + 1),
        State::InRawString => lemma_raw_end(input, pos + 3),
        _ => {},
    }
}

/// What lexing a whole input gives: its tokens, or the first error.
pub open spec fn lex_spec(input: Seq<u8>) -> Result<Seq<Span>, Error> {
    lex_from(input, State::Base, 0, seq![])
}

pub proof fn lemma_ident_end(input: Seq<u8>, i: int)
    requires
        0 <= i,
    ensures
        i <= ident_end(input, i),
        i <= input.len() ==> ident_end(input, i) <= input.len(),
    decreases input.len() - i,
{
    if 0 <= i < input.len() && alphanumeric_or_underscore(input[i]) {
        lemma_ident_end(input, i + 1);
    }
}

pub proof fn lemma_number_end(input: Seq<u8>, i: int, period_seen: bool)
    requires
        0 <= i,
    ensures
        i <= number_end(input, i, period_seen),
        i <= input.len() ==> number_end(input, i, period_seen) <= input.len(),
    decreases input.len() - i,
{
    if 0 <= i < input.len() && (digit(input[i]) || (input[i] == PERIOD && !period_seen)) {
        lemma_number_end(input, i + 1, period_seen || input[i] == PERIOD);
    }
}

pub proof fn lemma_string_end(input: Seq<u8>, i: int)
    requires
        0 <= i,
    ensures
        string_end(input, i) <= input.len(),
        i <= input.len() ==> i <= string_end(input, i),
        string_end(input, i) < input.len() ==> input[string_end(input, i)] == QUOTE,
    decreases input.len() - i,
{
    if 0 <= i < input.len() {
        if input[i] == BACKSLASH {
            if i + 1 < input.len() {
                lemma_string_end(input, i + 2);
            }
        } else if input[i] != QUOTE {
            lemma_string_end(input, i + 1);
        }
    }
}

pub proof fn lemma_raw_end(input: Seq<u8>, i: int)
    requires
        0 <= i,
    ensures
        raw_end(input, i) <= input.len(),
        i + 3 <= input.len() ==> i <= raw_end(input, i),
        raw_end(input, i) < input.len() ==> has_at(input, raw_end(input, i), seq![DASH, DASH, DASH]),
    decreases input.len() - i,
{
    if 0 <= i && i + 3 <= input.len() && !has_at(input, i, seq![DASH, DASH, DASH]) {
        lemma_raw_end(input, i + 1);
    }
}

pub proof fn lemma_line_end(input: Seq<u8>, i: int)
    requires
        0 <= i,
    ensures
        i <= line_end(input, i),
        i <= input.len() ==> line_end(input, i) <= input.len(),
        line_end(input, i) < input.len() ==> input[line_end(input, i)] == NEWLINE,
        forall|k: int| i <= k < line_end(input, i) ==> input[k] != NEWLINE,
        i <= input.len() ==> (line_end(input, i) == input.len() || line_end(input, i) < input.len()),
    decreases input.len() - i,
{
    if 0 <= i < input.len() && input[i] != NEWLINE {
        lemma_line_end(input, i + 1);
    }
}

pub proof fn lemma_space_end(input: Seq<u8>, i: int)
    requires
        0 <= i,
    ensures
        i <= space_end(input, i),
        i <= input.len() ==> space_end(input, i) <= input.len(),
        forall|k: int| i <= k < space_end(input, i) ==> input[k] == SPACE || input[k] == NEWLINE,
    decreases input.len() - i,
{
    if 0 <= i < input.len() && (input[i] == SPACE || input[i] == NEWLINE) {
        lemma_space_end(input, i + 1);
    }
}

/// Spans that are non-empty, in order, without overlap, and end by `bound`.
pub open spec fn spans_ordered(toks: Seq<Span>, bound: int) -> bool {
    &&& forall|k: int| 0 <= k < toks.len() ==> (#[trigger] toks[k]).0 < toks[k].2 <= bound
    &&& forall|k: int| 0 <= k && k + 1 < toks.len() ==> (#[trigger] toks[k]).2 <= toks[k + 1].0
}

/// A lexical error over a non-empty range inside an input of length `len`.
pub open spec fn error_within(e: Error, len: int) -> bool {
    match e {
        Error::Parse { start, end, cause: _ } => start < end <= len,
        _ => false,
    }
}


proof fn lemma_push_ordered(toks: Seq<Span>, bound: int, s: int, tok: Token, e: int)
    requires
        spans_ordered(toks, bound),
        0 <= bound <= s < e <= usize::MAX,
    ensures
        spans_ordered(toks.push((s as usize, tok, e as usize)), e),
{
    let t2 = toks.push((s as usize, tok, e as usize));
    assert forall|k: int| 0 <= k && k + 1 < t2.len() implies (#[trigger] t2[k]).2 <= t2[k + 1].0 by {
        if k + 1 < toks.len() {
            assert(t2[k] == toks[k] && t2[k + 1] == toks[k + 1]);
        } else {
            assert(t2[k] == toks[k]);
        }
    }
    assert forall|k: int| 0 <= k < t2.len() implies (#[trigger] t2[k]).0 < t2[k].2 <= e by {
        if k < toks.len() {
            assert(t2[k] == toks[k]);
        }
    }
}

proof fn lemma_hex_end(input: Seq<u8>, i: int, lim: int)
    requires
        0 <= i <= lim,
    ensures
        i <= hex_end(input, i, lim) <= lim,
    decreases lim - i,
{
    if 0 <= i < lim && i < input.len() && hexadecimal(input[i]) {
        lemma_hex_end(input, i + 1, lim);
    }
}

/// Whether a comment may start at `c`: it holds `//`.
pub open spec fn comment_start(input: Seq<u8>, c: int) -> bool {
    has_at(input, c, seq![SLASH, SLASH])
}

/// Whether the byte at `k` lies in a comment: after a `//` that is part of
/// no token, with no newline in between.
pub open spec fn in_comment(input: Seq<u8>, toks: Seq<Span>, k: int) -> bool {
    exists|c: int|
        0 <= c <= k && #[trigger] comment_start(input, c) && !in_token(toks, c) && forall|j: int|
            c <= j < k ==> input[j] != NEWLINE
}

/// Whether the byte at `k` is whitespace or part of a comment.
pub open spec fn blank(input: Seq<u8>, toks: Seq<Span>, k: int) -> bool {
    input[k] == SPACE || input[k] == NEWLINE || in_comment(input, toks, k)
}

/// Whether the byte at `k` lies in one of the spans.
pub open spec fn in_token(toks: Seq<Span>, k: int) -> bool {
    exists|m: int| 0 <= m < toks.len() && (#[trigger] toks[m]).0 <= k < toks[m].2
}

/// Whether every byte before `pos` lies in a token or is blank.
#[verifier::opaque]
pub open spec fn accounted(input: Seq<u8>, toks: Seq<Span>, pos: int) -> bool {
    forall|k: int| 0 <= k < pos ==> in_token(toks, k) || blank(input, toks, k)
}

proof fn lemma_accounted_push(input: Seq<u8>, toks: Seq<Span>, pos: int, tok: Token, e: int)
    requires
        accounted(input, toks, pos),
        spans_ordered(toks, pos),
        0 <= pos < e <= usize::MAX,
    ensures
        accounted(input, toks.push((pos as usize, tok, e as usize)), e),
        spans_ordered(toks.push((pos as usize, tok, e as usize)), e),
{
    reveal(accounted);
    lemma_push_ordered(toks, pos, pos, tok, e);
    let t2 = toks.push((pos as usize, tok, e as usize));
    assert forall|c: int| 0 <= c < pos && !in_token(toks, c) implies !in_token(t2, c) by {
        assert forall|m: int| 0 <= m < t2.len() implies !((#[trigger] t2[m]).0 <= c < t2[m].2) by {
            if m < toks.len() {
                assert(t2[m] == toks[m]);
            }
        }
    }
    assert forall|k: int| 0 <= k < e implies in_token(t2, k) || blank(input, t2, k) by {
        if k < pos {
            if in_token(toks, k) {
                let m = choose|m: int| 0 <= m < toks.len() && (#[trigger] toks[m]).0 <= k < toks[m].2;
                assert(t2[m] == toks[m]);
            } else if in_comment(input, toks, k) {
                let c = choose|c: int|
                    0 <= c <= k && #[trigger] comment_start(input, c) && !in_token(toks, c)
                        && forall|j: int| c <= j < k ==> input[j] != NEWLINE;
                assert(!in_token(t2, c));
                assert(in_comment(input, t2, k));
            }
        } else {
            assert(t2[toks.len() as int] == (pos as usize, tok, e as usize));
        }
    }
}

proof fn lemma_accounted_blank(input: Seq<u8>, toks: Seq<Span>, pos: int, e: int)
    requires
        accounted(input, toks, pos),
        pos <= e,
        forall|k: int| pos <= k < e ==> blank(input, toks, k),
    ensures
        accounted(input, toks, e),
{
    reveal(accounted);
}

proof fn lemma_comment_blank(input: Seq<u8>, toks: Seq<Span>, c: int, e: int)
    requires
        comment_start(input, c),
        spans_ordered(toks, c),
        forall|j: int| c + 2 <= j < e ==> input[j] != NEWLINE,
        e <= input.len(),
    ensures
        forall|k: int| c <= k < e ==> blank(input, toks, k),
{
    assert(!in_token(toks, c));
    assert forall|k: int| c <= k < e implies blank(input, toks, k) by {
        assert(input.subrange(c, c + 2)[0] == SLASH && input.subrange(c, c + 2)[1] == SLASH);
        assert forall|j: int| c <= j < k implies input[j] != NEWLINE by {
            if j < c + 2 {
                assert(input[j] == input.subrange(c, c + 2)[j - c]);
            }
        }
        assert(in_comment(input, toks, k));
    }
}

/// What a step keeps of the tokens and the bytes before its end: every byte
/// lies in a token or is blank, the tokens are ordered, and a comment state
/// stands on a `//`. An error covers a non-empty range of the input.
pub open spec fn step_keeps(input: Seq<u8>, r: (Seq<Span>, Outcome)) -> bool {
    match r.1 {
        Ok((p, s)) => if s == State::Done {
            accounted(input, r.0, input.len() as int) && spans_ordered(r.0, input.len() as int)
        } else {
            &&& accounted(input, r.0, p)
            &&& spans_ordered(r.0, p)
            &&& (s == State::InComment ==> comment_start(input, p))
        },
        Err(e) => error_within(e, input.len() as int),
    }
}

proof fn lemma_base_step_keeps(input: Seq<u8>, pos: int, toks: Seq<Span>)
    requires
        input.len() <= usize::MAX,
        0 <= pos <= input.len(),
        accounted(input, toks, pos),
        spans_ordered(toks, pos),
    ensures
        step_keeps(input, base_step(input, pos, toks)),
    decreases input.len() - pos,
{
    if pos < input.len() {
        let b = input[pos];
        if b == SLASH && has_at(input, pos + 1, seq![SLASH]) {
            assert(input.subrange(pos, pos + 2) =~= seq![SLASH, SLASH]) by {
                assert(input.subrange(pos + 1, pos + 2)[0] == SLASH);
            }
        } else if b == DASH && has_at(input, pos + 1, seq![DASH, DASH]) {
        } else if b == QUOTE {
        } else if b == SPACE || b == NEWLINE {
        } else if b == HASH || alphabetic_or_underscore(b) || digit(b) {
        } else if punctuation(b) is Some {
            lemma_accounted_push(input, toks, pos, punctuation(b)->0, pos + 1);
            lemma_base_step_keeps(
                input,
                pos + 1,
                toks.push((pos as usize, punctuation(b)->0, (pos + 1) as usize)),
            );
        }
    }
}

#[verifier::spinoff_prover]
#[verifier::rlimit(60)]
proof fn lemma_step_keeps(input: Seq<u8>, state: State, pos: int, toks: Seq<Span>)
    requires
        input.len() <= usize::MAX,
        ready(input, state, pos),
        accounted(input, toks, pos),
        spans_ordered(toks, pos),
        state != State::Done,
        state == State::InComment ==> comment_start(input, pos),
    ensures
        step_keeps(input, step(input, state, pos, toks)),
{
    let len = input.len() as int;
    if state == State::Done || pos >= len {
        return;
    }
    match state {
        State::Base => lemma_base_step_keeps(input, pos, toks),
        State::Space => {
            lemma_space_end(input, pos);
            let e = space_end(input, pos);
            lemma_accounted_blank(input, toks, pos, e);
        },
        State::InComment => {
            lemma_line_end(input, pos + 2);
            let e = line_end(input, pos + 2);
            lemma_comment_blank(input, toks, pos, e);
            lemma_accounted_blank(input, toks, pos, e);
            if e < len {
                lemma_accounted_blank(input, toks, e, e + 1);
            }
        },
        State::InIdent => {
            lemma_ident_end(input, pos + 1);
            lemma_accounted_push(input, toks, pos, Token::Ident, ident_end(input, pos + 1));
        },
        State::InNumber => {
            lemma_number_end(input, pos + 1, false);
            let e = number_end(input, pos + 1, false);
            let t1 = toks.push((pos as usize, Token::Number, e as usize));
            lemma_accounted_push(input, toks, pos, Token::Number, e);
            if has_at(input, e, seq![LETTER_E, LETTER_M]) {
                lemma_accounted_push(input, t1, e, Token::UnitEm, e + 2);
            } else if has_at(input, e, seq![LETTER_P, LETTER_T]) {
                lemma_accounted_push(input, t1, e, Token::UnitPt, e + 2);
            } else if e < len && input[e] == LETTER_H {
                lemma_accounted_push(input, t1, e, Token::UnitH, e + 1);
            } else if e < len && input[e] == LETTER_W {
                lemma_accounted_push(input, t1, e, Token::UnitW, e + 1);
            }
        },
        State::InString => {
            lemma_string_end(input, pos + 1);
            let e = string_end(input, pos + 1);
            if e < len {
                lemma_accounted_push(input, toks, pos, Token::String, e + 1);
            }
        },
        State::InRawString => {
            lemma_raw_end(input, pos + 3);
            let e = raw_end(input, pos + 3);
            if e < len {
                lemma_accounted_push(input, toks, pos, Token::RawString, e + 3);
            }
        },
        _ => {
            let lim = if pos + 7 < len {
                pos + 7
            } else {
                len
            };
            lemma_hex_end(input, pos + 1, lim);
            if pos + 7 < len {
                lemma_accounted_push(input, toks, pos, Token::Color, pos + 7);
            } else if pos + 7 == len {
                lemma_accounted_push(input, toks, pos, Token::Color, len);
            }
        },
    }
}

proof fn lemma_lex_from_keeps(input: Seq<u8>, state: State, pos: int, toks: Seq<Span>)
    requires
        input.len() <= usize::MAX,
        ready(input, state, pos),
        accounted(input, toks, pos),
        spans_ordered(toks, pos),
        state != State::Done,
        state == State::InComment ==> comment_start(input, pos),
    ensures
        match lex_from(input, state, pos, toks) {
            Ok(t) => spans_ordered(t, input.len() as int) && accounted(input, t, input.len() as int),
            Err(e) => error_within(e, input.len() as int),
        },
    decreases input.len() - pos, rank(input, state, pos),
{
    lemma_step_keeps(input, state, pos, toks);
    lemma_step_progress(input, state, pos, toks);
    let (t, o) = step(input, state, pos, toks);
    match o {
        Ok((p, s)) => {
            if s != State::Done {
                lemma_lex_from_keeps(input, s, p, t);
            }
        },
        Err(_) => {},
    }
}

/// Lexing is total and its outcome well formed: either the tokens are
/// non-empty byte ranges of the input, in order and without overlap, and
/// every byte outside of them is a space, a newline, or part of a comment: it
/// follows on its line a `//` that lies in no token. Or the one error covers
/// a non-empty byte range of the input.
pub proof fn lemma_lex_well_formed(input: Seq<u8>)
    requires
        input.len() <= usize::MAX,
    ensures
        match lex_spec(input) {
            Ok(t) => spans_ordered(t, input.len() as int) && accounted(input, t, input.len() as int),
            Err(e) => error_within(e, input.len() as int),
        },
{
    assert(accounted(input, seq![], 0)) by {
        reveal(accounted);
    }
    assert(spans_ordered(seq![], 0));
    lemma_lex_from_keeps(input, State::Base, 0, seq![]);
}

/// Whether the lexer may go on from `pos` in `s`: literal states stand on a
/// byte of the input.
pub open spec fn ready(input: Seq<u8>, s: State, pos: int) -> bool {
    &&& 0 <= pos <= input.len()
    &&& s != State::Base && s != State::Space && s != State::Done ==> pos < input.len()
    &&& s == State::InComment ==> pos + 2 <= input.len()
    &&& s == State::InRawString ==> pos + 3 <= input.len()
}

/// Whether `(pos1, s1)` is strictly closer to the end of lexing than `(pos0, s0)`.
pub open spec fn closer(input: Seq<u8>, s1: State, pos1: int, s0: State, pos0: int) -> bool {
    pos1 > pos0 || (pos1 == pos0 && rank(input, s1, pos1) < rank(input, s0, pos0))
}

/// What one state function of the lexer owes: it takes exactly the step
/// from `pos` in `state`, and leaves the tokens that the step leaves.
pub open spec fn takes_step(
    input: Seq<u8>,
    state: State,
    pos: int,
    toks: Seq<Span>,
    r: Result<(usize, State), Error>,
    toks2: Seq<Span>,
) -> bool {
    let (t, o) = step(input, state, pos, toks);
    &&& toks2 == t
    &&& match o {
        Ok((p, s)) => r == Ok::<(usize, State), Error>((p as usize, s)),
        Err(e) => r == Err::<(usize, State), Error>(e),
    }
}

/// Lexes a UTF-8 input into `(start, token, past_end)` spans.
pub fn lex(input: &[u8]) -> (r: Result<Vec<Span>, Error>)
    ensures
        match r {
            Ok(v) => lex_spec(input@) == Ok::<Seq<Span>, Error>(v@),
            Err(e) => lex_spec(input@) == Err::<Seq<Span>, Error>(e),
        },
{
    Lexer::new(input).run()
}

struct Lexer<'a> {
    input: &'a [u8],
    start: usize,
    state: State,
    tokens: Vec<Span>,
}

impl<'a> Lexer<'a> {
    fn new(input: &'a [u8]) -> (r: Lexer<'a>)
        ensures
            r.input == input,
            r.start == 0,
            r.state == State::Base,
            r.tokens@ == Seq::<Span>::empty(),
    {
        Lexer { input: input, start: 0, state: State::Base, tokens: Vec::new() }
    }

    /// Runs the lexer on the full input and returns the tokens.
    fn run(self) -> (r: Result<Vec<Span>, Error>)
        requires
            self.start == 0,
            self.state == State::Base,
            self.tokens@ == Seq::<Span>::empty(),
        ensures
            match r {
                Ok(v) => lex_spec(self.input@) == Ok::<Seq<Span>, Error>(v@),
                Err(e) => lex_spec(self.input@) == Err::<Seq<Span>, Error>(e),
            },
    {
        let mut lexer = self;
        let ghost input = lexer.input@;
        loop
            invariant
                lexer.input@ == input,
                input == self.input@,
                input.len() == lexer.input.len(),
                ready(input, lexer.state, lexer.start as int),
                lex_from(input, lexer.state, lexer.start as int, lexer.tokens@) == lex_spec(input),
            decreases input.len() - lexer.start, rank(input, lexer.state, lexer.start as int),
        {
            let ghost state0 = lexer.state;
            let ghost start0 = lexer.start as int;
            let ghost toks0 = lexer.tokens@;
            proof {
                lemma_step_progress(input, state0, start0, toks0);
            }
            let r = match lexer.state {
                State::Base => lexer.lex_base(),
                State::InColor => lexer.lex_color(),
                State::InComment => lexer.lex_comment(),
                State::InIdent => lexer.lex_ident(),
                State::InNumber => lexer.lex_number(),
                State::InRawString => lexer.lex_raw_string(),
                State::InString => lexer.lex_string(),
                State::Space => lexer.lex_space(),
                State::Done => return Ok(lexer.tokens),
            };
            proof {
                let (t, o) = step(input, state0, start0, toks0);
                assert(lex_from(input, state0, start0, toks0) == (match o {
                    Err(e) => Err(e),
                    Ok((p, s)) => if s == State::Done {
                        Ok(t)
                    } else {
                        lex_from(input, s, p, t)
                    },
                }));
            }
            match r {
                Ok((start, state)) => {
                    if state == State::Done {
                        return Ok(lexer.tokens);
                    }
                    lexer.start = start;
                    lexer.state = state;
                },
                Err(e) => return Err(e),
            }
        }
    }

    /// Checks whether the byte sequence occurs at an index.
    fn has_at(&self, at: usize, expected: &[u8]) -> (r: bool)
        ensures
            r == has_at(self.input@, at as int, expected@),
    {
        bytes_at(self.input, at, expected)
    }

    /// Pushes a single-byte token, and sets the start of the next token past it.
    fn push_single(&mut self, at: usize, tok: Token)
        requires
            at < old(self).input.len(),
        ensures
            final(self).input == old(self).input,
            final(self).state == old(self).state,
            final(self).tokens@ == old(self).tokens@.push((at, tok, (at + 1) as usize)),
            final(self).start == at + 1,
    {
        self.tokens.push((at, tok, at + 1));
        self.start = at + 1;
    }
    /// Lexes in the base state until a state change occurs.
    ///
    /// Returns new values for `self.start` and `self.state`.
    fn lex_base(&mut self) -> (r: Result<(usize, State), Error>)
        requires
            old(self).start <= old(self).input.len(),
        ensures
            final(self).input == old(self).input,
            takes_step(
                old(self).input@,
                State::Base,
                old(self).start as int,
                old(self).tokens@,
                r,
                final(self).tokens@,
            ),
    {
        let ghost input = self.input@;
        let ghost start0 = self.start as int;
        let ghost toks0 = self.tokens@;
        let mut i = self.start;
        while i < self.input.len()
            invariant
                self.input == old(self).input,
                self.input@ == input,
                start0 == old(self).start,
                toks0 == old(self).tokens@,
                start0 <= i <= input.len(),
                base_step(input, start0, toks0) == base_step(input, i as int, self.tokens@),
            decreases input.len() - i,
        {
            let b = self.input[i];
            assert([SLASH]@ =~= seq![SLASH]);
            // Two bytes need a brief lookahead: '/' for the start of a comment
            // "//", and '-' for the start of a raw string "---". Without it
            // they are single-byte tokens.
            if b == SLASH && self.has_at(i + 1, &[SLASH]) {
                assert(has_at(input, i + 1, seq![SLASH]));
                return change_state(i, State::InComment);
            }
            if b == DASH && self.has_at(i + 1, &[DASH, DASH]) {
                return change_state(i, State::InRawString);
            }
            // A few bytes change the state immediately. Only spaces and
            // newlines are whitespace: no tabs or carriage returns.
            if b == QUOTE {
                return change_state(i, State::InString);
            }
            if b == SPACE || b == NEWLINE {
                return change_state(i, State::Space);
            }
            if b == HASH {
                return change_state(i, State::InColor);
            }
            if is_alphabetic_or_underscore(b) {
                return change_state(i, State::InIdent);
            }
            if is_digit(b) {
                return change_state(i, State::InNumber);
            }
            match single_token(b) {
                Some(tok) => {
                    // Punctuation is a token of its own; the state stays.
                    self.push_single(i, tok);
                },
                None => {
                    if b == 0xef || b == 0xfe || b == 0xff || b == 0 {
                        // Possibly the start of a byte order mark.
                        return Err(make_encoding_error(self.input, i));
                    }
                    return Err(make_parse_error(self.input, i));
                },
            }
            i += 1;
        }
        done_at_end_of_input()
    }

    /// Lexes a color: exactly six hexadecimal digits after the '#'.
    fn lex_color(&mut self) -> (r: Result<(usize, State), Error>)
        requires
            old(self).start < old(self).input.len(),
        ensures
            final(self).input == old(self).input,
            takes_step(
                old(self).input@,
                State::InColor,
                old(self).start as int,
                old(self).tokens@,
                r,
                final(self).tokens@,
            ),
    {
        let ghost input = self.input@;
        let start = self.start;
        let len = self.input.len();
        let lim = if len - start > 7 {
            start + 7
        } else {
            len
        };
        let mut i = start + 1;
        while i < lim
            invariant
                self.input@ == input,
                self.input == old(self).input,
                self.start == old(self).start,
                self.tokens@ == old(self).tokens@,
                start == self.start,
                len == input.len(),
                start < i <= lim <= len,
                lim == (if start + 7 < len {
                    start + 7
                } else {
                    len as int
                }),
                hex_end(input, start + 1, lim as int) == hex_end(input, i as int, lim as int),
            decreases lim - i,
        {
            let c = self.input[i];
            if !is_hexadecimal(c) {
                assert(hex_end(input, i as int, lim as int) == i);
                // More hexadecimal digits were expected.
                return Err(Error::Parse { start: i, end: i + 1, cause: LexCause::ExpectedHexDigit(c) });
            }
            i += 1;
        }
        if lim < len {
            // A seventh digit, or a letter right after the sixth, would make
            // the color run into an identifier: report it here instead.
            let c = self.input[lim];
            if is_hexadecimal(c) {
                return Err(Error::Parse { start, end: start + 8, cause: LexCause::ExtraHexDigit });
            }
            if is_alphanumeric_or_underscore(c) {
                return Err(
                    Error::Parse { start, end: start + 8, cause: LexCause::ExtraColorCharacter(c) },
                );
            }
            self.tokens.push((start, Token::Color, lim));
            return change_state(lim, State::Base);
        }
        if len - start < 7 {
            // The input ends before the sixth digit.
            return Err(Error::Parse { start, end: len, cause: LexCause::ShortColor });
        }
        // The input ends right after the color.
        self.tokens.push((start, Token::Color, len));
        done_at_end_of_input()
    }

    /// Skips until a newline is found, then switches to the whitespace state.
    fn lex_comment(&mut self) -> (r: Result<(usize, State), Error>)
        requires
            old(self).start + 2 <= old(self).input.len(),
        ensures
            final(self).input == old(self).input,
            final(self).tokens == old(self).tokens,
            takes_step(
                old(self).input@,
                State::InComment,
                old(self).start as int,
                old(self).tokens@,
                r,
                final(self).tokens@,
            ),
    {
        let ghost input = self.input@;
        let start = self.start;
        // Skip the "//" itself.
        let mut i = start + 2;
        while i < self.input.len() && self.input[i] != NEWLINE
            invariant
                self.input@ == input,
                self.input == old(self).input,
                self.start == old(self).start,
                self.tokens@ == old(self).tokens@,
                start == self.start,
                start + 2 <= i <= input.len(),
                line_end(input, start + 2) == line_end(input, i as int),
            decreases input.len() - i,
        {
            i += 1;
        }
        if i < self.input.len() {
            // The newline is whitespace: go on past it in that state.
            return change_state(i + 1, State::Space);
        }
        done_at_end_of_input()
    }

    /// Lexes an identifier until a state change occurs.
    fn lex_ident(&mut self) -> (r: Result<(usize, State), Error>)
        requires
            old(self).start < old(self).input.len(),
        ensures
            final(self).input == old(self).input,
            takes_step(
                old(self).input@,
                State::InIdent,
                old(self).start as int,
                old(self).tokens@,
                r,
                final(self).tokens@,
            ),
    {
        let ghost input = self.input@;
        let start = self.start;
        // The first byte is a letter or underscore; digits may follow too.
        let mut i = start + 1;
        while i < self.input.len() && is_alphanumeric_or_underscore(self.input[i])
            invariant
                self.input@ == input,
                self.input == old(self).input,
                self.start == old(self).start,
                self.tokens@ == old(self).tokens@,
                start == self.start,
                start < i <= input.len(),
                ident_end(input, start + 1) == ident_end(input, i as int),
            decreases input.len() - i,
        {
            i += 1;
        }
        self.tokens.push((start, Token::Ident, i));
        if i < self.input.len() {
            return change_state(i, State::Base);
        }
        assert(lex_from(input, State::Base, i as int, self.tokens@) == Ok::<Seq<Span>, Error>(self.tokens@));
        done_at_end_of_input()
    }

    /// Lexes a number, and the unit that may follow it.
    fn lex_number(&mut self) -> (r: Result<(usize, State), Error>)
        requires
            old(self).start < old(self).input.len(),
        ensures
            final(self).input == old(self).input,
            takes_step(
                old(self).input@,
                State::InNumber,
                old(self).start as int,
                old(self).tokens@,
                r,
                final(self).tokens@,
            ),
    {
        let ghost input = self.input@;
        let start = self.start;
        let mut period_seen = false;
        // The first byte is a digit; one decimal period may come later.
        let mut i = start + 1;
        while i < self.input.len() && (is_digit(self.input[i]) || (self.input[i] == PERIOD
            && !period_seen))
            invariant
                self.input@ == input,
                self.input == old(self).input,
                self.start == old(self).start,
                self.tokens@ == old(self).tokens@,
                start == self.start,
                start < i <= input.len(),
                number_end(input, start + 1, false) == number_end(input, i as int, period_seen),
            decreases input.len() - i,
        {
            if self.input[i] == PERIOD {
                period_seen = true;
            }
            i += 1;
        }
        // A unit suffix is a token of its own, after the number.
        if self.has_at(i, &[LETTER_E, LETTER_M]) {
            self.tokens.push((start, Token::Number, i));
            self.tokens.push((i, Token::UnitEm, i + 2));
            return change_state(i + 2, State::Base);
        }
        if self.has_at(i, &[LETTER_P, LETTER_T]) {
            self.tokens.push((start, Token::Number, i));
            self.tokens.push((i, Token::UnitPt, i + 2));
            return change_state(i + 2, State::Base);
        }
        if i < self.input.len() && self.input[i] == LETTER_H {
            self.tokens.push((start, Token::Number, i));
            self.push_single(i, Token::UnitH);
            return change_state(i + 1, State::Base);
        }
        if i < self.input.len() && self.input[i] == LETTER_W {
            self.tokens.push((start, Token::Number, i));
            self.push_single(i, Token::UnitW);
            return change_state(i + 1, State::Base);
        }
        // Anything else ends the number, and is read again in the base state.
        self.tokens.push((start, Token::Number, i));
        if i < self.input.len() {
            return change_state(i, State::Base);
        }
        assert(lex_from(input, State::Base, i as int, self.tokens@) == Ok::<Seq<Span>, Error>(self.tokens@));
        done_at_end_of_input()
    }

    /// Lexes a raw string until the "---" that closes it.
    fn lex_raw_string(&mut self) -> (r: Result<(usize, State), Error>)
        requires
            old(self).start + 3 <= old(self).input.len(),
        ensures
            final(self).input == old(self).input,
            takes_step(
                old(self).input@,
                State::InRawString,
                old(self).start as int,
                old(self).tokens@,
                r,
                final(self).tokens@,
            ),
    {
        let ghost input = self.input@;
        let start = self.start;
        let len = self.input.len();
        // Skip over the "---" that opens the literal.
        let mut i = start + 3;
        while len - i >= 3 && !self.has_at(i, &[DASH, DASH, DASH])
            invariant
                self.input@ == input,
                self.input == old(self).input,
                self.start == old(self).start,
                self.tokens@ == old(self).tokens@,
                start == self.start,
                len == input.len(),
                start + 3 <= i <= len,
                raw_end(input, start + 3) == raw_end(input, i as int),
            decreases len - i,
        {
            i += 1;
        }
        if len - i >= 3 {
            self.tokens.push((start, Token::RawString, i + 3));
            return change_state(i + 3, State::Base);
        }
        Err(Error::Parse { start, end: start + 3, cause: LexCause::UnclosedRawString })
    }

    /// Lexes a string until the quote that closes it.
    fn lex_string(&mut self) -> (r: Result<(usize, State), Error>)
        requires
            old(self).start < old(self).input.len(),
        ensures
            final(self).input == old(self).input,
            takes_step(
                old(self).input@,
                State::InString,
                old(self).start as int,
                old(self).tokens@,
                r,
                final(self).tokens@,
            ),
    {
        let ghost input = self.input@;
        let start = self.start;
        let len = self.input.len();
        // Skip over the quote that opens the literal.
        let mut i = start + 1;
        while i < len
            invariant
                self.input@ == input,
                self.input == old(self).input,
                self.start == old(self).start,
                self.tokens@ == old(self).tokens@,
                start == self.start,
                len == input.len(),
                start < i <= len,
                string_end(input, start + 1) == string_end(input, i as int),
            decreases len - i,
        {
            let c = self.input[i];
            if c == BACKSLASH {
                // Whatever follows a backslash is skipped, valid escape or
                // not: escapes are for the parser to judge.
                if i + 1 < len {
                    i += 2;
                } else {
                    i = len;
                }
            } else if c == QUOTE {
                self.tokens.push((start, Token::String, i + 1));
                return change_state(i + 1, State::Base);
            } else {
                i += 1;
            }
        }
        Err(Error::Parse { start, end: start + 1, cause: LexCause::UnclosedString })
    }

    /// Lexes in the whitespace state until a state change occurs.
    fn lex_space(&mut self) -> (r: Result<(usize, State), Error>)
        requires
            old(self).start <= old(self).input.len(),
        ensures
            final(self).input == old(self).input,
            final(self).tokens == old(self).tokens,
            takes_step(
                old(self).input@,
                State::Space,
                old(self).start as int,
                old(self).tokens@,
                r,
                final(self).tokens@,
            ),
    {
        let ghost input = self.input@;
        let start = self.start;
        let mut i = start;
        while i < self.input.len() && (self.input[i] == SPACE || self.input[i] == NEWLINE)
            invariant
                self.input@ == input,
                self.input == old(self).input,
                self.start == old(self).start,
                self.tokens@ == old(self).tokens@,
                start == self.start,
                start <= i <= input.len(),
                space_end(input, start as int) == space_end(input, i as int),
            decreases input.len() - i,
        {
            i += 1;
        }
        if i < self.input.len() {
            if self.input[i] == TAB || self.input[i] == CARRIAGE_RETURN {
                // Be strict about whitespace.
                return Err(make_parse_error(self.input, i));
            }
            // Anything else is read again in the base state.
            return change_state(i, State::Base);
        }
        assert(lex_from(input, State::Base, i as int, self.tokens@) == Ok::<Seq<Span>, Error>(self.tokens@));
        done_at_end_of_input()
    }
}

/// Makes `Lexer::run` change to a state, starting at the given byte.
fn change_state(at: usize, state: State) -> (r: Result<(usize, State), Error>)
    ensures
        r == Ok::<(usize, State), Error>((at, state)),
{
    Ok((at, state))
}

/// Signals the end of input to `Lexer::run`.
fn done_at_end_of_input() -> (r: Result<(usize, State), Error>)
    ensures
        r == Ok::<(usize, State), Error>((0, State::Done)),
{
    Ok((0, State::Done))
}

/// Checks whether a byte is an ASCII letter.
fn is_alphabetic(byte: u8) -> (r: bool)
    ensures
        r == alphabetic(byte),
{
    (0x61 <= byte && byte <= 0x7a) || (0x41 <= byte && byte <= 0x5a)
}

/// Checks whether a byte is an ASCII letter or underscore.
fn is_alphabetic_or_underscore(byte: u8) -> (r: bool)
    ensures
        r == alphabetic_or_underscore(byte),
{
    is_alphabetic(byte) || byte == UNDERSCORE
}

/// Checks whether a byte is an ASCII letter, digit, or underscore.
fn is_alphanumeric_or_underscore(byte: u8) -> (r: bool)
    ensures
        r == alphanumeric_or_underscore(byte),
{
    is_alphabetic_or_underscore(byte) || (0x30 <= byte && byte <= 0x39)
}

/// Checks whether a byte is an ASCII digit.
fn is_digit(byte: u8) -> (r: bool)
    ensures
        r == digit(byte),
{
    0x30 <= byte && byte <= 0x39
}

/// Checks whether a byte is a hexadecimal digit.
fn is_hexadecimal(byte: u8) -> (r: bool)
    ensures
        r == hexadecimal(byte),
{
    is_digit(byte) || (0x61 <= byte && byte <= 0x66) || (0x41 <= byte && byte <= 0x46)
}

/// The token of a byte of punctuation.
fn single_token(byte: u8) -> (r: Option<Token>)
    ensures
        r == punctuation(byte),
{
    if byte == COMMA {
        Some(Token::Comma)
    } else if byte == PERIOD {
        Some(Token::Dot)
    } else if byte == EQUALS {
        Some(Token::Equals)
    } else if byte == HAT {
        Some(Token::Hat)
    } else if byte == DASH {
        Some(Token::Minus)
    } else if byte == PLUS {
        Some(Token::Plus)
    } else if byte == SLASH {
        Some(Token::Slash)
    } else if byte == STAR {
        Some(Token::Star)
    } else if byte == TILDE {
        Some(Token::Tilde)
    } else if byte == LPAREN {
        Some(Token::LParen)
    } else if byte == RPAREN {
        Some(Token::RParen)
    } else if byte == LBRACE {
        Some(Token::LBrace)
    } else if byte == RBRACE {
        Some(Token::RBrace)
    } else {
        None
    }
}

/// Whether `expected` occurs in `input` at index `at`.
fn bytes_at(input: &[u8], at: usize, expected: &[u8]) -> (r: bool)
    ensures
        r == has_at(input@, at as int, expected@),
{
    // There must at least be sufficient bytes left to match the entire
    // expected string.
    if expected.len() > input.len() || at > input.len() - expected.len() {
        return false;
    }
    // Then check that every byte matches.
    let mut k: usize = 0;
    while k < expected.len()
        invariant
            at + expected@.len() <= input.len(),
            k <= expected@.len(),
            forall|j: int| 0 <= j < k ==> input@[at + j] == expected@[j],
        decreases expected.len() - k,
    {
        if input[at + k] != expected[k] {
            assert(input@.subrange(at as int, at + expected@.len())[k as int] != expected@[k as int]);
            return false;
        }
        k += 1;
    }
    assert(input@.subrange(at as int, at + expected@.len()) =~= expected@);
    true
}

/// Detects a few byte order marks at `at`; any other byte there is reported
/// as unexpected.
fn make_encoding_error(input: &[u8], at: usize) -> (e: Error)
    requires
        at < input.len(),
    ensures
        e == encoding_error(input@, at as int),
{
    if bytes_at(input, at, &[0xef, 0xbb, 0xbf]) {
        Error::Parse { start: at, end: at + 3, cause: LexCause::Utf8ByteOrderMark }
    } else if bytes_at(input, at, &[0xfe, 0xff]) || bytes_at(input, at, &[0xff, 0xfe]) {
        Error::Parse { start: at, end: at + 2, cause: LexCause::Utf16ByteOrderMark }
    } else if bytes_at(input, at, &[0x00, 0x00, 0xfe, 0xff]) || bytes_at(
        input,
        at,
        &[0xff, 0xfe, 0x00, 0x00],
    ) {
        Error::Parse { start: at, end: at + 4, cause: LexCause::Utf32ByteOrderMark }
    } else {
        make_parse_error(input, at)
    }
}

/// The scalar value of the UTF-8 character that starts at `at`, if one does.
fn first_scalar(input: &[u8], at: usize) -> (r: Option<u32>)
    requires
        at < input.len(),
    ensures
        ({
            let rest = input@.subrange(at as int, input@.len() as int);
            r == (if valid_first_scalar(rest) {
                Some(decode_first_scalar(rest))
            } else {
                None
            })
        }),
{
    let ghost rest = input@.subrange(at as int, input@.len() as int);
    let left = input.len() - at;
    let b0 = input[at];
    assert(rest[0] == b0);
    let (cp, n): (u32, usize) = if b0 <= 0x7f {
        ((b0 & 0x7f) as u32, 1)
    } else if 0xc0 <= b0 && b0 <= 0xdf {
        if left < 2 || !(0x80 <= input[at + 1] && input[at + 1] <= 0xbf) {
            return None;
        }
        let b1 = input[at + 1];
        assert(rest[1] == b1);
        ((((b0 & 0x1f) as u32) << 6) | ((b1 & 0x3f) as u32), 2)
    } else if 0xe0 <= b0 && b0 <= 0xef {
        if left < 3 || !(0x80 <= input[at + 1] && input[at + 1] <= 0xbf) || !(0x80 <= input[at
            + 2] && input[at + 2] <= 0xbf) {
            return None;
        }
        let b1 = input[at + 1];
        let b2 = input[at + 2];
        assert(rest[1] == b1 && rest[2] == b2);
        (
            (((b0 & 0x0f) as u32) << 12) | (((b1 & 0x3f) as u32) << 6) | ((b2 & 0x3f) as u32),
            3,
        )
    } else if 0xf0 <= b0 && b0 <= 0xf7 {
        if left < 4 || !(0x80 <= input[at + 1] && input[at + 1] <= 0xbf) || !(0x80 <= input[at
            + 2] && input[at + 2] <= 0xbf) || !(0x80 <= input[at + 3] && input[at + 3] <= 0xbf) {
            return None;
        }
        let b1 = input[at + 1];
        let b2 = input[at + 2];
        let b3 = input[at + 3];
        assert(rest[1] == b1 && rest[2] == b2 && rest[3] == b3);
        (
            (((b0 & 0x07) as u32) << 18) | (((b1 & 0x3f) as u32) << 12) | (((b2 & 0x3f) as u32)
                << 6) | ((b3 & 0x3f) as u32),
            4,
        )
    } else {
        return None;
    };
    // Overlong encodings and surrogates are no characters.
    if (n == 2 && cp < 0x80) || (n == 3 && cp < 0x800) || (n == 4 && (cp < 0x10000 || cp
        > 0x10ffff)) || (0xd800 <= cp && cp <= 0xdfff) {
        return None;
    }
    Some(cp)
}

/// The error for a byte at `at` that may not stand there.
fn make_parse_error(input: &[u8], at: usize) -> (e: Error)
    requires
        at < input.len(),
    ensures
        e == unexpected_byte(input@, at as int),
{
    reveal(byte_cause);
    let x = input[at];
    let cause = if x == TAB {
        LexCause::Tab
    } else if x == CARRIAGE_RETURN {
        LexCause::CarriageReturn
    } else if x < 0x20 || x == 0x7f {
        // An ASCII control character.
        LexCause::ControlCharacter(x)
    } else if x < 0x7f {
        // A regular ASCII character, but not one expected at this place.
        LexCause::UnexpectedCharacter(x)
    } else {
        match first_scalar(input, at) {
            Some(c) => LexCause::NonAsciiCharacter(c),
            None => LexCause::NonAsciiByte(x),
        }
    };
    Error::Parse { start: at, end: at + 1, cause }
}

} // verus!
