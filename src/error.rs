use vstd::prelude::*;

use crate::types::ValType;

verus! {

/// Why the lexer rejected a byte range.
#[derive(Clone, Copy, Debug, PartialEq, Eq, Structural)]
pub enum LexCause {
    /// The input holds a UTF-8 byte order mark.
    Utf8ByteOrderMark,
    /// The input holds a UTF-16 byte order mark.
    Utf16ByteOrderMark,
    /// The input holds a UTF-32 byte order mark.
    Utf32ByteOrderMark,
    /// A tab character outside of a string or comment.
    Tab,
    /// A carriage return outside of a string or comment.
    CarriageReturn,
    /// An ASCII control character outside of a string or comment.
    ControlCharacter(u8),
    /// A printable ASCII character that starts no token.
    UnexpectedCharacter(u8),
    /// A character outside of ASCII, outside of a string or comment:
    /// identifiers must be ASCII. It holds the character's scalar value.
    NonAsciiCharacter(u32),
    /// A byte that starts no UTF-8 character.
    NonAsciiByte(u8),
    /// The input ends before the six hexadecimal digits of a color.
    ShortColor,
    /// A color literal holds a byte that is no hexadecimal digit.
    ExpectedHexDigit(u8),
    /// A color literal has a seventh hexadecimal digit.
    ExtraHexDigit,
    /// A color literal is directly followed by a letter or underscore.
    ExtraColorCharacter(u8),
    /// A raw string has no closing `---`.
    UnclosedRawString,
    /// A string has no closing quote.
    UnclosedString,
}

/// The errors of the lexer and of the builtin functions.
#[derive(Debug)]
pub enum Error {
    /// A lexical error over the byte range `[start, end)`.
    Parse { start: usize, end: usize, cause: LexCause },
    /// A function was called with the wrong number of arguments.
    Arity { fn_name: String, expected_count: usize, actual_count: usize },
    /// The argument at index `arg` has the wrong type.
    ArgType { fn_name: String, expected: ValType, actual: ValType, arg: usize },
    /// No enclosing scope binds the name.
    Unresolved { name: String },
    /// The name is bound, but to a value of another type.
    VarType { name: String, expected: ValType, actual: ValType },
    /// `text_align` holds none of `left`, `center`, `right`.
    InvalidTextAlign { value: String },
    /// A glyph index must be a whole number that is not negative.
    InvalidGlyphIndex { index: i64 },
    /// No font of the family and style is known.
    MissingFont { family: String, style: String },
    /// The file could not be loaded.
    MissingFile { path: String },
    /// Only svg images are supported.
    UnsupportedImage { path: String },
    /// A frame cannot be fitted into a box whose width or height is 0.
    FitIntoEmptyBox,
    /// A frame whose width or height is 0 cannot be fitted.
    FitEmptyFrame,
    /// No shaped run of the line is known in the font.
    Unshaped { line: String },
    /// A coordinate left the range of a 64-bit integer.
    Overflow,
}

} // verus!
