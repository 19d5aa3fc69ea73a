//! The byte classes on which the scanner decides where a token ends.

use vstd::prelude::*;

verus! {

/// `:`
pub const COLON: u8 = 0x3a;

/// `,`
pub const COMMA: u8 = 0x2c;

/// `(`
pub const OPEN_PAREN: u8 = 0x28;

/// `)`
pub const CLOSE_PAREN: u8 = 0x29;

/// `[`
pub const OPEN_BRACKET: u8 = 0x5b;

/// `]`
pub const CLOSE_BRACKET: u8 = 0x5d;

/// `|`
pub const PIPE: u8 = 0x7c;

/// The space.
pub const SPACE: u8 = 0x20;

/// The horizontal tab.
pub const TAB: u8 = 0x09;

/// The carriage return.
pub const RETURN: u8 = 0x0d;

/// The line feed.
pub const NEWLINE: u8 = 0x0a;

/// `'`
pub const APOSTROPHE: u8 = 0x27;

/// `"`
pub const DOUBLE_QUOTE: u8 = 0x22;

/// `\`
pub const BACKSLASH: u8 = 0x5c;

/// `/`
pub const SLASH: u8 = 0x2f;

/// `0`
pub const ZERO: u8 = 0x30;

/// `9`
pub const NINE: u8 = 0x39;

/// `+`
pub const PLUS: u8 = 0x2b;

/// `-`
pub const MINUS: u8 = 0x2d;

/// `.`
pub const POINT: u8 = 0x2e;

/// `e`
pub const LOWER_E: u8 = 0x65;

/// `a`
pub const LOWER_A: u8 = 0x61;

/// `b`
pub const LOWER_B: u8 = 0x62;

/// `f`
pub const LOWER_F: u8 = 0x66;

/// `l`
pub const LOWER_L: u8 = 0x6c;

/// `n`
pub const LOWER_N: u8 = 0x6e;

/// `r`
pub const LOWER_R: u8 = 0x72;

/// `s`
pub const LOWER_S: u8 = 0x73;

/// `t`
pub const LOWER_T: u8 = 0x74;

/// `u`
pub const LOWER_U: u8 = 0x75;

/// `E`
pub const UPPER_E: u8 = 0x45;

/// The structural bytes `:` `,` `(` `)` `[` `]` `|`.
pub open spec fn delimiter(ch: u8) -> bool {
    ch == COLON || ch == COMMA || ch == OPEN_PAREN || ch == CLOSE_PAREN || ch == OPEN_BRACKET || ch == CLOSE_BRACKET || ch == PIPE
}

/// Space, tab, carriage return and line feed.
pub open spec fn whitespace(ch: u8) -> bool {
    ch == SPACE || ch == TAB || ch == RETURN || ch == NEWLINE
}

/// Either quote character, `'` or `"`.
pub open spec fn quote(ch: u8) -> bool {
    ch == APOSTROPHE || ch == DOUBLE_QUOTE
}

/// The ASCII digits.
pub open spec fn digit(ch: u8) -> bool {
    ZERO <= ch <= NINE
}

/// The bytes of which a number token is made: digits, signs, the point and
/// the exponent letter.
pub open spec fn number_byte(ch: u8) -> bool {
    digit(ch) || ch == PLUS || ch == MINUS || ch == POINT || ch == LOWER_E || ch == UPPER_E
}

/// Whether a token may end before position `at` of `s`: the input ends
/// there, or a delimiter or whitespace follows.
pub open spec fn token_boundary(s: Seq<u8>, at: int) -> bool {
    at >= s.len() || delimiter(s[at]) || whitespace(s[at])
}

/// The text whose characters have the codes `bytes`, one for one.
pub open spec fn latin(bytes: Seq<u8>) -> Seq<char> {
    Seq::new(bytes.len(), |i: int| bytes[i] as char)
}

pub fn is_delimiter(ch: u8) -> (r: bool)
    ensures
        r == delimiter(ch),
{
    ch == COLON || ch == COMMA || ch == OPEN_PAREN || ch == CLOSE_PAREN || ch == OPEN_BRACKET || ch == CLOSE_BRACKET || ch == PIPE
}

pub fn is_whitespace(ch: u8) -> (r: bool)
    ensures
        r == whitespace(ch),
{
    ch == SPACE || ch == TAB || ch == RETURN || ch == NEWLINE
}

pub fn is_quote(ch: u8) -> (r: bool)
    ensures
        r == quote(ch),
{
    ch == APOSTROPHE || ch == DOUBLE_QUOTE
}

pub fn is_digit(ch: u8) -> (r: bool)
    ensures
        r == digit(ch),
{
    ZERO <= ch && ch <= NINE
}

pub fn is_number_byte(ch: u8) -> (r: bool)
    ensures
        r == number_byte(ch),
{
    is_digit(ch) || ch == PLUS || ch == MINUS || ch == POINT || ch == LOWER_E || ch == UPPER_E
}

} // verus!
