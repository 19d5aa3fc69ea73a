//! The grammar of the notation: what the bytes of a text mean, read from a
//! position on.
//!
//! Each function answers with what was read and the position after it, or
//! with the kind of the failure and the position at which it was found.

use crate::date::{stamp_reading, Date, STAMP_LENGTH};
use crate::error::ErrorKind;
use crate::lexis::{
    delimiter, digit, number_byte, quote, token_boundary, whitespace, APOSTROPHE, BACKSLASH,
    CLOSE_BRACKET, CLOSE_PAREN, COLON, COMMA, DOUBLE_QUOTE, LOWER_A, LOWER_B, LOWER_E, LOWER_F,
    LOWER_L, LOWER_N, LOWER_R, LOWER_S, LOWER_T, LOWER_U, MINUS, OPEN_BRACKET, OPEN_PAREN, PIPE,
    SLASH,
};
use crate::number::{numeral, within_double};
use crate::text::trimmed;
use crate::value::{put, Tree};
use vstd::prelude::*;
use vstd::utf8::decode_utf8;

verus! {

/// What was read and where reading goes on, or why and where it failed.
pub type Scan<T> = Result<(T, int), (ErrorKind, int)>;

/// The first position from `at` on that holds no whitespace.
pub open spec fn skip_blank(s: Seq<u8>, at: int) -> int
    decreases s.len() - at,
{
    if 0 <= at < s.len() && whitespace(s[at]) {
        skip_blank(s, at + 1)
    } else {
        at
    }
}

/// The end of the bare token that starts at `at`: the first position from
/// `at` on that holds a delimiter or whitespace, or the end of the input.
pub open spec fn token_end(s: Seq<u8>, at: int) -> int
    decreases s.len() - at,
{
    if 0 <= at < s.len() && !delimiter(s[at]) && !whitespace(s[at]) {
        token_end(s, at + 1)
    } else {
        at
    }
}

/// The end of the run of number bytes that starts at `at`.
pub open spec fn number_end(s: Seq<u8>, at: int) -> int
    decreases s.len() - at,
{
    if 0 <= at < s.len() && number_byte(s[at]) {
        number_end(s, at + 1)
    } else {
        at
    }
}

/// Whether `ch` is a hexadecimal digit.
pub open spec fn hex_digit(ch: u8) -> bool {
    digit(ch) || 0x41 <= ch <= 0x46 || 0x61 <= ch <= 0x66
}

/// The number that the hexadecimal digit `ch` stands for.
pub open spec fn hex_value(ch: u8) -> int {
    if digit(ch) {
        ch - 0x30
    } else if 0x41 <= ch <= 0x46 {
        ch - 0x41 + 10
    } else {
        ch - 0x61 + 10
    }
}

/// The code unit that the four hexadecimal digits from `at` on write.
pub open spec fn code_unit(s: Seq<u8>, at: int) -> int {
    hex_value(s[at]) * 4096 + hex_value(s[at + 1]) * 256 + hex_value(s[at + 2]) * 16 + hex_value(
        s[at + 3],
    )
}

/// Whether `code` is a surrogate, which is no character by itself.
pub open spec fn surrogate(code: int) -> bool {
    0xd800 <= code <= 0xdfff
}

/// The character that an escape stands for. `at` is the position of the
/// letter `letter` that follows the backslash.
pub open spec fn escape(s: Seq<u8>, at: int, letter: u8) -> Scan<char> {
    if letter == DOUBLE_QUOTE {
        Ok(('"', at + 1))
    } else if letter == APOSTROPHE {
        Ok(('\'', at + 1))
    } else if letter == BACKSLASH {
        Ok(('\\', at + 1))
    } else if letter == SLASH {
        Ok(('/', at + 1))
    } else if letter == LOWER_B {
        Ok(('\u{8}', at + 1))
    } else if letter == LOWER_F {
        Ok(('\u{c}', at + 1))
    } else if letter == LOWER_N {
        Ok(('\n', at + 1))
    } else if letter == LOWER_R {
        Ok(('\r', at + 1))
    } else if letter == LOWER_T {
        Ok(('\t', at + 1))
    } else if letter == LOWER_U {
        if at + 5 > s.len() {
            Err((ErrorKind::InvalidUnicodeEscape, at + 1))
        } else if !(hex_digit(s[at + 1]) && hex_digit(s[at + 2]) && hex_digit(s[at + 3])
            && hex_digit(s[at + 4])) {
            Err((ErrorKind::InvalidUnicodeEscape, at + 1))
        } else if surrogate(code_unit(s, at + 1)) {
            Err((ErrorKind::InvalidUnicodeEscape, at + 5))
        } else {
            Ok((code_unit(s, at + 1) as char, at + 5))
        }
    } else {
        Err((ErrorKind::UnknownEscape, at + 1))
    }
}

/// The rest of a quoted string, from `at` on, after `text` has been read of
/// it: up to the next byte `close` that no backslash precedes. A byte that is
/// neither `close` nor a backslash stands for the character with its code.
pub open spec fn quoted(s: Seq<u8>, at: int, close: u8, text: Seq<char>) -> Scan<Seq<char>>
    decreases s.len() - at,
{
    if at < 0 || at >= s.len() {
        Err((ErrorKind::UnterminatedString, at))
    } else if s[at] == close {
        Ok((text, at + 1))
    } else if s[at] == BACKSLASH {
        if at + 1 >= s.len() {
            Err((ErrorKind::InvalidEscape, at + 1))
        } else {
            match escape(s, at + 1, s[at + 1]) {
                Ok((c, next)) => quoted(s, next, close, text.push(c)),
                Err(e) => Err(e),
            }
        }
    } else {
        quoted(s, at + 1, close, text.push(s[at] as char))
    }
}

/// The bare string at `at`: the token there, read as UTF-8 and trimmed. It
/// may not come out empty.
pub open spec fn unquoted(s: Seq<u8>, at: int) -> Scan<Seq<char>> {
    let end = token_end(s, at);
    let text = trimmed(decode_utf8(s.subrange(at, end)));
    if text.len() == 0 {
        Err((ErrorKind::EmptyString, end))
    } else {
        Ok((text, end))
    }
}

/// The string at `at`: a quoted one where a quote stands there, else a bare
/// one.
pub open spec fn string_like(s: Seq<u8>, at: int) -> Scan<Seq<char>> {
    if 0 <= at < s.len() && quote(s[at]) {
        quoted(s, at + 1, s[at], Seq::empty())
    } else {
        unquoted(s, at)
    }
}

/// The bytes of `true`.
pub open spec fn word_true() -> Seq<u8> {
    seq![LOWER_T, LOWER_R, LOWER_U, LOWER_E]
}

/// The bytes of `false`.
pub open spec fn word_false() -> Seq<u8> {
    seq![LOWER_F, LOWER_A, LOWER_L, LOWER_S, LOWER_E]
}

/// The bytes of `null`.
pub open spec fn word_null() -> Seq<u8> {
    seq![LOWER_N, LOWER_U, LOWER_L, LOWER_L]
}

/// Whether `word` stands at `at` and ends the token there.
pub open spec fn keyword(s: Seq<u8>, at: int, word: Seq<u8>) -> bool {
    &&& 0 <= at
    &&& at + word.len() <= s.len()
    &&& s.subrange(at, at + word.len()) == word
    &&& token_boundary(s, at + word.len())
}

/// The date at `at`: the stamp in the twenty-three bytes from there, if
/// they write one and the token ends after them.
pub open spec fn date(s: Seq<u8>, at: int) -> Option<Date> {
    if 0 <= at && at + STAMP_LENGTH <= s.len() && token_boundary(s, at + STAMP_LENGTH) {
        stamp_reading(s.subrange(at, at + STAMP_LENGTH))
    } else {
        None
    }
}

/// The number at `at`: the run of number bytes there, which must end the
/// token, be a numeral, and lie within the range of a double.
pub open spec fn number(s: Seq<u8>, at: int) -> Scan<Tree> {
    let end = number_end(s, at);
    let text = s.subrange(at, end);
    if !token_boundary(s, end) {
        Err((ErrorKind::InvalidNumberBoundary, end))
    } else if !numeral(text) {
        Err((ErrorKind::InvalidNumber, end))
    } else if !within_double(text) {
        Err((ErrorKind::NonFiniteNumber, end))
    } else {
        Ok((Tree::Number(text), end))
    }
}

/// The value at `at`, after any whitespace: what its first byte announces.
///
/// The grammar never goes back in the text (`laws::lemma_value_advances`). Where
/// `value`, `object`, `array`, `members` and `items` compare a position with
/// the one they started from, they only let the definitions be seen to end.
pub open spec fn value(s: Seq<u8>, at: int) -> Scan<Tree>
    decreases s.len() - at, 0int,
{
    let start = skip_blank(s, at);
    if start < at || start >= s.len() {
        Err((ErrorKind::UnexpectedEnd, start))
    } else if s[start] == OPEN_PAREN {
        object(s, start + 1)
    } else if s[start] == OPEN_BRACKET {
        array(s, start + 1)
    } else if quote(s[start]) {
        match quoted(s, start + 1, s[start], Seq::empty()) {
            Ok((text, next)) => Ok((Tree::Text(text), next)),
            Err(e) => Err(e),
        }
    } else if s[start] == MINUS || digit(s[start]) {
        match date(s, start) {
            Some(d) => Ok((Tree::Date(d), start + STAMP_LENGTH)),
            None => number(s, start),
        }
    } else if keyword(s, start, word_true()) {
        Ok((Tree::Bool(true), start + 4))
    } else if keyword(s, start, word_false()) {
        Ok((Tree::Bool(false), start + 5))
    } else if keyword(s, start, word_null()) {
        Ok((Tree::Null, start + 4))
    } else {
        match unquoted(s, start) {
            Ok((text, next)) => Ok((Tree::Text(text), next)),
            Err(e) => Err(e),
        }
    }
}

/// The object whose `(` stands before `at`: no entries where `)` follows,
/// else the entries up to `)`.
pub open spec fn object(s: Seq<u8>, at: int) -> Scan<Tree>
    decreases s.len() - at, 2int,
{
    let inside = skip_blank(s, at);
    if 0 <= inside < s.len() && s[inside] == CLOSE_PAREN {
        Ok((Tree::Object(Seq::empty()), inside + 1))
    } else if inside < at || inside > s.len() {
        Err((ErrorKind::UnexpectedEnd, inside))
    } else {
        members(s, inside, Seq::empty())
    }
}

/// The array whose `[` stands before `at`: no items where `]` follows, else
/// the items up to `]`.
pub open spec fn array(s: Seq<u8>, at: int) -> Scan<Tree>
    decreases s.len() - at, 2int,
{
    let inside = skip_blank(s, at);
    if 0 <= inside < s.len() && s[inside] == CLOSE_BRACKET {
        Ok((Tree::Array(Seq::empty()), inside + 1))
    } else if inside < at || inside > s.len() {
        Err((ErrorKind::UnexpectedEnd, inside))
    } else {
        items(s, inside, Seq::empty())
    }
}

/// The entries of an object from `at` on, after `entries` have been read of
/// it: a key, `:`, a value, and then `,` and more entries, or `)`. A key
/// that comes again takes the place of the earlier one.
pub open spec fn members(s: Seq<u8>, at: int, entries: Seq<(Seq<char>, Tree)>) -> Scan<Tree>
    decreases s.len() - at, 1int,
{
    let start = skip_blank(s, at);
    match string_like(s, start) {
        Err(e) => Err(e),
        Ok((key, after_key)) => {
            let colon = skip_blank(s, after_key);
            if colon < at || colon >= s.len() || s[colon] != COLON {
                Err((ErrorKind::ExpectedColon, colon))
            } else {
                match value(s, colon + 1) {
                    Err(e) => Err(e),
                    Ok((v, after_value)) => {
                        let mark = skip_blank(s, after_value);
                        if mark < at || mark >= s.len() {
                            Err((ErrorKind::ExpectedCommaOrClose, mark))
                        } else if s[mark] == COMMA {
                            members(s, mark + 1, put(entries, key, v))
                        } else if s[mark] == CLOSE_PAREN {
                            Ok((Tree::Object(put(entries, key, v)), mark + 1))
                        } else {
                            Err((ErrorKind::ExpectedCommaOrClose, mark))
                        }
                    },
                }
            }
        },
    }
}

/// The items of an array from `at` on, after `read` have been read of it: a
/// value, and then `|` and more items, or `]`.
pub open spec fn items(s: Seq<u8>, at: int, read: Seq<Tree>) -> Scan<Tree>
    decreases s.len() - at, 1int,
{
    if at < 0 {
        Err((ErrorKind::UnexpectedEnd, at))
    } else {
        match value(s, at) {
            Err(e) => Err(e),
            Ok((v, after_value)) => {
                let mark = skip_blank(s, after_value);
                if mark < at || mark >= s.len() {
                    Err((ErrorKind::ExpectedPipeOrClose, mark))
                } else if s[mark] == PIPE {
                    items(s, mark + 1, read.push(v))
                } else if s[mark] == CLOSE_BRACKET {
                    Ok((Tree::Array(read.push(v)), mark + 1))
                } else {
                    Err((ErrorKind::ExpectedPipeOrClose, mark))
                }
            },
        }
    }
}

/// What the text with the bytes `s` means: one value, with nothing but
/// whitespace around it.
pub open spec fn document(s: Seq<u8>) -> Result<Tree, (ErrorKind, int)> {
    match value(s, 0) {
        Err(e) => Err(e),
        Ok((v, next)) => {
            let rest = skip_blank(s, next);
            if rest < s.len() {
                Err((ErrorKind::TrailingContent, rest))
            } else {
                Ok(v)
            }
        },
    }
}

/// Skipping whitespace goes forward, over whitespace only, and stops before
/// anything else.
pub proof fn lemma_skip_blank(s: Seq<u8>, at: int)
    requires
        0 <= at <= s.len(),
    ensures
        at <= skip_blank(s, at) <= s.len(),
        forall|i: int| at <= i < skip_blank(s, at) ==> whitespace(#[trigger] s[i]),
        skip_blank(s, at) < s.len() ==> !whitespace(s[skip_blank(s, at)]),
        skip_blank(s, skip_blank(s, at)) == skip_blank(s, at),
    decreases s.len() - at,
{
    if at < s.len() && whitespace(s[at]) {
        lemma_skip_blank(s, at + 1);
    }
}

/// A bare token runs up to the first delimiter or whitespace.
pub proof fn lemma_token_end(s: Seq<u8>, at: int)
    requires
        0 <= at <= s.len(),
    ensures
        at <= token_end(s, at) <= s.len(),
        forall|i: int|
            at <= i < token_end(s, at) ==> !delimiter(#[trigger] s[i]) && !whitespace(s[i]),
        token_boundary(s, token_end(s, at)),
    decreases s.len() - at,
{
    if at < s.len() && !delimiter(s[at]) && !whitespace(s[at]) {
        lemma_token_end(s, at + 1);
    }
}

/// A run of number bytes holds nothing else, and stops before anything else.
pub proof fn lemma_number_end(s: Seq<u8>, at: int)
    requires
        0 <= at <= s.len(),
    ensures
        at <= number_end(s, at) <= s.len(),
        forall|i: int| at <= i < number_end(s, at) ==> number_byte(#[trigger] s[i]),
        number_end(s, at) < s.len() ==> !number_byte(s[number_end(s, at)]),
    decreases s.len() - at,
{
    if at < s.len() && number_byte(s[at]) {
        lemma_number_end(s, at + 1);
    }
}

} // verus!
