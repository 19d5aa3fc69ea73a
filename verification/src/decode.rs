//! The decoder: a cursor over the bytes of a text that reads one value after
//! the grammar, or stops at the first failure.

use crate::date::{Date, STAMP_LENGTH};
use crate::error::{Error, ErrorKind};
use crate::grammar::{
    array, date, document, escape, hex_digit, hex_value, items, keyword, lemma_skip_blank,
    members, number, number_end, object, quoted, skip_blank, string_like, token_end, unquoted,
    value, word_false, word_null, word_true, Scan,
};
use crate::laws::{lemma_document_well_formed, lemma_failure_within};
use crate::lexis::{
    digit, is_delimiter, is_digit, is_number_byte, is_quote, is_whitespace, APOSTROPHE,
    BACKSLASH, CLOSE_BRACKET, CLOSE_PAREN, COLON, COMMA, DOUBLE_QUOTE, LOWER_A, LOWER_B, LOWER_E,
    LOWER_F, LOWER_L, LOWER_N, LOWER_R, LOWER_S, LOWER_T, LOWER_U, MINUS, OPEN_BRACKET,
    OPEN_PAREN, PIPE, SLASH,
};
use crate::number::{fits_double, is_numeral, Number};
use crate::text::{lemma_boundary_after_ascii, lemma_boundary_at, slice_text};
use crate::value::{well_formed, Object, Tree, Value};
use vstd::prelude::*;
use vstd::slice::slice_subrange;
use vstd::string::StringSliceAdditionalSpecFns;
use vstd::utf8::{is_char_boundary, valid_utf8};

verus! {

/// Whether `result`, with the cursor left at `position`, is the text that
/// the grammar reads, or the failure that it finds.
pub open spec fn text_outcome(
    scan: Scan<Seq<char>>,
    result: Result<String, Error>,
    position: int,
) -> bool {
    match scan {
        Ok((text, next)) => result matches Ok(s) && s@ == text && position == next,
        Err((kind, at)) => result matches Err(e) && e.reports(kind, at) && position == at,
    }
}

/// Whether `result`, with the cursor left at `position`, is the character
/// that the grammar reads, or the failure that it finds.
pub open spec fn char_outcome(scan: Scan<char>, result: Result<char, Error>, position: int) -> bool {
    match scan {
        Ok((c, next)) => result == Ok::<char, Error>(c) && position == next,
        Err((kind, at)) => result matches Err(e) && e.reports(kind, at) && position == at,
    }
}

/// Whether `result`, with the cursor left at `position`, is the value that
/// the grammar reads, or the failure that it finds.
pub open spec fn value_outcome(
    scan: Scan<Tree>,
    result: Result<Value, Error>,
    position: int,
) -> bool {
    match scan {
        Ok((tree, next)) => result matches Ok(v) && v@ == tree && position == next,
        Err((kind, at)) => result matches Err(e) && e.reports(kind, at) && position == at,
    }
}

/// A cursor over the bytes of a text.
pub struct Parser<'a> {
    text: &'a str,
    input: &'a [u8],
    len: usize,
    pos: usize,
}

impl<'a> Parser<'a> {
    /// The cursor stands within the bytes of its text, or at their end.
    #[verifier::type_invariant]
    pub closed spec fn sound(&self) -> bool {
        &&& self.input@ == self.text.spec_bytes()
        &&& self.len == self.input@.len()
        &&& self.pos <= self.len
    }

    /// The bytes of the text.
    pub closed spec fn bytes(&self) -> Seq<u8> {
        self.input@
    }

    /// The offset at which the cursor stands.
    pub closed spec fn position(&self) -> int {
        self.pos as int
    }

    /// What holds of every cursor: it stands within the bytes of its text or
    /// at their end, and the bytes are valid UTF-8.
    pub open spec fn in_text(&self) -> bool {
        0 <= self.position() <= self.bytes().len() && valid_utf8(self.bytes())
    }

    /// Whether the cursor stands where a character starts, or at the end.
    pub open spec fn at_boundary(&self) -> bool {
        is_char_boundary(self.bytes(), self.position())
    }

    /// A cursor at the start of `input`.
    pub fn new(input: &'a str) -> (r: Self)
        ensures
            r.bytes() == input.spec_bytes(),
            r.position() == 0,
            r.in_text(),
            r.at_boundary(),
    {
        proof {
            vstd::utf8::encode_utf8_valid_utf8(input@);
            vstd::utf8::is_char_boundary_start_end_of_seq(input.spec_bytes());
        }
        let bytes = input.as_bytes();
        Parser { text: input, input: bytes, len: bytes.len(), pos: 0 }
    }

    /// Whether the cursor stands at the end of the text.
    pub fn is_end(&self) -> (r: bool)
        ensures
            r == (self.position() >= self.bytes().len()),
            self.in_text(),
            r ==> self.at_boundary(),
    {
        proof {
            use_type_invariant(self);
            vstd::utf8::encode_utf8_valid_utf8(self.text@);
            vstd::utf8::is_char_boundary_start_end_of_seq(self.input@);
        }
        self.pos >= self.len
    }

    /// The byte under the cursor.
    pub fn peek(&self) -> (r: Option<u8>)
        ensures
            r == if self.position() < self.bytes().len() {
                Some(self.bytes()[self.position()])
            } else {
                None
            },
            self.in_text(),
    {
        proof {
            use_type_invariant(self);
            vstd::utf8::encode_utf8_valid_utf8(self.text@);
        }
        if self.pos >= self.len {
            None
        } else {
            Some(self.input[self.pos])
        }
    }

    /// Moves the cursor `count` bytes on.
    pub fn advance(&mut self, count: usize)
        requires
            old(self).position() + count <= old(self).bytes().len(),
        ensures
            final(self).bytes() == old(self).bytes(),
            final(self).in_text(),
            final(self).position() == old(self).position() + count,
            count > 0 && old(self).bytes()[old(self).position() + count - 1] < 0x80
                ==> final(self).at_boundary(),
    {
        proof {
            use_type_invariant(&*self);
            vstd::utf8::encode_utf8_valid_utf8(self.text@);
            if count > 0 && self.input@[self.pos + count - 1] < 0x80 {
                lemma_boundary_after_ascii(self.input@, self.pos + count - 1);
            }
        }
        self.pos = self.pos + count;
    }

    /// Moves the cursor over whitespace.
    pub fn skip_whitespace(&mut self)
        ensures
            final(self).bytes() == old(self).bytes(),
            final(self).in_text(),
            final(self).position() == skip_blank(old(self).bytes(), old(self).position()),
            old(self).position() <= final(self).position() <= old(self).bytes().len(),
            old(self).at_boundary() ==> final(self).at_boundary(),
    {
        proof {
            use_type_invariant(&*self);
            vstd::utf8::encode_utf8_valid_utf8(self.text@);
        }
        let ghost start = self.pos;
        while self.pos < self.len && is_whitespace(self.input[self.pos])
            invariant
                self.sound(),
                self.input@ == old(self).input@,
                valid_utf8(self.input@),
                start <= self.pos,
                skip_blank(self.input@, start as int) == skip_blank(self.input@, self.pos as int),
                is_char_boundary(self.input@, start as int) ==> is_char_boundary(
                    self.input@,
                    self.pos as int,
                ),
            decreases self.len - self.pos,
        {
            proof {
                lemma_boundary_after_ascii(self.input@, self.pos as int);
            }
            self.pos = self.pos + 1;
        }
    }

    /// The error with `message` at the cursor.
    pub fn error(&self, message: &str) -> (r: Error)
        ensures
            r.message@ == message@,
            r.position == self.position(),
            self.in_text(),
    {
        proof {
            use_type_invariant(self);
            vstd::utf8::encode_utf8_valid_utf8(self.text@);
        }
        Error { message: message.to_owned(), position: self.pos }
    }

    /// The error of kind `kind` at the cursor.
    fn fail(&self, kind: ErrorKind) -> (r: Error)
        ensures
            r.reports(kind, self.position()),
    {
        self.error(kind.text())
    }

    /// Reads the value under the cursor.
    pub fn parse_value(&mut self) -> (r: Result<Value, Error>)
        requires
            old(self).at_boundary(),
        ensures
            final(self).bytes() == old(self).bytes(),
            final(self).in_text(),
            r is Ok ==> final(self).at_boundary(),
            old(self).position() <= final(self).position(),
            value_outcome(value(old(self).bytes(), old(self).position()), r, final(self).position()),
        decreases old(self).bytes().len() - old(self).position(), 1int,
    {
        proof {
            use_type_invariant(&*self);
            vstd::utf8::encode_utf8_valid_utf8(self.text@);
        }
        self.skip_whitespace();
        proof {
            use_type_invariant(&*self);
        }
        if self.pos >= self.len {
            return Err(self.fail(ErrorKind::UnexpectedEnd));
        }
        let ch = self.input[self.pos];
        if ch == OPEN_PAREN {
            self.parse_object()
        } else if ch == OPEN_BRACKET {
            self.parse_array()
        } else if is_quote(ch) {
            match self.parse_quoted_string() {
                Ok(text) => Ok(Value::String(text)),
                Err(e) => Err(e),
            }
        } else if ch == MINUS || is_digit(ch) {
            let stamp = self.try_parse_datetime();
            proof {
                use_type_invariant(&*self);
            }
            match stamp {
                Ok(Some(d)) => Ok(Value::Date(d)),
                Ok(None) => self.parse_number(),
                Err(e) => Err(e),
            }
        } else {
            let word: [u8; 4] = [LOWER_T, LOWER_R, LOWER_U, LOWER_E];
            assert(word@ =~= word_true());
            if let Some(v) = self.match_keyword(word.as_slice()) {
                return Ok(v);
            }
            let word: [u8; 5] = [LOWER_F, LOWER_A, LOWER_L, LOWER_S, LOWER_E];
            assert(word@ =~= word_false());
            if let Some(v) = self.match_keyword(word.as_slice()) {
                return Ok(v);
            }
            let word: [u8; 4] = [LOWER_N, LOWER_U, LOWER_L, LOWER_L];
            assert(word@ =~= word_null());
            if let Some(v) = self.match_keyword(word.as_slice()) {
                return Ok(v);
            }
            match self.parse_unquoted_string() {
                Ok(text) => Ok(Value::String(text)),
                Err(e) => Err(e),
            }
        }
    }

    /// Reads the object whose `(` is under the cursor.
    #[verifier::rlimit(50)]
    pub fn parse_object(&mut self) -> (r: Result<Value, Error>)
        requires
            old(self).position() < old(self).bytes().len(),
            old(self).bytes()[old(self).position()] == OPEN_PAREN,
        ensures
            final(self).bytes() == old(self).bytes(),
            final(self).in_text(),
            r is Ok ==> final(self).at_boundary(),
            old(self).position() < final(self).position(),
            value_outcome(
                object(old(self).bytes(), old(self).position() + 1),
                r,
                final(self).position(),
            ),
        decreases old(self).bytes().len() - old(self).position(), 0int,
    {
        proof {
            use_type_invariant(&*self);
            vstd::utf8::encode_utf8_valid_utf8(self.text@);
            lemma_boundary_after_ascii(self.input@, self.pos as int);
        }
        let ghost s = self.input@;
        let ghost open = self.pos as int;
        self.pos = self.pos + 1;
        let mut map = Object::new();
        self.skip_whitespace();
        proof {
            use_type_invariant(&*self);
        }
        if self.pos < self.len && self.input[self.pos] == CLOSE_PAREN {
            proof {
                lemma_boundary_after_ascii(s, self.pos as int);
            }
            self.pos = self.pos + 1;
            return Ok(Value::Object(map));
        }
        loop
            invariant
                self.sound(),
                self.input@ == s,
                s == old(self).input@,
                open == old(self).pos,
                valid_utf8(s),
                open < self.pos,
                is_char_boundary(s, self.pos as int),
                object(s, open + 1) == members(s, self.pos as int, map@),
            decreases s.len() - self.pos,
        {
            let ghost at = self.pos as int;
            proof {
                lemma_skip_blank(s, at);
            }
            self.skip_whitespace();
            proof {
                use_type_invariant(&*self);
            }
            let key = match self.parse_string_like() {
                Ok(key) => key,
                Err(e) => {
                    return Err(e);
                },
            };
            proof {
                use_type_invariant(&*self);
                lemma_skip_blank(s, self.pos as int);
            }
            self.skip_whitespace();
            proof {
                use_type_invariant(&*self);
            }
            if !(self.pos < self.len && self.input[self.pos] == COLON) {
                return Err(self.fail(ErrorKind::ExpectedColon));
            }
            proof {
                lemma_boundary_after_ascii(s, self.pos as int);
            }
            self.pos = self.pos + 1;
            let v = match self.parse_value() {
                Ok(v) => v,
                Err(e) => {
                    return Err(e);
                },
            };
            proof {
                use_type_invariant(&*self);
            }
            map.insert(key, v);
            proof {
                lemma_skip_blank(s, self.pos as int);
            }
            self.skip_whitespace();
            proof {
                use_type_invariant(&*self);
            }
            if self.pos >= self.len {
                return Err(self.fail(ErrorKind::ExpectedCommaOrClose));
            }
            let mark = self.input[self.pos];
            if mark == COMMA {
                proof {
                    lemma_boundary_after_ascii(s, self.pos as int);
                }
                self.pos = self.pos + 1;
            } else if mark == CLOSE_PAREN {
                proof {
                    lemma_boundary_after_ascii(s, self.pos as int);
                }
                self.pos = self.pos + 1;
                return Ok(Value::Object(map));
            } else {
                return Err(self.fail(ErrorKind::ExpectedCommaOrClose));
            }
        }
    }

    /// Reads the array whose `[` is under the cursor.
    #[verifier::rlimit(50)]
    pub fn parse_array(&mut self) -> (r: Result<Value, Error>)
        requires
            old(self).position() < old(self).bytes().len(),
            old(self).bytes()[old(self).position()] == OPEN_BRACKET,
        ensures
            final(self).bytes() == old(self).bytes(),
            final(self).in_text(),
            r is Ok ==> final(self).at_boundary(),
            old(self).position() < final(self).position(),
            value_outcome(
                array(old(self).bytes(), old(self).position() + 1),
                r,
                final(self).position(),
            ),
        decreases old(self).bytes().len() - old(self).position(), 0int,
    {
        proof {
            use_type_invariant(&*self);
            vstd::utf8::encode_utf8_valid_utf8(self.text@);
            lemma_boundary_after_ascii(self.input@, self.pos as int);
        }
        let ghost s = self.input@;
        let ghost open = self.pos as int;
        self.pos = self.pos + 1;
        let mut read: Vec<Value> = Vec::new();
        self.skip_whitespace();
        proof {
            use_type_invariant(&*self);
        }
        if self.pos < self.len && self.input[self.pos] == CLOSE_BRACKET {
            proof {
                lemma_boundary_after_ascii(s, self.pos as int);
            }
            self.pos = self.pos + 1;
            let r = Value::Array(read);
            assert(r@->Array_0 =~= Seq::<Tree>::empty());
            return Ok(r);
        }
        let ghost mut trees: Seq<Tree> = Seq::empty();
        loop
            invariant
                self.sound(),
                self.input@ == s,
                s == old(self).input@,
                open == old(self).pos,
                valid_utf8(s),
                open < self.pos,
                is_char_boundary(s, self.pos as int),
                trees.len() == read@.len(),
                forall|i: int| 0 <= i < trees.len() ==> read@[i]@ == trees[i],
                array(s, open + 1) == items(s, self.pos as int, trees),
            decreases s.len() - self.pos,
        {
            let v = match self.parse_value() {
                Ok(v) => v,
                Err(e) => {
                    return Err(e);
                },
            };
            proof {
                use_type_invariant(&*self);
                trees = trees.push(v@);
                lemma_skip_blank(s, self.pos as int);
            }
            read.push(v);
            self.skip_whitespace();
            proof {
                use_type_invariant(&*self);
            }
            if self.pos >= self.len {
                return Err(self.fail(ErrorKind::ExpectedPipeOrClose));
            }
            let mark = self.input[self.pos];
            if mark == PIPE {
                proof {
                    lemma_boundary_after_ascii(s, self.pos as int);
                }
                self.pos = self.pos + 1;
            } else if mark == CLOSE_BRACKET {
                proof {
                    lemma_boundary_after_ascii(s, self.pos as int);
                }
                self.pos = self.pos + 1;
                let r = Value::Array(read);
                assert(r@->Array_0 =~= trees);
                return Ok(r);
            } else {
                return Err(self.fail(ErrorKind::ExpectedPipeOrClose));
            }
        }
    }

    /// Reads the string under the cursor, quoted or bare.
    pub fn parse_string_like(&mut self) -> (r: Result<String, Error>)
        requires
            old(self).at_boundary(),
        ensures
            final(self).bytes() == old(self).bytes(),
            final(self).in_text(),
            r is Ok ==> final(self).at_boundary(),
            old(self).position() <= final(self).position(),
            text_outcome(
                string_like(old(self).bytes(), old(self).position()),
                r,
                final(self).position(),
            ),
    {
        proof {
            use_type_invariant(&*self);
        }
        if self.pos < self.len && is_quote(self.input[self.pos]) {
            self.parse_quoted_string()
        } else {
            self.parse_unquoted_string()
        }
    }

    /// Reads the quoted string whose opening quote is under the cursor. The
    /// byte under the cursor is taken for the quote, whatever it is.
    pub fn parse_quoted_string(&mut self) -> (r: Result<String, Error>)
        requires
            old(self).position() < old(self).bytes().len(),
        ensures
            final(self).bytes() == old(self).bytes(),
            final(self).in_text(),
            r is Ok && old(self).bytes()[old(self).position()] < 0x80 ==> final(self).at_boundary(),
            old(self).position() < final(self).position(),
            text_outcome(
                quoted(
                    old(self).bytes(),
                    old(self).position() + 1,
                    old(self).bytes()[old(self).position()],
                    Seq::empty(),
                ),
                r,
                final(self).position(),
            ),
    {
        proof {
            use_type_invariant(&*self);
            vstd::utf8::encode_utf8_valid_utf8(self.text@);
        }
        let ghost s = self.input@;
        let ghost open = self.pos as int;
        let close = self.input[self.pos];
        self.pos = self.pos + 1;
        let mut result = String::new();
        loop
            invariant
                self.sound(),
                self.input@ == s,
                s == old(self).input@,
                open == old(self).pos,
                open < self.pos,
                valid_utf8(s),
                close == s[open],
                quoted(s, open + 1, close, Seq::empty()) == quoted(s, self.pos as int, close, result@),
            decreases s.len() - self.pos,
        {
            if self.pos >= self.len {
                return Err(self.fail(ErrorKind::UnterminatedString));
            }
            let ch = self.input[self.pos];
            if ch == close {
                proof {
                    if close < 0x80 {
                        lemma_boundary_after_ascii(s, self.pos as int);
                    }
                }
                self.pos = self.pos + 1;
                return Ok(result);
            }
            if ch == BACKSLASH {
                self.pos = self.pos + 1;
                if self.pos >= self.len {
                    return Err(self.fail(ErrorKind::InvalidEscape));
                }
                let escaped = self.input[self.pos];
                match self.parse_escape(escaped) {
                    Ok(c) => {
                        result.push(c);
                    },
                    Err(e) => {
                        return Err(e);
                    },
                }
                proof {
                    use_type_invariant(&*self);
                }
            } else {
                result.push(ch as char);
                self.pos = self.pos + 1;
            }
        }
    }

    /// Reads the escape whose letter `escape` is under the cursor, after the
    /// backslash.
    pub fn parse_escape(&mut self, escape: u8) -> (r: Result<char, Error>)
        requires
            old(self).position() < old(self).bytes().len(),
        ensures
            final(self).bytes() == old(self).bytes(),
            final(self).in_text(),
            r is Ok && old(self).bytes()[old(self).position()] < 0x80 ==> final(self).at_boundary(),
            old(self).position() < final(self).position(),
            char_outcome(
                crate::grammar::escape(old(self).bytes(), old(self).position(), escape),
                r,
                final(self).position(),
            ),
    {
        proof {
            use_type_invariant(&*self);
            vstd::utf8::encode_utf8_valid_utf8(self.text@);
            if self.input@[self.pos as int] < 0x80 {
                lemma_boundary_after_ascii(self.input@, self.pos as int);
            }
        }
        self.pos = self.pos + 1;
        if escape == DOUBLE_QUOTE {
            Ok('"')
        } else if escape == APOSTROPHE {
            Ok('\'')
        } else if escape == BACKSLASH {
            Ok('\\')
        } else if escape == SLASH {
            Ok('/')
        } else if escape == LOWER_B {
            Ok('\u{8}')
        } else if escape == LOWER_F {
            Ok('\u{c}')
        } else if escape == LOWER_N {
            Ok('\n')
        } else if escape == LOWER_R {
            Ok('\r')
        } else if escape == LOWER_T {
            Ok('\t')
        } else if escape == LOWER_U {
            if self.len - self.pos < 4 {
                return Err(self.fail(ErrorKind::InvalidUnicodeEscape));
            }
            let a = hex_digit_value(self.input[self.pos]);
            let b = hex_digit_value(self.input[self.pos + 1]);
            let c = hex_digit_value(self.input[self.pos + 2]);
            let d = hex_digit_value(self.input[self.pos + 3]);
            match (a, b, c, d) {
                (Some(a), Some(b), Some(c), Some(d)) => {
                    let code: u32 = a * 4096 + b * 256 + c * 16 + d;
                    proof {
                        lemma_boundary_after_ascii(self.input@, self.pos + 3);
                    }
                    self.pos = self.pos + 4;
                    match char::from_u32(code) {
                        Some(ch) => Ok(ch),
                        None => Err(self.fail(ErrorKind::InvalidUnicodeEscape)),
                    }
                },
                _ => Err(self.fail(ErrorKind::InvalidUnicodeEscape)),
            }
        } else {
            Err(self.fail(ErrorKind::UnknownEscape))
        }
    }

    /// Reads the bare string under the cursor.
    pub fn parse_unquoted_string(&mut self) -> (r: Result<String, Error>)
        requires
            old(self).at_boundary(),
        ensures
            final(self).bytes() == old(self).bytes(),
            final(self).in_text(),
            final(self).at_boundary(),
            old(self).position() <= final(self).position(),
            text_outcome(
                unquoted(old(self).bytes(), old(self).position()),
                r,
                final(self).position(),
            ),
    {
        proof {
            use_type_invariant(&*self);
            vstd::utf8::encode_utf8_valid_utf8(self.text@);
        }
        let start = self.pos;
        while self.pos < self.len && !is_delimiter(self.input[self.pos]) && !is_whitespace(
            self.input[self.pos],
        )
            invariant
                self.sound(),
                self.input@ == old(self).input@,
                self.text == old(self).text,
                valid_utf8(self.input@),
                start <= self.pos,
                token_end(self.input@, start as int) == token_end(self.input@, self.pos as int),
            decreases self.len - self.pos,
        {
            self.pos = self.pos + 1;
        }
        proof {
            lemma_boundary_at(self.input@, self.pos as int);
        }
        let run = slice_text(self.text, start, self.pos);
        let trimmed = run.trim();
        if trimmed.is_empty() {
            return Err(self.fail(ErrorKind::EmptyString));
        }
        Ok(trimmed.to_owned())
    }

    /// Reads the number under the cursor.
    pub fn parse_number(&mut self) -> (r: Result<Value, Error>)
        requires
            old(self).position() < old(self).bytes().len(),
            old(self).bytes()[old(self).position()] == MINUS || digit(
                old(self).bytes()[old(self).position()],
            ),
        ensures
            final(self).bytes() == old(self).bytes(),
            final(self).in_text(),
            final(self).at_boundary(),
            old(self).position() < final(self).position(),
            value_outcome(number(old(self).bytes(), old(self).position()), r, final(self).position()),
    {
        proof {
            use_type_invariant(&*self);
            vstd::utf8::encode_utf8_valid_utf8(self.text@);
        }
        let start = self.pos;
        while self.pos < self.len && is_number_byte(self.input[self.pos])
            invariant
                self.sound(),
                self.input@ == old(self).input@,
                valid_utf8(self.input@),
                start <= self.pos,
                start == old(self).pos,
                start < self.len,
                self.input@[start as int] == MINUS || digit(self.input@[start as int]),
                start < self.pos ==> self.input@[self.pos - 1] < 0x80,
                number_end(self.input@, start as int) == number_end(self.input@, self.pos as int),
            decreases self.len - self.pos,
        {
            self.pos = self.pos + 1;
        }
        let end = self.pos;
        proof {
            assert(start < end);
            lemma_boundary_after_ascii(self.input@, end - 1);
        }
        if end < self.len && !is_delimiter(self.input[end]) && !is_whitespace(self.input[end]) {
            return Err(self.fail(ErrorKind::InvalidNumberBoundary));
        }
        let text = slice_subrange(self.input, start, end);
        if !is_numeral(text) {
            return Err(self.fail(ErrorKind::InvalidNumber));
        }
        if !fits_double(text) {
            return Err(self.fail(ErrorKind::NonFiniteNumber));
        }
        Ok(Value::Number(Number::from_numeral(text)))
    }

    /// Reads the date under the cursor, if one stands there; else leaves
    /// the cursor where it is.
    pub fn try_parse_datetime(&mut self) -> (r: Result<Option<Date>, Error>)
        ensures
            final(self).bytes() == old(self).bytes(),
            final(self).in_text(),
            r matches Ok(Some(_)) || old(self).at_boundary() ==> final(self).at_boundary(),
            r == Ok::<Option<Date>, Error>(date(old(self).bytes(), old(self).position())),
            final(self).position() == if date(old(self).bytes(), old(self).position()) is Some {
                old(self).position() + STAMP_LENGTH
            } else {
                old(self).position()
            },
    {
        proof {
            use_type_invariant(&*self);
            vstd::utf8::encode_utf8_valid_utf8(self.text@);
        }
        if self.len - self.pos < STAMP_LENGTH {
            return Ok(None);
        }
        let after = self.pos + STAMP_LENGTH;
        if after < self.len && !is_delimiter(self.input[after]) && !is_whitespace(
            self.input[after],
        ) {
            return Ok(None);
        }
        let candidate = slice_subrange(self.input, self.pos, after);
        match Date::read(candidate) {
            Some(d) => {
                proof {
                    assert(candidate@[22] == self.input@[self.pos + 22]);
                    lemma_boundary_after_ascii(self.input@, self.pos + 22);
                }
                self.pos = self.pos + STAMP_LENGTH;
                Ok(Some(d))
            },
            None => Ok(None),
        }
    }

    /// Reads `keyword` under the cursor, if it stands there and ends the
    /// token; else leaves the cursor where it is.
    pub fn match_keyword(&mut self, keyword: &[u8]) -> (r: Option<Value>)
        requires
            keyword@ == word_true() || keyword@ == word_false() || keyword@ == word_null(),
        ensures
            final(self).bytes() == old(self).bytes(),
            final(self).in_text(),
            r is Some || old(self).at_boundary() ==> final(self).at_boundary(),
            crate::grammar::keyword(old(self).bytes(), old(self).position(), keyword@) ==> {
                &&& r matches Some(v)
                &&& v@ == word_value(keyword@)
                &&& final(self).position() == old(self).position() + keyword@.len()
            },
            !crate::grammar::keyword(old(self).bytes(), old(self).position(), keyword@) ==> {
                &&& r is None
                &&& final(self).position() == old(self).position()
            },
    {
        proof {
            use_type_invariant(&*self);
            vstd::utf8::encode_utf8_valid_utf8(self.text@);
        }
        let count = keyword.len();
        if self.len - self.pos < count {
            return None;
        }
        let mut i: usize = 0;
        while i < count
            invariant
                self.sound(),
                self.input@ == old(self).input@,
                self.pos == old(self).pos,
                valid_utf8(self.input@),
                count == keyword@.len(),
                i <= count,
                self.pos + count <= self.len,
                forall|j: int| 0 <= j < i ==> self.input@[self.pos + j] == keyword@[j],
            decreases count - i,
        {
            if self.input[self.pos + i] != keyword[i] {
                proof {
                    let window = self.input@.subrange(self.pos as int, self.pos + count);
                    assert(window[i as int] != keyword@[i as int]);
                }
                return None;
            }
            i += 1;
        }
        proof {
            assert(self.input@.subrange(self.pos as int, self.pos + count) =~= keyword@);
        }
        let end = self.pos + count;
        if end < self.len && !is_delimiter(self.input[end]) && !is_whitespace(self.input[end]) {
            return None;
        }
        proof {
            assert(self.input@[self.pos + (count - 1)] == keyword@[count - 1]);
            assert(keyword@[count - 1] < 0x80);
            lemma_boundary_after_ascii(self.input@, self.pos + count - 1);
        }
        self.pos = self.pos + count;
        if keyword[0] == LOWER_T {
            Some(Value::Bool(true))
        } else if keyword[0] == LOWER_F {
            Some(Value::Bool(false))
        } else {
            Some(Value::Null)
        }
    }
}

/// What a keyword stands for.
pub open spec fn word_value(word: Seq<u8>) -> Tree {
    if word == word_true() {
        Tree::Bool(true)
    } else if word == word_false() {
        Tree::Bool(false)
    } else {
        Tree::Null
    }
}

/// The number that the hexadecimal digit `ch` stands for, if it is one.
pub fn hex_digit_value(ch: u8) -> (r: Option<u32>)
    ensures
        match r {
            Some(v) => hex_digit(ch) && v == hex_value(ch),
            None => !hex_digit(ch),
        },
{
    if 0x30 <= ch && ch <= 0x39 {
        Some((ch - 0x30) as u32)
    } else if 0x41 <= ch && ch <= 0x46 {
        Some((ch - 0x41 + 10) as u32)
    } else if 0x61 <= ch && ch <= 0x66 {
        Some((ch - 0x61 + 10) as u32)
    } else {
        None
    }
}

/// Decodes `input`: the value that the text writes, or the first failure
/// with the byte offset at which it was found.
pub fn parse(input: &str) -> (r: Result<Value, Error>)
    ensures
        match document(input.spec_bytes()) {
            Ok(tree) => r matches Ok(v) && v@ == tree && well_formed(tree),
            Err((kind, at)) => r matches Err(e) && e.reports(kind, at) && 0 <= at
                <= input.spec_bytes().len(),
        },
{
    let mut parser = Parser::new(input);
    proof {
        lemma_document_well_formed(input.spec_bytes());
        lemma_failure_within(input.spec_bytes());
        vstd::utf8::encode_utf8_valid_utf8(input@);
        vstd::utf8::is_char_boundary_start_end_of_seq(input.spec_bytes());
        lemma_skip_blank(input.spec_bytes(), 0);
    }
    parser.skip_whitespace();
    proof {
        lemma_skip_blank(input.spec_bytes(), 0);
    }
    let v = match parser.parse_value() {
        Ok(v) => v,
        Err(e) => {
            return Err(e);
        },
    };
    parser.skip_whitespace();
    if !parser.is_end() {
        return Err(parser.fail(ErrorKind::TrailingContent));
    }
    Ok(v)
}

} // verus!
