//! Why and where decoding stopped.

use vstd::prelude::*;

verus! {

/// The failures that decoding can end in. Each has one fixed message.
#[derive(Clone, Copy, Debug, PartialEq, Eq)]
pub enum ErrorKind {
    UnexpectedEnd,
    ExpectedColon,
    ExpectedCommaOrClose,
    ExpectedPipeOrClose,
    UnterminatedString,
    InvalidEscape,
    InvalidUnicodeEscape,
    UnknownEscape,
    EmptyString,
    InvalidNumberBoundary,
    InvalidNumber,
    NonFiniteNumber,
    TrailingContent,
}

impl ErrorKind {
    /// The message that an error of this kind carries.
    pub open spec fn message(self) -> Seq<char> {
        match self {
            ErrorKind::UnexpectedEnd => "Unexpected end of input"@,
            ErrorKind::ExpectedColon => "Expected ':' after key"@,
            ErrorKind::ExpectedCommaOrClose => "Expected ',' or ')'"@,
            ErrorKind::ExpectedPipeOrClose => "Expected '|' or ']'"@,
            ErrorKind::UnterminatedString => "Unterminated string literal"@,
            ErrorKind::InvalidEscape => "Invalid escape"@,
            ErrorKind::InvalidUnicodeEscape => "Invalid unicode escape"@,
            ErrorKind::UnknownEscape => "Unknown escape sequence"@,
            ErrorKind::EmptyString => "Empty string value"@,
            ErrorKind::InvalidNumberBoundary => "Invalid number boundary"@,
            ErrorKind::InvalidNumber => "Invalid number"@,
            ErrorKind::NonFiniteNumber => "Non-finite number"@,
            ErrorKind::TrailingContent => "Unexpected trailing content"@,
        }
    }

    pub fn text(self) -> (r: &'static str)
        ensures
            r@ == self.message(),
    {
        match self {
            ErrorKind::UnexpectedEnd => "Unexpected end of input",
            ErrorKind::ExpectedColon => "Expected ':' after key",
            ErrorKind::ExpectedCommaOrClose => "Expected ',' or ')'",
            ErrorKind::ExpectedPipeOrClose => "Expected '|' or ']'",
            ErrorKind::UnterminatedString => "Unterminated string literal",
            ErrorKind::InvalidEscape => "Invalid escape",
            ErrorKind::InvalidUnicodeEscape => "Invalid unicode escape",
            ErrorKind::UnknownEscape => "Unknown escape sequence",
            ErrorKind::EmptyString => "Empty string value",
            ErrorKind::InvalidNumberBoundary => "Invalid number boundary",
            ErrorKind::InvalidNumber => "Invalid number",
            ErrorKind::NonFiniteNumber => "Non-finite number",
            ErrorKind::TrailingContent => "Unexpected trailing content",
        }
    }
}

/// The decimal digits of `n`, most significant first.
pub open spec fn decimal(n: nat) -> Seq<char>
    decreases n,
{
    if n < 10 {
        seq![decimal_digit(n)]
    } else {
        decimal(n / 10).push(decimal_digit(n % 10))
    }
}

/// The character of the digit `d`, for `d` below ten.
pub open spec fn decimal_digit(d: nat) -> char {
    (d + 0x30) as u8 as char
}

/// A decoding failure: what went wrong, and the byte offset in the input at
/// which it was found.
#[derive(Clone, Debug, PartialEq, Eq)]
pub struct Error {
    pub message: String,
    pub position: usize,
}

impl Error {
    /// Whether this is the error of kind `kind` found at offset `at`.
    pub open spec fn reports(&self, kind: ErrorKind, at: int) -> bool {
        self.message@ == kind.message() && self.position == at
    }

    /// The rendering of the error: message, then ` at position `, then the offset.
    pub open spec fn rendering(&self) -> Seq<char> {
        self.message@ + " at position "@ + decimal(self.position as nat)
    }

    /// Renders the error as `<message> at position <offset>`.
    pub fn to_string(&self) -> (r: String)
        ensures
            r@ == self.rendering(),
    {
        let mut digits: Vec<u8> = Vec::new();
        let mut rest: usize = self.position;
        while rest >= 10
            invariant
                forall|i: int| 0 <= i < digits@.len() ==> digits@[i] < 10,
                decimal(self.position as nat) == decimal(rest as nat) + Seq::new(
                    digits@.len(),
                    |i: int| decimal_digit(digits@[digits@.len() - 1 - i] as nat),
                ),
            decreases rest,
        {
            let ghost before = digits@;
            digits.push((rest % 10) as u8);
            let ghost tail_before = Seq::new(
                before.len(),
                |i: int| decimal_digit(before[before.len() - 1 - i] as nat),
            );
            let ghost tail_after = Seq::new(
                digits@.len(),
                |i: int| decimal_digit(digits@[digits@.len() - 1 - i] as nat),
            );
            assert(tail_after =~= seq![decimal_digit((rest % 10) as nat)] + tail_before);
            assert(decimal(rest as nat) == decimal((rest / 10) as nat).push(
                decimal_digit((rest % 10) as nat),
            ));
            assert(decimal((rest / 10) as nat).push(decimal_digit((rest % 10) as nat)) + tail_before
                =~= decimal((rest / 10) as nat) + tail_after);
            rest = rest / 10;
        }
        let mut out = self.message.clone();
        out.push_str(" at position ");
        out.push((rest as u8 + 0x30) as char);
        let ghost head = self.message@ + " at position "@ + seq![decimal_digit(rest as nat)];
        let mut i: usize = digits.len();
        while i > 0
            invariant
                i <= digits@.len(),
                forall|k: int| 0 <= k < digits@.len() ==> digits@[k] < 10,
                out@ == head + Seq::new(
                    (digits@.len() - i) as nat,
                    |k: int| decimal_digit(digits@[digits@.len() - 1 - k] as nat),
                ),
            decreases i,
        {
            let ghost before = out@;
            i = i - 1;
            out.push((digits[i] + 0x30) as char);
            assert(out@ =~= head + Seq::new(
                (digits@.len() - i) as nat,
                |k: int| decimal_digit(digits@[digits@.len() - 1 - k] as nat),
            ));
        }
        assert(out@ =~= self.rendering());
        out
    }
}

} // verus!
