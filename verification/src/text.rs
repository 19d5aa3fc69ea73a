//! Text and its bytes: character boundaries in UTF-8, trimming, and what
//! this library takes from the standard library's strings.

use vstd::prelude::*;
use vstd::string::StringSliceAdditionalSpecFns;
use vstd::utf8::{
    decode_utf8, encode_utf8, is_char_boundary, is_continuation_byte, is_scalar, pop_first_scalar,
    valid_first_scalar, valid_utf8,
};

verus! {

/// Whether `c` has the Unicode property White_Space.
pub open spec fn white(c: char) -> bool {
    let code = c as u32;
    ||| 0x09 <= code <= 0x0d
    ||| code == 0x20
    ||| code == 0x85
    ||| code == 0xa0
    ||| code == 0x1680
    ||| 0x2000 <= code <= 0x200a
    ||| code == 0x2028
    ||| code == 0x2029
    ||| code == 0x202f
    ||| code == 0x205f
    ||| code == 0x3000
}

/// `text` without the white space at its start.
pub open spec fn trimmed_start(text: Seq<char>) -> Seq<char>
    decreases text.len(),
{
    if text.len() > 0 && white(text[0]) {
        trimmed_start(text.drop_first())
    } else {
        text
    }
}

/// `text` without the white space at its end.
pub open spec fn trimmed_end(text: Seq<char>) -> Seq<char>
    decreases text.len(),
{
    if text.len() > 0 && white(text.last()) {
        trimmed_end(text.drop_last())
    } else {
        text
    }
}

/// `text` without the white space at its start and at its end.
pub open spec fn trimmed(text: Seq<char>) -> Seq<char> {
    trimmed_end(trimmed_start(text))
}

/// `String::push` appends the character.
pub assume_specification[ std::string::String::push ](s: &mut std::string::String, c: char)
    ensures
        final(s)@ == old(s)@.push(c),
;

/// `String::push_str` appends the text.
pub assume_specification[ std::string::String::push_str ](
    s: &mut std::string::String,
    other: &str,
)
    ensures
        final(s)@ == old(s)@ + other@,
;

/// `str::trim` removes the characters with the property White_Space from
/// both ends.
pub assume_specification[ str::trim ](s: &str) -> (r: &str)
    ensures
        r@ == trimmed(s@),
;

/// `char::from_u32` gives the character with the code `code` where that is
/// a Unicode scalar value, and nothing else.
pub assume_specification[ char::from_u32 ](code: u32) -> (r: Option<char>)
    ensures
        r == if is_scalar(code) {
            Some(code as char)
        } else {
            None::<char>
        },
;

/// In valid UTF-8 a byte below 0x80 is a character of its own: a character
/// starts at it, and one starts, or the text ends, after it.
pub proof fn lemma_boundary_after_ascii(s: Seq<u8>, i: int)
    requires
        valid_utf8(s),
        0 <= i < s.len(),
        s[i] < 0x80,
    ensures
        is_char_boundary(s, i),
        is_char_boundary(s, i + 1),
{
    vstd::utf8::is_char_boundary_iff_not_is_continuation_byte(s, i);
    if i + 1 == s.len() {
        vstd::utf8::is_char_boundary_start_end_of_seq(s);
    } else {
        vstd::utf8::valid_utf8_split(s, i);
        let t = s.subrange(i, s.len() as int);
        assert(valid_utf8(t));
        assert(t[0] == s[i]);
        let rest = pop_first_scalar(t);
        assert(valid_utf8(rest));
        assert(rest[0] == s[i + 1]);
        assert(valid_first_scalar(rest));
        assert(!is_continuation_byte(rest[0]));
        vstd::utf8::is_char_boundary_iff_not_is_continuation_byte(s, i + 1);
    }
}

/// In valid UTF-8 a character starts at every byte below 0x80, and the end
/// of the text is a boundary.
pub proof fn lemma_boundary_at(s: Seq<u8>, i: int)
    requires
        valid_utf8(s),
        0 <= i <= s.len(),
        i < s.len() ==> s[i] < 0x80,
    ensures
        is_char_boundary(s, i),
{
    if i < s.len() {
        vstd::utf8::is_char_boundary_iff_not_is_continuation_byte(s, i);
    } else {
        vstd::utf8::is_char_boundary_start_end_of_seq(s);
    }
}

/// The part of `text` between two character boundaries.
pub fn slice_text<'a>(text: &'a str, from: usize, to: usize) -> (r: &'a str)
    requires
        from <= to <= text.spec_bytes().len(),
        is_char_boundary(text.spec_bytes(), from as int),
        is_char_boundary(text.spec_bytes(), to as int),
    ensures
        r.spec_bytes() == text.spec_bytes().subrange(from as int, to as int),
        r@ == decode_utf8(text.spec_bytes().subrange(from as int, to as int)),
{
    let (head, _) = text.split_at(to);
    proof {
        let b = text.spec_bytes();
        let h = head.spec_bytes();
        vstd::utf8::encode_utf8_valid_utf8(text@);
        vstd::utf8::valid_utf8_split(b, to as int);
        if from < to {
            vstd::utf8::is_char_boundary_iff_not_is_continuation_byte(b, from as int);
            vstd::utf8::is_char_boundary_iff_not_is_continuation_byte(h, from as int);
        } else {
            vstd::utf8::is_char_boundary_start_end_of_seq(h);
        }
    }
    let (_, tail) = head.split_at(from);
    proof {
        assert(tail.spec_bytes() =~= text.spec_bytes().subrange(from as int, to as int));
        vstd::utf8::encode_utf8_decode_utf8(tail@);
    }
    tail
}

} // verus!
