//! What holds of decoding and encoding together.

use crate::date::{fields_of, lemma_stamp_rereads, well_shaped, Date, STAMP_LENGTH};
use crate::encode::{
    bare_key, encoded, entry_text, escaped, escaped_char, joined_entries, joined_items, key_mark,
    key_text, quoted_text,
};
use crate::error::ErrorKind;
use crate::grammar::{
    array, date, document, escape, items, keyword, lemma_number_end, lemma_skip_blank,
    lemma_token_end, members, number, number_end, object, quoted, skip_blank, string_like,
    token_end, unquoted, value, word_false, word_null, word_true,
};
use crate::lexis::{
    delimiter, digit, latin, number_byte, quote, token_boundary, whitespace, APOSTROPHE,
    BACKSLASH, CLOSE_BRACKET, CLOSE_PAREN, COLON, COMMA, MINUS, OPEN_BRACKET, OPEN_PAREN, PIPE,
    SPACE,
};
use crate::number::{digits_end, lemma_digits_end, lemma_parts, number_text, numeral, parts};
use crate::text::{trimmed, white};
use crate::value::{
    ascending, key_before, lemma_put, lemma_rank, put, rank, well_formed, Tree,
};
use vstd::prelude::*;
use vstd::utf8::{
    decode_utf8, encode_scalar, encode_utf8, has_width_1_encoding, is_ascii_chars,
    last_continuation_byte, leading_byte_width_1, leading_byte_width_2, leading_byte_width_3,
    leading_byte_width_4, second_last_continuation_byte, third_last_continuation_byte,
};

verus! {

/// Whether the bytes `w` stand in `s` from `at` on.
pub open spec fn stands(s: Seq<u8>, at: int, w: Seq<u8>) -> bool {
    &&& 0 <= at
    &&& at + w.len() <= s.len()
    &&& forall|i: int| 0 <= i < w.len() ==> s[at + i] == #[trigger] w[i]
}

/// The bytes with the codes of `text`, one for one.
pub open spec fn narrow(text: Seq<char>) -> Seq<u8> {
    Seq::new(text.len(), |i: int| text[i] as u8)
}

/// A byte that may stand in a bare key: no delimiter, no whitespace and no
/// quote.
pub open spec fn name_byte(b: u8) -> bool {
    !delimiter(b) && !whitespace(b) && !quote(b)
}

pub proof fn lemma_stands_parts(s: Seq<u8>, at: int, a: Seq<u8>, b: Seq<u8>)
    ensures
        stands(s, at, a + b) <==> stands(s, at, a) && stands(s, at + a.len(), b),
{
    if stands(s, at, a + b) {
        assert forall|i: int| 0 <= i < a.len() implies s[at + i] == #[trigger] a[i] by {
            assert((a + b)[i] == a[i]);
        }
        assert forall|i: int| 0 <= i < b.len() implies s[at + a.len() + i] == #[trigger] b[i] by {
            assert((a + b)[a.len() + i] == b[i]);
        }
    }
    if stands(s, at, a) && stands(s, at + a.len(), b) {
        assert forall|i: int| 0 <= i < (a + b).len() implies s[at + i] == #[trigger] (a + b)[i] by {
            if i < a.len() {
                assert((a + b)[i] == a[i]);
            } else {
                assert((a + b)[i] == b[i - a.len()]);
            }
        }
    }
}

pub proof fn lemma_stands_subrange(s: Seq<u8>, at: int, w: Seq<u8>)
    requires
        stands(s, at, w),
    ensures
        s.subrange(at, at + w.len()) == w,
{
    assert(s.subrange(at, at + w.len()) =~= w);
}

/// The bytes of a text in two parts are the bytes of the parts.
pub proof fn lemma_utf8_parts(a: Seq<char>, b: Seq<char>)
    ensures
        encode_utf8(a + b) == encode_utf8(a) + encode_utf8(b),
    decreases a.len(),
{
    if a.len() == 0 {
        assert(a + b =~= b);
        assert(encode_utf8(a) + encode_utf8(b) =~= encode_utf8(b));
    } else {
        lemma_utf8_parts(a.drop_first(), b);
        assert((a + b).drop_first() =~= a.drop_first() + b);
        assert((a + b)[0] == a[0]);
        assert(encode_utf8(a + b) =~= encode_utf8(a) + encode_utf8(b));
    }
}

/// The bytes of ASCII text are the codes of its characters.
pub proof fn lemma_utf8_ascii(text: Seq<char>)
    requires
        is_ascii_chars(text),
    ensures
        encode_utf8(text) == narrow(text),
{
    vstd::utf8::is_ascii_chars_encode_utf8(text);
    assert(encode_utf8(text) =~= narrow(text));
}

/// A character below 0x80 is written as one byte, its code; any other as
/// bytes from 0x80 on.
pub proof fn lemma_scalar_bytes(c: char)
    ensures
        encode_scalar(c as u32).len() >= 1,
        forall|i: int|
            0 <= i < encode_scalar(c as u32).len() ==> if (c as u32) < 0x80 {
                (#[trigger] encode_scalar(c as u32)[i]) == c as u32
            } else {
                encode_scalar(c as u32)[i] >= 0x80
            },
{
    let v = c as u32;
    if has_width_1_encoding(v) {
        assert(leading_byte_width_1(v) == v) by (bit_vector)
            requires
                v <= 0x7f,
        ;
    } else {
        assert(leading_byte_width_2(v) >= 0x80) by (bit_vector);
        assert(leading_byte_width_3(v) >= 0x80) by (bit_vector);
        assert(leading_byte_width_4(v) >= 0x80) by (bit_vector);
        assert(last_continuation_byte(v) >= 0x80) by (bit_vector);
        assert(second_last_continuation_byte(v) >= 0x80) by (bit_vector);
        assert(third_last_continuation_byte(v) >= 0x80) by (bit_vector);
    }
}

/// A mark is a character with the code of a delimiter, of a quote, or of
/// white space.
pub proof fn lemma_mark_codes(c: char)
    ensures
        key_mark(c) <==> {
            let v = c as u32;
            ||| v == 0x3a
            ||| v == 0x2c
            ||| v == 0x28
            ||| v == 0x29
            ||| v == 0x5b
            ||| v == 0x5d
            ||| v == 0x7c
            ||| v == 0x22
            ||| v == 0x27
            ||| white(c)
        },
{
    assert(':' as u32 == 0x3a);
    assert(',' as u32 == 0x2c);
    assert('(' as u32 == 0x28);
    assert(')' as u32 == 0x29);
    assert('[' as u32 == 0x5b);
    assert(']' as u32 == 0x5d);
    assert('|' as u32 == 0x7c);
    assert('"' as u32 == 0x22);
    assert('\'' as u32 == 0x27);
}

/// The bytes of a text without marks are name bytes.
pub proof fn lemma_name_bytes(text: Seq<char>)
    requires
        forall|i: int| 0 <= i < text.len() ==> !key_mark(#[trigger] text[i]),
    ensures
        forall|i: int| 0 <= i < encode_utf8(text).len() ==> name_byte(#[trigger] encode_utf8(text)[i]),
        text.len() > 0 ==> encode_utf8(text).len() > 0,
    decreases text.len(),
{
    if text.len() > 0 {
        let head = encode_scalar(text[0] as u32);
        let tail = encode_utf8(text.drop_first());
        lemma_scalar_bytes(text[0]);
        assert(!key_mark(text[0]));
        assert forall|i: int| 0 <= i < text.drop_first().len() implies !key_mark(
            #[trigger] text.drop_first()[i],
        ) by {
            assert(text.drop_first()[i] == text[i + 1]);
        }
        lemma_name_bytes(text.drop_first());
        assert(encode_utf8(text) == head + tail);
        assert forall|i: int| 0 <= i < encode_utf8(text).len() implies name_byte(
            #[trigger] encode_utf8(text)[i],
        ) by {
            if i < head.len() {
                assert(encode_utf8(text)[i] == head[i]);
                lemma_mark_codes(text[0]);
                assert(name_byte(head[i]));
            } else {
                assert(encode_utf8(text)[i] == tail[i - head.len()]);
                assert(name_byte(tail[i - head.len()]));
            }
        }
    }
}

/// A text without white space at its ends is its own trimming.
pub proof fn lemma_trimmed_bare(text: Seq<char>)
    requires
        bare_key(text),
    ensures
        trimmed(text) == text,
{
    assert(!key_mark(text[0]));
    assert(!key_mark(text[text.len() - 1]));
}

/// A bare string is read back from its bytes, up to the delimiter or
/// whitespace after them.
pub proof fn lemma_unquoted_rereads(s: Seq<u8>, at: int, text: Seq<char>)
    requires
        bare_key(text),
        stands(s, at, encode_utf8(text)),
        token_boundary(s, at + encode_utf8(text).len()),
    ensures
        unquoted(s, at) == Ok::<(Seq<char>, int), (ErrorKind, int)>(
            (text, at + encode_utf8(text).len()),
        ),
        !quote(s[at]),
        !whitespace(s[at]),
        !delimiter(s[at]),
{
    let bytes = encode_utf8(text);
    lemma_name_bytes(text);
    assert(bytes[0] == s[at + 0]);
    assert forall|i: int| at <= i < at + bytes.len() implies !delimiter(#[trigger] s[i])
        && !whitespace(s[i]) by {
        assert(s[at + (i - at)] == bytes[i - at]);
        assert(name_byte(bytes[i - at]));
    }
    lemma_token_run(s, at, at + bytes.len());
    lemma_stands_subrange(s, at, bytes);
    vstd::utf8::encode_utf8_decode_utf8(text);
    lemma_trimmed_bare(text);
}

/// A run of bytes that are neither delimiters nor whitespace, with a
/// boundary after it, is one token.
pub proof fn lemma_token_run(s: Seq<u8>, from: int, to: int)
    requires
        0 <= from <= to <= s.len(),
        forall|i: int| from <= i < to ==> !delimiter(#[trigger] s[i]) && !whitespace(s[i]),
        token_boundary(s, to),
    ensures
        token_end(s, from) == to,
    decreases to - from,
{
    if from < to {
        lemma_token_run(s, from + 1, to);
    }
}

/// A run of number bytes, with none after it, is the run that the grammar
/// takes for a number.
pub proof fn lemma_number_run(s: Seq<u8>, from: int, to: int)
    requires
        0 <= from <= to <= s.len(),
        forall|i: int| from <= i < to ==> number_byte(#[trigger] s[i]),
        to < s.len() ==> !number_byte(s[to]),
    ensures
        number_end(s, from) == to,
    decreases to - from,
{
    if from < to {
        lemma_number_run(s, from + 1, to);
    }
}

/// What is escaped of a text is what is escaped of its first character,
/// and then of the rest.
pub proof fn lemma_escaped_front(text: Seq<char>)
    requires
        text.len() > 0,
    ensures
        escaped(text) == escaped_char(text[0]) + escaped(text.drop_first()),
    decreases text.len(),
{
    if text.len() == 1 {
        assert(text.drop_last() =~= Seq::<char>::empty());
        assert(text.drop_first() =~= Seq::<char>::empty());
        assert(escaped(text) =~= escaped_char(text[0]) + escaped(text.drop_first()));
    } else {
        lemma_escaped_front(text.drop_last());
        assert(text.drop_last().drop_first() =~= text.drop_first().drop_last());
        assert(text.drop_last()[0] == text[0]);
        assert(text.drop_first().last() == text.last());
        assert(escaped(text) =~= escaped_char(text[0]) + escaped(text.drop_first()));
    }
}

/// What is escaped of ASCII text is ASCII.
pub proof fn lemma_escaped_ascii(text: Seq<char>)
    requires
        is_ascii_chars(text),
    ensures
        is_ascii_chars(escaped(text)),
    decreases text.len(),
{
    if text.len() > 0 {
        let head = text.drop_last();
        assert(is_ascii_chars(head)) by {
            assert forall|i: int| 0 <= i < head.len() implies '\0' <= #[trigger] head[i]
                <= '\u{7f}' by {
                assert(head[i] == text[i]);
            }
        }
        lemma_escaped_ascii(head);
        let e = escaped(head);
        let c = escaped_char(text.last());
        assert('\0' <= text[text.len() - 1] <= '\u{7f}');
        assert forall|i: int| 0 <= i < (e + c).len() implies '\0' <= #[trigger] (e + c)[i]
            <= '\u{7f}' by {
            if i < e.len() {
                assert((e + c)[i] == e[i]);
            } else {
                assert((e + c)[i] == c[i - e.len()]);
            }
        }
    }
}

/// A quoted string of ASCII text is read back from what the encoder writes
/// of it: the escaped text and the closing apostrophe.
pub proof fn lemma_quoted_rereads(s: Seq<u8>, at: int, text: Seq<char>, read: Seq<char>)
    requires
        is_ascii_chars(text),
        stands(s, at, narrow(escaped(text)) + seq![APOSTROPHE]),
    ensures
        quoted(s, at, APOSTROPHE, read) == Ok::<(Seq<char>, int), (ErrorKind, int)>(
            (read + text, at + escaped(text).len() + 1),
        ),
    decreases text.len(),
{
    let w = narrow(escaped(text)) + seq![APOSTROPHE];
    if text.len() == 0 {
        assert(w[0] == APOSTROPHE);
        assert(s[at + 0] == w[0]);
        assert(read + text =~= read);
    } else {
        let c = text[0];
        let rest = text.drop_first();
        lemma_escaped_front(text);
        let head = escaped_char(c);
        assert('\0' <= text[0] <= '\u{7f}');
        assert(is_ascii_chars(rest)) by {
            assert forall|i: int| 0 <= i < rest.len() implies '\0' <= #[trigger] rest[i]
                <= '\u{7f}' by {
                assert(rest[i] == text[i + 1]);
            }
        }
        assert(narrow(escaped(text)) =~= narrow(head) + narrow(escaped(rest)));
        assert(w =~= narrow(head) + (narrow(escaped(rest)) + seq![APOSTROPHE]));
        lemma_stands_parts(s, at, narrow(head), narrow(escaped(rest)) + seq![APOSTROPHE]);
        lemma_quoted_rereads(s, at + head.len(), rest, read.push(c));
        assert(read.push(c) + rest =~= read + text);
        assert(s[at + 0] == narrow(head)[0]);
        if head.len() == 2 {
            assert(s[at + 1] == narrow(head)[1]);
        } else {
            assert((c as u8) as char == c);
        }
    }
}

/// Every byte of a numeral is a number byte.
pub proof fn lemma_numeral_bytes(n: Seq<u8>)
    requires
        numeral(n),
    ensures
        n.len() > 0,
        forall|i: int| 0 <= i < n.len() ==> number_byte(#[trigger] n[i]),
{
    let p = parts(n);
    lemma_parts(n);
    lemma_digits_end(n, p.whole_start);
    lemma_digits_end(n, p.fraction_start);
    if p.fraction_end < n.len() {
        lemma_digits_end(n, p.exponent_start);
    }
    assert forall|i: int| 0 <= i < n.len() implies number_byte(#[trigger] n[i]) by {
        if i < p.whole_start {
        } else if i < p.whole_end {
        } else if i < p.fraction_start {
        } else if i < p.fraction_end {
        } else if i == p.fraction_end {
        } else if i < p.exponent_start {
        } else {
        }
    }
}

/// Where a number stands and ends its token, no stamp stands.
pub proof fn lemma_number_is_no_stamp(s: Seq<u8>, at: int, n: Seq<u8>)
    requires
        numeral(n),
        stands(s, at, n),
        token_boundary(s, at + n.len()),
    ensures
        date(s, at) is None,
{
    lemma_numeral_bytes(n);
    if at + STAMP_LENGTH <= s.len() {
        let window = s.subrange(at, at + STAMP_LENGTH);
        if well_shaped(window) {
            let p = parts(n);
            lemma_parts(n);
            if n.len() >= 5 {
                assert(forall|i: int| 0 <= i < 5 ==> n[i] == s[at + i] && s[at + i] == window[i]);
                assert(digit(n[0]) && digit(n[1]) && digit(n[2]) && digit(n[3]) && n[4] == MINUS);
                lemma_digits_end(n, 0);
                assert(p.whole_start == 0);
                lemma_digits_run(n, 0, 4);
                assert(p.whole_end == 4);
            } else {
                let k = n.len() as int;
                assert(window[k] == s[at + k]);
                assert(window[k] == MINUS || digit(window[k]));
            }
        }
    }
}

/// A run of digits with none after it is the run that a numeral takes.
pub proof fn lemma_digits_run(s: Seq<u8>, from: int, to: int)
    requires
        0 <= from <= to <= s.len(),
        forall|i: int| from <= i < to ==> digit(#[trigger] s[i]),
        to < s.len() ==> !digit(s[to]),
    ensures
        digits_end(s, from) == to,
    decreases to - from,
{
    if from < to {
        lemma_digits_run(s, from + 1, to);
    }
}

/// A number is read back from its numeral.
pub proof fn lemma_number_rereads(s: Seq<u8>, at: int, n: Seq<u8>)
    requires
        number_text(n),
        stands(s, at, n),
        token_boundary(s, at + n.len()),
    ensures
        date(s, at) is None,
        number(s, at) == Ok::<(Tree, int), (ErrorKind, int)>((Tree::Number(n), at + n.len())),
{
    lemma_number_is_no_stamp(s, at, n);
    lemma_numeral_bytes(n);
    assert forall|i: int| at <= i < at + n.len() implies number_byte(#[trigger] s[i]) by {
        assert(s[at + (i - at)] == n[i - at]);
    }
    lemma_number_run(s, at, at + n.len());
    lemma_stands_subrange(s, at, n);
}

/// A date is read back from its stamp.
pub proof fn lemma_date_rereads(s: Seq<u8>, at: int, d: Date)
    requires
        d.valid(),
        stands(s, at, d.stamp()),
        token_boundary(s, at + STAMP_LENGTH),
    ensures
        date(s, at) == Some(d),
        digit(s[at]),
{
    lemma_stamp_rereads(d);
    lemma_stands_subrange(s, at, d.stamp());
    assert(s[at + 0] == d.stamp()[0]);
}

/// The bytes of a quoted string of ASCII text.
pub open spec fn wire_text(text: Seq<char>) -> Seq<u8> {
    seq![APOSTROPHE] + narrow(escaped(text)) + seq![APOSTROPHE]
}

/// The bytes of a key.
pub open spec fn wire_key(key: Seq<char>) -> Seq<u8> {
    if bare_key(key) {
        encode_utf8(key)
    } else {
        wire_text(key)
    }
}

/// The bytes of the text that stands for `t`, where its strings are ASCII.
pub open spec fn wire(t: Tree) -> Seq<u8>
    decreases t, 0nat,
{
    match t {
        Tree::Null => word_null(),
        Tree::Bool(true) => word_true(),
        Tree::Bool(false) => word_false(),
        Tree::Number(text) => text,
        Tree::Text(text) => wire_text(text),
        Tree::Array(items) => seq![OPEN_BRACKET] + wire_items(items, items.len()) + seq![
            CLOSE_BRACKET,
        ],
        Tree::Object(entries) => seq![OPEN_PAREN] + wire_entries(entries, entries.len()) + seq![
            CLOSE_PAREN,
        ],
        Tree::Date(d) => d.stamp(),
    }
}

/// The bytes of the first `count` of `items`, with ` | ` between them.
pub open spec fn wire_items(items: Seq<Tree>, count: nat) -> Seq<u8>
    decreases items, count,
{
    if count == 0 || count > items.len() {
        Seq::empty()
    } else if count == 1 {
        wire(items[0])
    } else {
        wire_items(items, (count - 1) as nat) + seq![SPACE, PIPE, SPACE] + wire(items[count - 1])
    }
}

/// The bytes of one entry.
pub open spec fn wire_entry(key: Seq<char>, value: Seq<u8>) -> Seq<u8> {
    wire_key(key) + seq![COLON, SPACE] + value
}

/// The bytes of the first `count` of `entries`, with `, ` between them.
pub open spec fn wire_entries(entries: Seq<(Seq<char>, Tree)>, count: nat) -> Seq<u8>
    decreases entries, count,
{
    if count == 0 || count > entries.len() {
        Seq::empty()
    } else if count == 1 {
        wire_entry(entries[0].0, wire(entries[0].1))
    } else {
        wire_entries(entries, (count - 1) as nat) + seq![COMMA, SPACE] + wire_entry(
            entries[count - 1].0,
            wire(entries[count - 1].1),
        )
    }
}

/// Whether `t` is written so that it can be read back: its strings hold
/// ASCII only, since a quoted string is read byte by byte, and each of its
/// keys is written bare or holds ASCII only.
pub open spec fn plain(t: Tree) -> bool
    decreases t,
{
    match t {
        Tree::Text(text) => is_ascii_chars(text),
        Tree::Array(items) => forall|i: int| 0 <= i < items.len() ==> plain(#[trigger] items[i]),
        Tree::Object(entries) => forall|i: int|
            0 <= i < entries.len() ==> (bare_key((#[trigger] entries[i]).0) || is_ascii_chars(
                entries[i].0,
            )) && plain(entries[i].1),
        _ => true,
    }
}

/// Where the item at `index` of an array starts, if the items start at `base`.
pub open spec fn item_start(base: int, items: Seq<Tree>, index: nat) -> int {
    if index == 0 {
        base
    } else {
        base + wire_items(items, index).len() + 3
    }
}

/// Where the entry at `index` of an object starts, if the entries start at
/// `base`.
pub open spec fn entry_start(base: int, entries: Seq<(Seq<char>, Tree)>, index: nat) -> int {
    if index == 0 {
        base
    } else {
        base + wire_entries(entries, index).len() + 2
    }
}

/// Where the items of an array stand, each of them stands at its place, with
/// ` | ` before it unless it is the first.
pub proof fn lemma_items_stand(s: Seq<u8>, base: int, items: Seq<Tree>, index: nat, count: nat)
    requires
        index < count <= items.len(),
        stands(s, base, wire_items(items, count)),
    ensures
        stands(s, base, wire_items(items, index + 1)),
        stands(s, item_start(base, items, index), wire(items[index as int])),
        wire_items(items, index + 1).len() == item_start(base, items, index) - base + wire(
            items[index as int],
        ).len(),
        index > 0 ==> stands(s, base + wire_items(items, index).len(), seq![SPACE, PIPE, SPACE]),
    decreases count - index,
{
    if index + 1 < count {
        let head = wire_items(items, (count - 1) as nat);
        let sep = seq![SPACE, PIPE, SPACE];
        let last = wire(items[count - 1]);
        assert(wire_items(items, count) == head + sep + last);
        lemma_stands_parts(s, base, head + sep, last);
        lemma_stands_parts(s, base, head, sep);
        lemma_items_stand(s, base, items, index, (count - 1) as nat);
    } else {
        if index > 0 {
            let head = wire_items(items, index);
            let sep = seq![SPACE, PIPE, SPACE];
            let last = wire(items[index as int]);
            assert(wire_items(items, count) == head + sep + last);
            lemma_stands_parts(s, base, head + sep, last);
            lemma_stands_parts(s, base, head, sep);
        }
    }
}

/// Where the entries of an object stand, each of them stands at its place,
/// with `, ` before it unless it is the first.
pub proof fn lemma_entries_stand(
    s: Seq<u8>,
    base: int,
    entries: Seq<(Seq<char>, Tree)>,
    index: nat,
    count: nat,
)
    requires
        index < count <= entries.len(),
        stands(s, base, wire_entries(entries, count)),
    ensures
        stands(s, base, wire_entries(entries, index + 1)),
        stands(
            s,
            entry_start(base, entries, index),
            wire_entry(entries[index as int].0, wire(entries[index as int].1)),
        ),
        wire_entries(entries, index + 1).len() == entry_start(base, entries, index) - base
            + wire_entry(entries[index as int].0, wire(entries[index as int].1)).len(),
        index > 0 ==> stands(s, base + wire_entries(entries, index).len(), seq![COMMA, SPACE]),
    decreases count - index,
{
    if index + 1 < count {
        let head = wire_entries(entries, (count - 1) as nat);
        let sep = seq![COMMA, SPACE];
        let last = wire_entry(entries[count - 1].0, wire(entries[count - 1].1));
        assert(wire_entries(entries, count) == head + sep + last);
        lemma_stands_parts(s, base, head + sep, last);
        lemma_stands_parts(s, base, head, sep);
        lemma_entries_stand(s, base, entries, index, (count - 1) as nat);
    } else {
        if index > 0 {
            let head = wire_entries(entries, index);
            let sep = seq![COMMA, SPACE];
            let last = wire_entry(entries[index as int].0, wire(entries[index as int].1));
            assert(wire_entries(entries, count) == head + sep + last);
            lemma_stands_parts(s, base, head + sep, last);
            lemma_stands_parts(s, base, head, sep);
        }
    }
}

/// Among ascending entries, each one goes behind those before it.
pub proof fn lemma_put_next(entries: Seq<(Seq<char>, Tree)>, index: int)
    requires
        ascending(entries),
        0 <= index < entries.len(),
    ensures
        put(entries.take(index), entries[index].0, entries[index].1) == entries.take(index + 1),
{
    let before = entries.take(index);
    let key = entries[index].0;
    assert forall|j: int| 0 <= j < index implies key_before(
        #[trigger] before[j].0,
        key,
    ) by {
        assert(before[j] == entries[j]);
    }
    lemma_rank(before, key, index);
    assert(before.insert(index, (key, entries[index].1)) =~= entries.take(index + 1));
}

/// Reading a value from whitespace on is reading it from the first
/// position after the whitespace.
pub proof fn lemma_value_after_blank(s: Seq<u8>, from: int, start: int)
    requires
        0 <= from <= start,
        skip_blank(s, from) == start,
        skip_blank(s, start) == start,
    ensures
        value(s, from) == value(s, start),
{
}

/// A value is read back from the bytes that the encoder writes of it, up to
/// the boundary after them.
#[verifier::rlimit(50)]
pub proof fn lemma_value_rereads(s: Seq<u8>, at: int, t: Tree)
    requires
        well_formed(t),
        plain(t),
        stands(s, at, wire(t)),
        token_boundary(s, at + wire(t).len()),
    ensures
        wire(t).len() > 0,
        !whitespace(s[at]),
        s[at] != CLOSE_BRACKET,
        s[at] != CLOSE_PAREN,
        value(s, at) == Ok::<(Tree, int), (ErrorKind, int)>((t, at + wire(t).len())),
    decreases t, 0nat,
{
    let w = wire(t);
    match t {
        Tree::Null => {
            assert(s[at + 0] == w[0] && s[at + 1] == w[1] && s[at + 2] == w[2] && s[at + 3]
                == w[3]);
            lemma_stands_subrange(s, at, w);
            lemma_word_differs(s, at, word_true());
            lemma_word_differs(s, at, word_false());
        },
        Tree::Bool(true) => {
            assert(s[at + 0] == w[0]);
            lemma_stands_subrange(s, at, w);
        },
        Tree::Bool(false) => {
            assert(s[at + 0] == w[0]);
            lemma_stands_subrange(s, at, w);
            lemma_word_differs(s, at, word_true());
        },
        Tree::Number(text) => {
            assert(s[at + 0] == w[0]);
            lemma_number_rereads(s, at, text);
        },
        Tree::Text(text) => {
            let inner = narrow(escaped(text)) + seq![APOSTROPHE];
            assert(w =~= seq![APOSTROPHE] + inner);
            lemma_stands_parts(s, at, seq![APOSTROPHE], inner);
            assert(s[at + 0] == seq![APOSTROPHE][0]);
            lemma_quoted_rereads(s, at + 1, text, Seq::empty());
            assert(Seq::<char>::empty() + text =~= text);
        },
        Tree::Date(d) => {
            lemma_stamp_rereads(d);
            lemma_date_rereads(s, at, d);
        },
        Tree::Array(items) => {
            let inner = wire_items(items, items.len()) + seq![CLOSE_BRACKET];
            assert(w =~= seq![OPEN_BRACKET] + inner);
            lemma_stands_parts(s, at, seq![OPEN_BRACKET], inner);
            assert(s[at + 0] == seq![OPEN_BRACKET][0]);
            if items.len() == 0 {
                assert(s[at + 1 + 0] == inner[0]);
                assert(items =~= Seq::<Tree>::empty());
            } else {
                lemma_items_reread(s, at + 1, items, 0);
                assert(items.take(0) =~= Seq::<Tree>::empty());
            }
        },
        Tree::Object(entries) => {
            let inner = wire_entries(entries, entries.len()) + seq![CLOSE_PAREN];
            assert(w =~= seq![OPEN_PAREN] + inner);
            lemma_stands_parts(s, at, seq![OPEN_PAREN], inner);
            assert(s[at + 0] == seq![OPEN_PAREN][0]);
            if entries.len() == 0 {
                assert(s[at + 1 + 0] == inner[0]);
                assert(entries =~= Seq::<(Seq<char>, Tree)>::empty());
            } else {
                lemma_members_reread(s, at + 1, entries, 0);
                assert(entries.take(0) =~= Seq::<(Seq<char>, Tree)>::empty());
            }
        },
    }
}

/// Where a word does not start with the first byte of `word`, `word` does
/// not stand.
pub proof fn lemma_word_differs(s: Seq<u8>, at: int, word: Seq<u8>)
    requires
        0 <= at < s.len(),
        word.len() > 0,
        s[at] != word[0],
    ensures
        !keyword(s, at, word),
{
    if at + word.len() <= s.len() {
        assert(s.subrange(at, at + word.len())[0] == s[at]);
    }
}

/// The items of an array from the one at `index` on are read back from the
/// bytes that the encoder writes of them.
#[verifier::rlimit(50)]
pub proof fn lemma_items_reread(s: Seq<u8>, base: int, items: Seq<Tree>, index: nat)
    requires
        forall|i: int| 0 <= i < items.len() ==> well_formed(#[trigger] items[i]) && plain(items[i]),
        index < items.len(),
        stands(s, base, wire_items(items, items.len()) + seq![CLOSE_BRACKET]),
    ensures
        !whitespace(s[item_start(base, items, index)]),
        s[item_start(base, items, index)] != CLOSE_BRACKET,
        crate::grammar::items(
            s,
            if index == 0 {
                base
            } else {
                item_start(base, items, index) - 1
            },
            items.take(index as int),
        ) == Ok::<(Tree, int), (ErrorKind, int)>(
            (Tree::Array(items), base + wire_items(items, items.len()).len() + 1),
        ),
    decreases items, items.len() - index,
{
    let n = items.len();
    let all = wire_items(items, n);
    lemma_stands_parts(s, base, all, seq![CLOSE_BRACKET]);
    assert(s[base + all.len() + 0] == seq![CLOSE_BRACKET][0]);
    lemma_items_stand(s, base, items, index, n);
    let start = item_start(base, items, index);
    let item = items[index as int];
    let next = start + wire(item).len();
    let read = items.take(index as int);
    if index + 1 < n {
        lemma_items_stand(s, base, items, index + 1, n);
        let sep = seq![SPACE, PIPE, SPACE];
        assert(s[next + 0] == sep[0] && s[next + 1] == sep[1] && s[next + 2] == sep[2]);
    }
    lemma_value_rereads(s, start, item);
    let from = if index == 0 {
        base
    } else {
        start - 1
    };
    if index > 0 {
        let sep = seq![SPACE, PIPE, SPACE];
        assert(s[base + wire_items(items, index).len() + 2] == sep[2]);
        assert(skip_blank(s, from) == skip_blank(s, from + 1));
    }
    lemma_value_after_blank(s, from, start);
    assert(value(s, from) == Ok::<(Tree, int), (ErrorKind, int)>((item, next)));
    if index + 1 < n {
        assert(skip_blank(s, next) == skip_blank(s, next + 1));
        assert(skip_blank(s, next + 1) == next + 1);
        lemma_items_reread(s, base, items, index + 1);
        assert(read.push(item) =~= items.take(index as int + 1));
        assert(item_start(base, items, index + 1) - 1 == next + 2);
    } else {
        assert(skip_blank(s, next) == next);
        assert(read.push(item) =~= items);
    }
}

/// A key is read back from the bytes that the encoder writes of it, up to
/// the colon after them.
pub proof fn lemma_key_rereads(s: Seq<u8>, start: int, key: Seq<char>)
    requires
        bare_key(key) || is_ascii_chars(key),
        stands(s, start, wire_key(key)),
        start + wire_key(key).len() < s.len(),
        s[start + wire_key(key).len()] == COLON,
    ensures
        string_like(s, start) == Ok::<(Seq<char>, int), (ErrorKind, int)>(
            (key, start + wire_key(key).len()),
        ),
        !whitespace(s[start]),
        s[start] != CLOSE_PAREN,
{
    let name = wire_key(key);
    if bare_key(key) {
        lemma_unquoted_rereads(s, start, key);
    } else {
        let inner = narrow(escaped(key)) + seq![APOSTROPHE];
        assert(name =~= seq![APOSTROPHE] + inner);
        lemma_stands_parts(s, start, seq![APOSTROPHE], inner);
        assert(s[start + 0] == seq![APOSTROPHE][0]);
        lemma_quoted_rereads(s, start + 1, key, Seq::empty());
        assert(Seq::<char>::empty() + key =~= key);
    }
}

/// One entry of an object, as the grammar reads it: after the key, the
/// colon and the value, a comma leads to the next entry and `)` ends the
/// object.
pub proof fn lemma_members_step(
    s: Seq<u8>,
    from: int,
    start: int,
    colon: int,
    next: int,
    read: Seq<(Seq<char>, Tree)>,
    key: Seq<char>,
    item: Tree,
)
    requires
        0 <= from <= start <= colon < next < s.len(),
        skip_blank(s, from) == start,
        string_like(s, start) == Ok::<(Seq<char>, int), (ErrorKind, int)>((key, colon)),
        s[colon] == COLON,
        value(s, colon + 1) == Ok::<(Tree, int), (ErrorKind, int)>((item, next)),
        s[next] == COMMA || s[next] == CLOSE_PAREN,
    ensures
        members(s, from, read) == if s[next] == COMMA {
            members(s, next + 1, put(read, key, item))
        } else {
            Ok::<(Tree, int), (ErrorKind, int)>((Tree::Object(put(read, key, item)), next + 1))
        },
{
    assert(skip_blank(s, colon) == colon);
    assert(skip_blank(s, next) == next);
}

/// Where the entries of an object stand, with `)` after them, the entry at
/// `index` stands as its key, `: ` and its value; a space stands before it
/// unless it is the first, and `, ` or `)` after it.
pub proof fn lemma_entry_layout(
    s: Seq<u8>,
    base: int,
    entries: Seq<(Seq<char>, Tree)>,
    index: nat,
)
    requires
        index < entries.len(),
        stands(s, base, wire_entries(entries, entries.len()) + seq![CLOSE_PAREN]),
    ensures
        ({
            let start = entry_start(base, entries, index);
            let key = entries[index as int].0;
            let item = entries[index as int].1;
            let colon = start + wire_key(key).len();
            let next = colon + 2 + wire(item).len();
            &&& base <= start
            &&& stands(s, start, wire_key(key))
            &&& s[colon] == COLON
            &&& s[colon + 1] == SPACE
            &&& stands(s, colon + 2, wire(item))
            &&& next < s.len()
            &&& next == base + wire_entries(entries, index + 1).len()
            &&& index > 0 ==> s[start - 1] == SPACE
            &&& index + 1 < entries.len() ==> s[next] == COMMA
            &&& index + 1 == entries.len() ==> s[next] == CLOSE_PAREN && next == base
                + wire_entries(entries, entries.len()).len()
        }),
{
    let n = entries.len();
    let all = wire_entries(entries, n);
    let start = entry_start(base, entries, index);
    let key = entries[index as int].0;
    let item = entries[index as int].1;
    let name = wire_key(key);
    let mid = seq![COLON, SPACE];
    let colon = start + name.len();
    let next = colon + 2 + wire(item).len();
    lemma_stands_parts(s, base, all, seq![CLOSE_PAREN]);
    assert(s[base + all.len() + 0] == seq![CLOSE_PAREN][0]);
    lemma_entries_stand(s, base, entries, index, n);
    assert(wire_entry(key, wire(item)) == name + mid + wire(item));
    lemma_stands_parts(s, start, name + mid, wire(item));
    lemma_stands_parts(s, start, name, mid);
    assert(s[colon + 0] == mid[0] && s[colon + 1] == mid[1]);
    if index + 1 < n {
        lemma_entries_stand(s, base, entries, index + 1, n);
        let sep = seq![COMMA, SPACE];
        assert(s[next + 0] == sep[0] && s[next + 1] == sep[1]);
    }
    if index > 0 {
        let sep = seq![COMMA, SPACE];
        assert(s[base + wire_entries(entries, index).len() + 1] == sep[1]);
    }
}

/// The entries of an object from the one at `index` on are read back from
/// the bytes that the encoder writes of them.
#[verifier::rlimit(50)]
pub proof fn lemma_members_reread(
    s: Seq<u8>,
    base: int,
    entries: Seq<(Seq<char>, Tree)>,
    index: nat,
)
    requires
        ascending(entries),
        forall|i: int|
            0 <= i < entries.len() ==> (bare_key((#[trigger] entries[i]).0) || is_ascii_chars(
                entries[i].0,
            )) && well_formed(entries[i].1) && plain(entries[i].1),
        index < entries.len(),
        stands(s, base, wire_entries(entries, entries.len()) + seq![CLOSE_PAREN]),
    ensures
        !whitespace(s[entry_start(base, entries, index)]),
        s[entry_start(base, entries, index)] != CLOSE_PAREN,
        members(
            s,
            if index == 0 {
                base
            } else {
                entry_start(base, entries, index) - 1
            },
            entries.take(index as int),
        ) == Ok::<(Tree, int), (ErrorKind, int)>(
            (Tree::Object(entries), base + wire_entries(entries, entries.len()).len() + 1),
        ),
    decreases entries, entries.len() - index,
{
    let n = entries.len();
    let start = entry_start(base, entries, index);
    let key = entries[index as int].0;
    let item = entries[index as int].1;
    let read = entries.take(index as int);
    let colon = start + wire_key(key).len();
    let begin = colon + 2;
    let next = begin + wire(item).len();
    let from = if index == 0 {
        base
    } else {
        start - 1
    };
    lemma_entry_layout(s, base, entries, index);
    lemma_key_rereads(s, start, key);
    assert(value(s, colon + 1) == Ok::<(Tree, int), (ErrorKind, int)>((item, next))) by {
        lemma_value_rereads(s, begin, item);
        assert(skip_blank(s, colon + 1) == skip_blank(s, colon + 2));
        lemma_value_after_blank(s, colon + 1, begin);
    }
    assert(skip_blank(s, from) == start) by {
        if index > 0 {
            assert(skip_blank(s, from) == skip_blank(s, from + 1));
        }
    }
    lemma_members_step(s, from, start, colon, next, read, key, item);
    lemma_put_next(entries, index as int);
    if index + 1 < n {
        lemma_members_reread(s, base, entries, index + 1);
        assert(entry_start(base, entries, index + 1) - 1 == next + 1);
    } else {
        assert(entries.take(n as int) =~= entries);
    }
}

/// The bytes of text whose characters have the codes of bytes below 0x80
/// are those bytes.
pub proof fn lemma_utf8_latin(bytes: Seq<u8>)
    requires
        forall|i: int| 0 <= i < bytes.len() ==> #[trigger] bytes[i] < 0x80,
    ensures
        encode_utf8(latin(bytes)) == bytes,
{
    let text = latin(bytes);
    assert forall|i: int| 0 <= i < text.len() implies '\0' <= #[trigger] text[i] <= '\u{7f}' by {
        assert(bytes[i] < 0x80);
    }
    lemma_utf8_ascii(text);
    assert forall|i: int| 0 <= i < bytes.len() implies narrow(text)[i] == bytes[i] by {
        assert((bytes[i] as char) as u8 == bytes[i]);
    }
    assert(narrow(text) =~= bytes);
}

/// The bytes of a quoted string of ASCII text.
pub proof fn lemma_utf8_quoted(text: Seq<char>)
    requires
        is_ascii_chars(text),
    ensures
        encode_utf8(quoted_text(text)) == wire_text(text),
{
    lemma_escaped_ascii(text);
    let inner = escaped(text);
    let all = quoted_text(text);
    assert forall|i: int| 0 <= i < all.len() implies '\0' <= #[trigger] all[i] <= '\u{7f}' by {
        if 0 < i < all.len() - 1 {
            assert(all[i] == inner[i - 1]);
        }
    }
    lemma_utf8_ascii(all);
    assert(narrow(all) =~= wire_text(text));
}

/// The bytes of a key as it is written.
pub proof fn lemma_utf8_key(key: Seq<char>)
    requires
        bare_key(key) || is_ascii_chars(key),
    ensures
        encode_utf8(key_text(key)) == wire_key(key),
{
    if !bare_key(key) {
        lemma_utf8_quoted(key);
    }
}

/// The bytes of a short piece of ASCII text.
pub proof fn lemma_utf8_literal(text: Seq<char>, bytes: Seq<u8>)
    requires
        text.len() == bytes.len(),
        forall|i: int|
            0 <= i < text.len() ==> '\0' <= (#[trigger] text[i]) <= '\u{7f}' && text[i] as u8
                == bytes[i],
    ensures
        encode_utf8(text) == bytes,
{
    lemma_utf8_ascii(text);
    assert(narrow(text) =~= bytes);
}

/// The bytes of the text that stands for a value are the bytes that are
/// read back as the value.
pub proof fn lemma_wire(t: Tree)
    requires
        well_formed(t),
        plain(t),
    ensures
        encode_utf8(encoded(t)) == wire(t),
    decreases t, 0nat,
{
    match t {
        Tree::Null => {
            lemma_utf8_literal(encoded(t), word_null());
        },
        Tree::Bool(true) => {
            lemma_utf8_literal(encoded(t), word_true());
        },
        Tree::Bool(false) => {
            lemma_utf8_literal(encoded(t), word_false());
        },
        Tree::Number(text) => {
            lemma_numeral_bytes(text);
            lemma_utf8_latin(text);
        },
        Tree::Text(text) => {
            lemma_utf8_quoted(text);
        },
        Tree::Date(d) => {
            lemma_stamp_rereads(d);
            let stamp = d.stamp();
            assert forall|i: int| 0 <= i < stamp.len() implies #[trigger] stamp[i] < 0x80 by {
                lemma_stamp_byte(stamp, i);
            }
            lemma_utf8_latin(stamp);
        },
        Tree::Array(items) => {
            let inner = joined_items(items, items.len());
            lemma_wire_items(items, items.len());
            lemma_utf8_parts(seq!['['] + inner, seq![']']);
            lemma_utf8_parts(seq!['['], inner);
            lemma_utf8_literal(seq!['['], seq![OPEN_BRACKET]);
            lemma_utf8_literal(seq![']'], seq![CLOSE_BRACKET]);
        },
        Tree::Object(entries) => {
            let inner = joined_entries(entries, entries.len());
            lemma_wire_entries(entries, entries.len());
            lemma_utf8_parts(seq!['('] + inner, seq![')']);
            lemma_utf8_parts(seq!['('], inner);
            lemma_utf8_literal(seq!['('], seq![OPEN_PAREN]);
            lemma_utf8_literal(seq![')'], seq![CLOSE_PAREN]);
        },
    }
}

/// Every byte of a well-shaped stamp is below 0x80.
proof fn lemma_stamp_byte(stamp: Seq<u8>, i: int)
    requires
        well_shaped(stamp),
        0 <= i < stamp.len(),
    ensures
        stamp[i] < 0x80,
{
    if i < 6 {
    } else if i < 12 {
    } else if i < 18 {
    } else {
    }
}

proof fn lemma_wire_items(items: Seq<Tree>, count: nat)
    requires
        count <= items.len(),
        forall|i: int| 0 <= i < items.len() ==> well_formed(#[trigger] items[i]) && plain(items[i]),
    ensures
        encode_utf8(joined_items(items, count)) == wire_items(items, count),
    decreases items, count,
{
    if count == 0 {
    } else if count == 1 {
        lemma_wire(items[0]);
    } else {
        let head = joined_items(items, (count - 1) as nat);
        let sep = seq![' ', '|', ' '];
        let last = encoded(items[count - 1]);
        lemma_wire_items(items, (count - 1) as nat);
        lemma_wire(items[count - 1]);
        lemma_utf8_parts(head + sep, last);
        lemma_utf8_parts(head, sep);
        lemma_utf8_literal(sep, seq![SPACE, PIPE, SPACE]);
    }
}

proof fn lemma_wire_entries(entries: Seq<(Seq<char>, Tree)>, count: nat)
    requires
        count <= entries.len(),
        forall|i: int|
            0 <= i < entries.len() ==> (bare_key((#[trigger] entries[i]).0) || is_ascii_chars(
                entries[i].0,
            )) && well_formed(entries[i].1) && plain(entries[i].1),
    ensures
        encode_utf8(joined_entries(entries, count)) == wire_entries(entries, count),
    decreases entries, count,
{
    if count == 0 {
    } else {
        let key = entries[count - 1].0;
        let item = entries[count - 1].1;
        let mid = seq![':', ' '];
        lemma_wire(item);
        lemma_utf8_key(key);
        lemma_utf8_parts(key_text(key) + mid, encoded(item));
        lemma_utf8_parts(key_text(key), mid);
        lemma_utf8_literal(mid, seq![COLON, SPACE]);
        let last = entry_text(key, encoded(item));
        assert(encode_utf8(last) == wire_entry(key, wire(item)));
        if count > 1 {
            let head = joined_entries(entries, (count - 1) as nat);
            let sep = seq![',', ' '];
            lemma_wire_entries(entries, (count - 1) as nat);
            lemma_utf8_parts(head + sep, last);
            lemma_utf8_parts(head, sep);
            lemma_utf8_literal(sep, seq![COMMA, SPACE]);
        }
    }
}

/// Decoding the text that stands for a value gives the value back, for
/// every well-formed value whose strings hold ASCII only and whose keys are
/// written bare or hold ASCII only. A number comes back as the numeral that
/// it was.
pub proof fn lemma_round_trip(t: Tree)
    requires
        well_formed(t),
        plain(t),
    ensures
        document(encode_utf8(encoded(t))) == Ok::<Tree, (ErrorKind, int)>(t),
{
    lemma_wire(t);
    let s = wire(t);
    assert(stands(s, 0, s));
    lemma_value_rereads(s, 0, t);
    assert(skip_blank(s, s.len() as int) == s.len());
}

/// Whether a reading from `at` on, in a text of `len` bytes, went forward: it
/// ended after `at`, or failed at `at` or after it, and within the text.
pub open spec fn forward<T>(scan: Result<(T, int), (ErrorKind, int)>, at: int, len: int) -> bool {
    match scan {
        Ok((_, next)) => at < next <= len,
        Err((_, found)) => at <= found <= len,
    }
}

/// A quoted string ends after the position from which it is read.
pub proof fn lemma_quoted_advances(s: Seq<u8>, at: int, close: u8, text: Seq<char>)
    requires
        0 <= at <= s.len(),
    ensures
        forward(quoted(s, at, close, text), at, s.len() as int),
    decreases s.len() - at,
{
    if at < s.len() && s[at] != close {
        if s[at] == BACKSLASH {
            if at + 1 < s.len() {
                match escape(s, at + 1, s[at + 1]) {
                    Ok((c, next)) => {
                        lemma_quoted_advances(s, next, close, text.push(c));
                    },
                    Err(_) => {},
                }
            }
        } else {
            lemma_quoted_advances(s, at + 1, close, text.push(s[at] as char));
        }
    }
}

/// A string, quoted or bare, ends after the position from which it is read.
pub proof fn lemma_string_like_advances(s: Seq<u8>, at: int)
    requires
        0 <= at <= s.len(),
    ensures
        forward(string_like(s, at), at, s.len() as int),
{
    if at < s.len() && quote(s[at]) {
        lemma_quoted_advances(s, at + 1, s[at], Seq::empty());
    } else {
        lemma_token_end(s, at);
        if token_end(s, at) == at {
            assert(s.subrange(at, at) =~= Seq::<u8>::empty());
            assert(decode_utf8(Seq::<u8>::empty()).len() == 0);
        }
    }
}

/// The grammar never goes back: a value ends after the position from which
/// it is read. And what the grammar reads is well formed.
pub proof fn lemma_value_advances(s: Seq<u8>, at: int)
    requires
        0 <= at <= s.len(),
    ensures
        forward(value(s, at), at, s.len() as int),
        value(s, at) matches Ok((t, _)) ==> well_formed(t),
    decreases s.len() - at, 0int,
{
    lemma_skip_blank(s, at);
    let start = skip_blank(s, at);
    if start < s.len() {
        if s[start] == OPEN_PAREN {
            lemma_object_advances(s, start + 1);
        } else if s[start] == OPEN_BRACKET {
            lemma_array_advances(s, start + 1);
        } else if quote(s[start]) {
            lemma_quoted_advances(s, start + 1, s[start], Seq::empty());
        } else if s[start] == MINUS || digit(s[start]) {
            match date(s, start) {
                Some(d) => {
                    Date::lemma_of_fields(fields_of(s.subrange(start, start + STAMP_LENGTH)));
                },
                None => {
                    lemma_number_end(s, start);
                    let text = s.subrange(start, number_end(s, start));
                    if numeral(text) {
                        lemma_numeral_bytes(text);
                        assert(text[0] == s[start]);
                    }
                },
            }
        } else if keyword(s, start, word_true()) {
        } else if keyword(s, start, word_false()) {
        } else if keyword(s, start, word_null()) {
        } else {
            lemma_string_like_advances(s, start);
        }
    }
}

proof fn lemma_object_advances(s: Seq<u8>, at: int)
    requires
        0 <= at <= s.len(),
    ensures
        forward(object(s, at), at, s.len() as int),
        object(s, at) matches Ok((t, _)) ==> well_formed(t),
    decreases s.len() - at, 2int,
{
    lemma_skip_blank(s, at);
    let inside = skip_blank(s, at);
    if inside < s.len() && s[inside] == CLOSE_PAREN {
    } else {
        lemma_members_advances(s, inside, Seq::empty());
    }
}

proof fn lemma_array_advances(s: Seq<u8>, at: int)
    requires
        0 <= at <= s.len(),
    ensures
        forward(array(s, at), at, s.len() as int),
        array(s, at) matches Ok((t, _)) ==> well_formed(t),
    decreases s.len() - at, 2int,
{
    lemma_skip_blank(s, at);
    let inside = skip_blank(s, at);
    if inside < s.len() && s[inside] == CLOSE_BRACKET {
    } else {
        lemma_items_advances(s, inside, Seq::empty());
    }
}

proof fn lemma_members_advances(s: Seq<u8>, at: int, entries: Seq<(Seq<char>, Tree)>)
    requires
        0 <= at <= s.len(),
        ascending(entries),
        forall|i: int| 0 <= i < entries.len() ==> well_formed((#[trigger] entries[i]).1),
    ensures
        forward(members(s, at, entries), at, s.len() as int),
        members(s, at, entries) matches Ok((t, _)) ==> well_formed(t),
    decreases s.len() - at, 1int,
{
    lemma_skip_blank(s, at);
    let start = skip_blank(s, at);
    lemma_string_like_advances(s, start);
    match string_like(s, start) {
        Err(_) => {},
        Ok((key, after_key)) => {
            lemma_skip_blank(s, after_key);
            let colon = skip_blank(s, after_key);
            if colon < s.len() && s[colon] == COLON {
                lemma_value_advances(s, colon + 1);
                match value(s, colon + 1) {
                    Err(_) => {},
                    Ok((v, after_value)) => {
                        lemma_skip_blank(s, after_value);
                        let mark = skip_blank(s, after_value);
                        let more = put(entries, key, v);
                        lemma_put(entries, key, v);
                        assert forall|i: int| 0 <= i < more.len() implies well_formed(
                            (#[trigger] more[i]).1,
                        ) by {
                            let place = rank(entries, key);
                            if place < entries.len() && entries[place].0 == key {
                                if i != place {
                                    assert(more[i] == entries[i]);
                                }
                            } else {
                                if i < place {
                                    assert(more[i] == entries[i]);
                                } else if i > place {
                                    assert(more[i] == entries[i - 1]);
                                }
                            }
                        }
                        if mark < s.len() && s[mark] == COMMA {
                            lemma_members_advances(s, mark + 1, more);
                        }
                    },
                }
            }
        },
    }
}

proof fn lemma_items_advances(s: Seq<u8>, at: int, read: Seq<Tree>)
    requires
        0 <= at <= s.len(),
        forall|i: int| 0 <= i < read.len() ==> well_formed(#[trigger] read[i]),
    ensures
        forward(items(s, at, read), at, s.len() as int),
        items(s, at, read) matches Ok((t, _)) ==> well_formed(t),
    decreases s.len() - at, 1int,
{
    lemma_value_advances(s, at);
    match value(s, at) {
        Err(_) => {},
        Ok((v, after_value)) => {
            lemma_skip_blank(s, after_value);
            let mark = skip_blank(s, after_value);
            let more = read.push(v);
            assert forall|i: int| 0 <= i < more.len() implies well_formed(#[trigger] more[i]) by {
                if i < read.len() {
                    assert(more[i] == read[i]);
                }
            }
            if mark < s.len() && s[mark] == PIPE {
                lemma_items_advances(s, mark + 1, more);
            }
        },
    }
}

/// Every value that decoding yields is well formed: its numbers are
/// numerals within the range of a double, its dates are valid, and the keys
/// of each of its objects ascend, so that none occurs twice.
pub proof fn lemma_document_well_formed(s: Seq<u8>)
    ensures
        document(s) matches Ok(t) ==> well_formed(t),
{
    lemma_value_advances(s, 0);
}

/// Where decoding fails, the offset of the failure lies within the text, or
/// at its end.
pub proof fn lemma_failure_within(s: Seq<u8>)
    ensures
        document(s) matches Err((_, at)) ==> 0 <= at <= s.len(),
{
    lemma_value_advances(s, 0);
    match value(s, 0) {
        Ok((_, next)) => {
            lemma_skip_blank(s, next);
        },
        Err(_) => {},
    }
}

} // verus!
