//! The encoder: the one text that stands for a value.

use crate::lexis::latin;
use crate::text::white;
use crate::value::{ascending, well_formed, Object, Tree, Value};
use vstd::prelude::*;

verus! {

/// What stands for the character `c` inside quotes: the backslash, the
/// apostrophe, line feed, carriage return and tab are escaped; every other
/// character stands for itself.
pub open spec fn escaped_char(c: char) -> Seq<char> {
    if c == '\\' {
        seq!['\\', '\\']
    } else if c == '\'' {
        seq!['\\', '\'']
    } else if c == '\n' {
        seq!['\\', 'n']
    } else if c == '\r' {
        seq!['\\', 'r']
    } else if c == '\t' {
        seq!['\\', 't']
    } else {
        seq![c]
    }
}

/// `text` with each of its characters escaped.
pub open spec fn escaped(text: Seq<char>) -> Seq<char>
    decreases text.len(),
{
    if text.len() == 0 {
        Seq::empty()
    } else {
        escaped(text.drop_last()) + escaped_char(text.last())
    }
}

/// `text` as a quoted string: escaped, between apostrophes.
pub open spec fn quoted_text(text: Seq<char>) -> Seq<char> {
    seq!['\''] + escaped(text) + seq!['\'']
}

/// Whether `c` keeps a key from being written bare: a delimiter, a quote or
/// white space.
pub open spec fn key_mark(c: char) -> bool {
    ||| c == ':'
    ||| c == ','
    ||| c == '('
    ||| c == ')'
    ||| c == '['
    ||| c == ']'
    ||| c == '|'
    ||| c == '"'
    ||| c == '\''
    ||| white(c)
}

/// Whether `key` is written bare: it is not empty and holds no mark.
pub open spec fn bare_key(key: Seq<char>) -> bool {
    key.len() > 0 && forall|i: int| 0 <= i < key.len() ==> !key_mark(#[trigger] key[i])
}

/// `key` as it is written in an object: bare where it can be, else quoted.
pub open spec fn key_text(key: Seq<char>) -> Seq<char> {
    if bare_key(key) {
        key
    } else {
        quoted_text(key)
    }
}

/// The text that stands for `t`.
pub open spec fn encoded(t: Tree) -> Seq<char>
    decreases t, 0nat,
{
    match t {
        Tree::Null => seq!['n', 'u', 'l', 'l'],
        Tree::Bool(true) => seq!['t', 'r', 'u', 'e'],
        Tree::Bool(false) => seq!['f', 'a', 'l', 's', 'e'],
        Tree::Number(text) => latin(text),
        Tree::Text(text) => quoted_text(text),
        Tree::Array(items) => seq!['['] + joined_items(items, items.len()) + seq![']'],
        Tree::Object(entries) => seq!['('] + joined_entries(entries, entries.len()) + seq![')'],
        Tree::Date(date) => latin(date.stamp()),
    }
}

/// The first `count` of `items`, encoded, with ` | ` between them.
pub open spec fn joined_items(items: Seq<Tree>, count: nat) -> Seq<char>
    decreases items, count,
{
    if count == 0 || count > items.len() {
        Seq::empty()
    } else if count == 1 {
        encoded(items[0])
    } else {
        joined_items(items, (count - 1) as nat) + seq![' ', '|', ' '] + encoded(items[count - 1])
    }
}

/// One entry of an object: the key, `: `, and the value encoded.
pub open spec fn entry_text(key: Seq<char>, value: Seq<char>) -> Seq<char> {
    key_text(key) + seq![':', ' '] + value
}

/// The first `count` of `entries`, encoded, with `, ` between them.
pub open spec fn joined_entries(entries: Seq<(Seq<char>, Tree)>, count: nat) -> Seq<char>
    decreases entries, count,
{
    if count == 0 || count > entries.len() {
        Seq::empty()
    } else if count == 1 {
        entry_text(entries[0].0, encoded(entries[0].1))
    } else {
        joined_entries(entries, (count - 1) as nat) + seq![',', ' '] + entry_text(
            entries[count - 1].0,
            encoded(entries[count - 1].1),
        )
    }
}

/// Whether `c` has the Unicode property White_Space.
pub fn is_white(c: char) -> (r: bool)
    ensures
        r == white(c),
{
    let code = c as u32;
    (0x09 <= code && code <= 0x0d) || code == 0x20 || code == 0x85 || code == 0xa0 || code
        == 0x1680 || (0x2000 <= code && code <= 0x200a) || code == 0x2028 || code == 0x2029 || code
        == 0x202f || code == 0x205f || code == 0x3000
}

/// Whether `c` keeps a key from being written bare.
pub fn is_key_mark(c: char) -> (r: bool)
    ensures
        r == key_mark(c),
{
    c == ':' || c == ',' || c == '(' || c == ')' || c == '[' || c == ']' || c == '|' || c == '"'
        || c == '\'' || is_white(c)
}

/// Writes `value` as a quoted string.
pub fn format_string(value: &str) -> (r: String)
    ensures
        r@ == quoted_text(value@),
{
    let mut out = String::new();
    out.push('\'');
    for c in it: value.chars()
        invariant
            it.seq() == value@,
            out@ == seq!['\''] + escaped(value@.take(it.index())),
    {
        let ghost before = value@.take(it.index());
        let ghost after = value@.take(it.index() + 1);
        proof {
            assert(after.drop_last() =~= before);
            assert(after.last() == c);
        }
        if c == '\\' {
            out.push('\\');
            out.push('\\');
        } else if c == '\'' {
            out.push('\\');
            out.push('\'');
        } else if c == '\n' {
            out.push('\\');
            out.push('n');
        } else if c == '\r' {
            out.push('\\');
            out.push('r');
        } else if c == '\t' {
            out.push('\\');
            out.push('t');
        } else {
            out.push(c);
        }
        assert(out@ =~= seq!['\''] + escaped(after));
    }
    proof {
        assert(value@.take(value@.len() as int) =~= value@);
    }
    out.push('\'');
    out
}

/// Writes `key` as it stands in an object: bare where it can be, else quoted.
pub fn format_key(key: &str) -> (r: String)
    ensures
        r@ == key_text(key@),
{
    let mut bare = !key.is_empty();
    for c in it: key.chars()
        invariant
            it.seq() == key@,
            bare == (key@.len() > 0 && forall|i: int|
                0 <= i < it.index() ==> !key_mark(#[trigger] key@[i])),
    {
        if is_key_mark(c) {
            bare = false;
        }
    }
    if bare {
        key.to_owned()
    } else {
        format_string(key)
    }
}

/// Writes `value`.
pub fn format_value(value: &Value) -> (r: String)
    ensures
        r@ == encoded(value@),
        well_formed(value@),
    decreases value,
{
    match value {
        Value::Null => {
            proof {
                reveal_strlit("null");
            }
            let r = "null".to_owned();
            assert(r@ =~= seq!['n', 'u', 'l', 'l']);
            r
        },
        Value::Bool(true) => {
            proof {
                reveal_strlit("true");
            }
            let r = "true".to_owned();
            assert(r@ =~= seq!['t', 'r', 'u', 'e']);
            r
        },
        Value::Bool(false) => {
            proof {
                reveal_strlit("false");
            }
            let r = "false".to_owned();
            assert(r@ =~= seq!['f', 'a', 'l', 's', 'e']);
            r
        },
        Value::Number(n) => n.text(),
        Value::String(s) => format_string(s.as_str()),
        Value::Array(items) => {
            let mut out = String::new();
            out.push('[');
            let mut i: usize = 0;
            while i < items.len()
                invariant
                    value is Array && value->Array_0 == *items,
                    i <= items@.len(),
                    value@ is Array,
                    value@->Array_0.len() == items@.len(),
                    forall|j: int| 0 <= j < items@.len() ==> value@->Array_0[j] == items@[j]@,
                    forall|j: int| 0 <= j < i ==> well_formed(#[trigger] value@->Array_0[j]),
                    out@ == seq!['['] + joined_items(value@->Array_0, i as nat),
                decreases items@.len() - i,
            {
                proof {
                    vstd::std_specs::vec::axiom_vec_index_decreases(*items, i as int);
                }
                let item = format_value(&items[i]);
                if i > 0 {
                    out.push(' ');
                    out.push('|');
                    out.push(' ');
                }
                out.push_str(item.as_str());
                i += 1;
                assert(out@ =~= seq!['['] + joined_items(value@->Array_0, i as nat));
            }
            out.push(']');
            out
        },
        Value::Object(o) => {
            let mut out = String::new();
            out.push('(');
            let count = o.len();
            let mut i: usize = 0;
            while i < count
                invariant
                    value is Object && value->Object_0 == *o,
                    count == o@.len(),
                    i <= count,
                    value@ == Tree::Object(o@),
                    ascending(o@),
                    forall|j: int| 0 <= j < i ==> well_formed((#[trigger] o@[j]).1),
                    out@ == seq!['('] + joined_entries(o@, i as nat),
                decreases count - i,
            {
                let key = format_key(o.key_at(i).as_str());
                let item = format_value(o.value_at(i));
                if i > 0 {
                    out.push(',');
                    out.push(' ');
                }
                out.push_str(key.as_str());
                out.push(':');
                out.push(' ');
                out.push_str(item.as_str());
                i += 1;
                assert(out@ =~= seq!['('] + joined_entries(o@, i as nat));
            }
            out.push(')');
            out
        },
        Value::Date(d) => d.to_text(),
    }
}

} // verus!
